//! Byte codecs: embedding of plaintext bytes into elements (`Encoding`,
//! `Decoding`) and the wire format of ciphertexts (`Serialize`,
//! `Deserialize`).
use vstd::prelude::*;

verus! {

/// Bytes read from the front, one at a time.
pub struct Stream {
    data: Vec<u8>,
    pos: usize,
}

impl Stream {
    #[verifier::type_invariant]
    spec fn within(&self) -> bool {
        self.pos <= self.data@.len()
    }

    /// The bytes not read yet.
    pub closed spec fn rest(&self) -> Seq<u8> {
        self.data@.subrange(self.pos as int, self.data@.len() as int)
    }

    pub fn new(data: Vec<u8>) -> (r: Stream)
        ensures
            r.rest() == data@,
    {
        let r = Stream { data, pos: 0 };
        assert(r.rest() =~= r.data@);
        r
    }

    pub fn next(&mut self) -> (r: Option<u8>)
        ensures
            old(self).rest().len() == 0 ==> r.is_none() && final(self).rest() == old(self).rest(),
            old(self).rest().len() > 0 ==> r == Some(old(self).rest()[0]) && final(self).rest()
                == old(self).rest().skip(1),
    {
        proof {
            use_type_invariant(&*self);
        }
        if self.pos < self.data.len() {
            let b = self.data[self.pos];
            self.pos = self.pos + 1;
            assert(self.rest() =~= old(self).rest().skip(1));
            Some(b)
        } else {
            None
        }
    }

    /// Reads up to `n` bytes: fewer only where the stream ends first.
    pub fn take(&mut self, n: usize) -> (r: Vec<u8>)
        ensures
            r@.len() == (if old(self).rest().len() < n { old(self).rest().len() } else { n as nat }),
            r@ == old(self).rest().take(r@.len() as int),
            final(self).rest() == old(self).rest().skip(r@.len() as int),
    {
        let mut r: Vec<u8> = Vec::new();
        let mut i: usize = 0;
        while i < n
            invariant
                i <= n,
                r@.len() <= i,
                r@.len() <= old(self).rest().len(),
                r@ == old(self).rest().take(r@.len() as int),
                self.rest() == old(self).rest().skip(r@.len() as int),
                r@.len() < i ==> self.rest().len() == 0,
            decreases n - i,
        {
            let ghost prev = self.rest();
            let ghost k = r@.len() as int;
            match self.next() {
                Some(b) => {
                    r.push(b);
                    assert(prev[0] == old(self).rest()[k]);
                    assert(r@ =~= old(self).rest().take(k + 1));
                    assert(self.rest() =~= old(self).rest().skip(k + 1));
                },
                None => {},
            }
            i = i + 1;
        }
        r
    }

    pub fn remaining(&self) -> (r: usize)
        ensures
            r == self.rest().len(),
    {
        proof {
            use_type_invariant(self);
        }
        self.data.len() - self.pos
    }

    pub fn is_empty(&self) -> (r: bool)
        ensures
            r == (self.rest().len() == 0),
    {
        proof {
            use_type_invariant(self);
        }
        self.pos >= self.data.len()
    }
}

/// `p` is the start of `s`.
pub open spec fn is_prefix(p: Seq<u8>, s: Seq<u8>) -> bool {
    p.len() <= s.len() && s.take(p.len() as int) == p
}

/// An element made from a prefix of a byte stream.
pub trait Encoding: Sized {
    /// How many bytes `encode` takes from a stream holding `bytes`.
    spec fn consumed(bytes: Seq<u8>) -> nat;

    /// Whether `encode` gives an element for a stream holding `bytes`.
    spec fn succeeds(bytes: Seq<u8>) -> bool;

    /// `e` is an element `encode` may give for a stream holding `bytes`.
    spec fn encodes(bytes: Seq<u8>, e: Self) -> bool;

    /// Takes `consumed` bytes from the front of the stream, and gives an
    /// element exactly when `succeeds`; a success on a nonempty stream takes
    /// at least one byte.
    fn encode(stream: &mut Stream) -> (r: Option<Self>)
        ensures
            Self::consumed(old(stream).rest()) <= old(stream).rest().len(),
            final(stream).rest() == old(stream).rest().skip(Self::consumed(old(stream).rest()) as int),
            r.is_some() == Self::succeeds(old(stream).rest()),
            r matches Some(e) ==> Self::encodes(old(stream).rest(), e),
            Self::succeeds(old(stream).rest()) && old(stream).rest().len() > 0 ==> Self::consumed(
                old(stream).rest(),
            ) > 0,
    ;
}

/// What the element encoder of a sequence takes: element after element
/// until the bytes run out or one fails.
pub open spec fn seq_consumed<T: Encoding>(b: Seq<u8>) -> nat
    decreases b.len(),
{
    let c = T::consumed(b);
    if b.len() == 0 {
        0
    } else if !T::succeeds(b) || c == 0 || c > b.len() {
        c
    } else {
        c + seq_consumed::<T>(b.skip(c as int))
    }
}

/// Every element encodes, until the bytes run out.
pub open spec fn seq_succeeds<T: Encoding>(b: Seq<u8>) -> bool
    decreases b.len(),
{
    let c = T::consumed(b);
    if b.len() == 0 {
        true
    } else if !T::succeeds(b) || c == 0 || c > b.len() {
        T::succeeds(b) && (c == 0 || c > b.len())
    } else {
        seq_succeeds::<T>(b.skip(c as int))
    }
}

/// `s` are the elements encoded one after another from `b`.
pub open spec fn seq_encodes<T: Encoding>(b: Seq<u8>, s: Seq<T>) -> bool
    decreases b.len(),
{
    let c = T::consumed(b);
    if b.len() == 0 {
        s.len() == 0
    } else if !T::succeeds(b) || c == 0 || c > b.len() {
        false
    } else {
        s.len() > 0 && T::encodes(b, s[0]) && seq_encodes::<T>(b.skip(c as int), s.skip(1))
    }
}

/// The bytes an element stands for.
pub trait Decoding: Sized {
    type Error;

    /// `r` is what `decode` gives.
    spec fn decoding(&self, r: Result<Vec<u8>, Self::Error>) -> bool;

    fn decode(&self) -> (r: Result<Vec<u8>, Self::Error>)
        ensures
            self.decoding(r),
    ;
}

/// The contents of byte vectors.
pub open spec fn views(parts: Seq<Vec<u8>>) -> Seq<Seq<u8>> {
    parts.map_values(|p: Vec<u8>| p@)
}

/// The byte strings one after another.
pub open spec fn concat(parts: Seq<Seq<u8>>) -> Seq<u8>
    decreases parts.len(),
{
    if parts.len() == 0 {
        Seq::empty()
    } else {
        concat(parts.drop_last()) + parts.last()
    }
}

/// The wire format of a value.
pub trait Serialize: Sized {
    /// The bytes that `serialize` writes.
    spec fn wire(&self) -> Seq<u8>;

    /// Values that read back from their wire bytes.
    spec fn wire_ok(&self) -> bool;

    /// Two values that stand for the same element.
    spec fn same(&self, o: &Self) -> bool;

    /// Whether the wire bytes of a value end on their own, so that more may follow.
    spec fn self_delimiting() -> bool;

    fn serialize(&self) -> (r: Vec<u8>)
        ensures
            r@ == self.wire(),
    ;
}

/// Reading a value back from the wire.
pub trait Deserialize: Serialize {
    type Error;

    /// `r` is what `deserialize` gives on a stream holding `bytes`, leaving `rest`.
    spec fn reads(bytes: Seq<u8>, r: Result<Option<Self>, Self::Error>, rest: Seq<u8>) -> bool;

    /// What `reads` says; `Ok(None)` on an empty stream; a value written by
    /// `serialize` reads back as the same element.
    fn deserialize(stream: &mut Stream) -> (r: Result<Option<Self>, Self::Error>)
        ensures
            Self::reads(old(stream).rest(), r, final(stream).rest()),
            Self::self_delimiting() && old(stream).rest().len() == 0 ==> (r matches Ok(None)),
            Self::self_delimiting() && (r matches Ok(Some(_))) ==> final(stream).rest().len() < old(
                stream,
            ).rest().len(),
            final(stream).rest().len() <= old(stream).rest().len(),
            forall|x: Self|
                #![trigger x.wire()]
                x.wire_ok() && old(stream).rest() == x.wire() ==> {
                    &&& r matches Ok(Some(y)) && y.same(&x)
                    &&& final(stream).rest().len() == 0
                },
            Self::self_delimiting() ==> forall|x: Self|
                #![trigger x.wire()]
                x.wire_ok() && is_prefix(x.wire(), old(stream).rest()) ==> {
                    &&& r matches Ok(Some(y)) && y.same(&x)
                    &&& final(stream).rest() == old(stream).rest().skip(x.wire().len() as int)
                },
    ;
}


/// The wire bytes of a sequence of values, one after another.
pub open spec fn wires<T: Serialize>(s: Seq<T>) -> Seq<u8>
    decreases s.len(),
{
    if s.len() == 0 {
        Seq::empty()
    } else {
        wires(s.drop_last()) + s.last().wire()
    }
}

pub proof fn lemma_wires_front<T: Serialize>(s: Seq<T>)
    requires
        s.len() > 0,
    ensures
        wires(s) == s[0].wire() + wires(s.skip(1)),
    decreases s.len(),
{
    if s.len() > 1 {
        lemma_wires_front(s.drop_last());
        assert(s.drop_last().skip(1) =~= s.skip(1).drop_last());
        assert(s.skip(1).last() == s.last());
        assert(s.drop_last()[0] == s[0]);
        assert((s[0].wire() + wires(s.skip(1).drop_last())) + s.last().wire() =~= s[0].wire() + (
        wires(s.skip(1).drop_last()) + s.last().wire()));
    } else {
        assert(s.drop_last().len() == 0);
        assert(wires(s.drop_last()) == Seq::<u8>::empty());
        assert(s.skip(1).len() == 0);
        assert(wires(s.skip(1)) == Seq::<u8>::empty());
        assert(s.last() == s[0]);
        assert(wires(s) =~= s[0].wire());
        assert(s[0].wire() + Seq::<u8>::empty() =~= s[0].wire());
    }
}

impl<T: Encoding> Encoding for Vec<T> {
    open spec fn consumed(bytes: Seq<u8>) -> nat {
        seq_consumed::<T>(bytes)
    }

    open spec fn succeeds(bytes: Seq<u8>) -> bool {
        seq_succeeds::<T>(bytes)
    }

    open spec fn encodes(bytes: Seq<u8>, e: Self) -> bool {
        seq_encodes::<T>(bytes, e@)
    }

    /// Encodes elements until the stream is used up; `None` when one of
    /// them cannot be encoded.
    fn encode(stream: &mut Stream) -> (r: Option<Self>) {
        let ghost b0 = stream.rest();
        let mut result: Vec<T> = Vec::new();
        while !stream.is_empty()
            invariant
                stream.rest().len() <= b0.len(),
                b0 == old(stream).rest(),
                stream.rest() == b0.skip(b0.len() - stream.rest().len()),
                seq_consumed::<T>(b0) == (b0.len() - stream.rest().len()) + seq_consumed::<T>(stream.rest()),
                seq_succeeds::<T>(b0) == seq_succeeds::<T>(stream.rest()),
                seq_succeeds::<T>(stream.rest()) ==> seq_encodes::<T>(stream.rest(), Seq::empty())
                    || stream.rest().len() > 0,
                forall|t: Seq<T>|
                    seq_encodes::<T>(stream.rest(), t) ==> #[trigger] seq_encodes::<T>(b0, result@ + t),
                result@.len() > 0 ==> stream.rest().len() < b0.len(),
            decreases stream.rest().len(),
        {
            let ghost r0 = stream.rest();
            let ghost done = result@;
            match T::encode(stream) {
                Some(value) => {
                    proof {
                        let c = T::consumed(r0);
                        assert(stream.rest() =~= b0.skip(b0.len() - stream.rest().len()));
                        assert forall|t: Seq<T>|
                            seq_encodes::<T>(stream.rest(), t) implies #[trigger] seq_encodes::<T>(
                                b0,
                                result@.push(value) + t,
                            ) by {
                            let t2 = seq![value] + t;
                            assert(t2[0] == value);
                            assert(t2.skip(1) =~= t);
                            assert(seq_encodes::<T>(r0, t2));
                            assert(done + t2 =~= done.push(value) + t);
                        }
                    }
                    result.push(value);
                },
                None => {
                    proof {
                        assert(stream.rest() =~= b0.skip(b0.len() - stream.rest().len()));
                    }
                    return None;
                },
            }
        }
        proof {
            assert(result@ + Seq::<T>::empty() =~= result@);
        }
        Some(result)
    }
}

impl<T: Decoding> Decoding for Vec<T> {
    type Error = T::Error;

    /// The bytes of each element, in order; the first error stops it.
    open spec fn decoding(&self, r: Result<Vec<u8>, T::Error>) -> bool {
        match r {
            Ok(bytes) => exists|parts: Seq<Vec<u8>>|
                #![trigger concat(views(parts))]
                parts.len() == self@.len() && bytes@ == concat(views(parts))
                    && forall|i: int| 0 <= i < self@.len() ==> (#[trigger] self@[i]).decoding(Ok(parts[i])),
            Err(e) => exists|i: int| 0 <= i < self@.len() && (#[trigger] self@[i]).decoding(Err(e)),
        }
    }

    fn decode(&self) -> (r: Result<Vec<u8>, Self::Error>) {
        let mut out: Vec<u8> = Vec::new();
        let mut i: usize = 0;
        let ghost mut parts: Seq<Vec<u8>> = Seq::empty();
        while i < self.len()
            invariant
                i <= self@.len(),
                parts.len() == i,
                out@ == concat(views(parts)),
                forall|k: int| 0 <= k < i ==> (#[trigger] self@[k]).decoding(Ok(parts[k])),
            decreases self.len() - i,
        {
            match self[i].decode() {
                Ok(bytes) => {
                    let ghost b = bytes;
                    let mut bytes = bytes;
                    let ghost before = out@;
                    out.append(&mut bytes);
                    proof {
                        let old_parts = parts;
                        parts = parts.push(b);
                        assert(views(parts).drop_last() =~= views(old_parts));
                        assert(views(parts).last() == b@);
                    }
                },
                Err(e) => {
                    return Err(e);
                },
            }
            i = i + 1;
        }
        Ok(out)
    }
}

impl<T: Serialize> Serialize for Vec<T> {
    open spec fn wire(&self) -> Seq<u8> {
        wires(self@)
    }

    open spec fn wire_ok(&self) -> bool {
        &&& T::self_delimiting()
        &&& forall|i: int| 0 <= i < self@.len() ==> (#[trigger] self@[i]).wire_ok() && self@[i].wire().len() > 0
    }

    open spec fn same(&self, o: &Self) -> bool {
        &&& self@.len() == o@.len()
        &&& forall|i: int| 0 <= i < self@.len() ==> (#[trigger] self@[i]).same(&o@[i])
    }

    open spec fn self_delimiting() -> bool {
        false
    }

    fn serialize(&self) -> (r: Vec<u8>) {
        let mut out: Vec<u8> = Vec::new();
        let mut i: usize = 0;
        while i < self.len()
            invariant
                i <= self@.len(),
                out@ == wires(self@.take(i as int)),
            decreases self.len() - i,
        {
            let mut bytes = self[i].serialize();
            proof {
                assert(self@.take(i + 1).drop_last() =~= self@.take(i as int));
            }
            out.append(&mut bytes);
            i = i + 1;
        }
        assert(self@.take(i as int) =~= self@);
        out
    }
}

impl<T: Deserialize> Deserialize for Vec<T> {
    type Error = T::Error;

    /// A sequence is always there, possibly empty.
    open spec fn reads(bytes: Seq<u8>, r: Result<Option<Self>, T::Error>, rest: Seq<u8>) -> bool {
        !(r matches Ok(None))
    }

    /// Reads elements until the stream ends.
    fn deserialize(stream: &mut Stream) -> (r: Result<Option<Self>, Self::Error>) {
        let mut result: Vec<T> = Vec::new();
        proof {
            assert forall|x: Self|
                #![trigger x.wire()]
                x.wire_ok() && old(stream).rest() == x.wire() implies stream.rest() == wires(x@.skip(0)) by {
                assert(x@.skip(0) =~= x@);
            }
        }
        loop
            invariant
                stream.rest().len() <= old(stream).rest().len(),
                forall|x: Self|
                    #![trigger x.wire()]
                    x.wire_ok() && old(stream).rest() == x.wire() ==> {
                        &&& result@.len() <= x@.len()
                        &&& forall|j: int| 0 <= j < result@.len() ==> (#[trigger] result@[j]).same(&x@[j])
                        &&& stream.rest() == wires(x@.skip(result@.len() as int))
                    },
            decreases stream.rest().len(),
        {
            let ghost before = stream.rest();
            let ghost k = result@.len() as int;
            let before_len = stream.remaining();
            proof {
                assert forall|x: Self|
                    #![trigger x.wire()]
                    x.wire_ok() && old(stream).rest() == x.wire() && k < x@.len() implies
                        before == x@[k].wire() + wires(x@.skip(k + 1)) && is_prefix(x@[k].wire(), before) by {
                    lemma_wires_front(x@.skip(k));
                    assert(x@.skip(k).skip(1) =~= x@.skip(k + 1));
                    assert((x@[k].wire() + wires(x@.skip(k + 1))).take(x@[k].wire().len() as int) =~= x@[k].wire());
                }
            }
            match T::deserialize(stream) {
                Err(e) => {
                    return Err(e);
                },
                Ok(None) => {
                    proof {
                        assert forall|x: Self|
                            #![trigger x.wire()]
                            x.wire_ok() && old(stream).rest() == x.wire() implies result@.len() == x@.len() by {
                            if k < x@.len() {
                                let e = x@[k];
                                assert(e.wire_ok());
                                let _ew = e.wire();
                            }
                        }
                    }
                    return Ok(Some(result));
                },
                Ok(Some(value)) => {
                    proof {
                        assert forall|x: Self|
                            #![trigger x.wire()]
                            x.wire_ok() && old(stream).rest() == x.wire() implies k < x@.len() && value.same(&x@[k])
                                && stream.rest() == wires(x@.skip(k + 1)) by {
                            if k >= x@.len() {
                                assert(x@.skip(k).len() == 0);
                                assert(before.len() == 0);
                            }
                            let e = x@[k];
                            assert(e.wire_ok());
                            let _ew = e.wire();
                            assert(before.skip(e.wire().len() as int) =~= wires(x@.skip(k + 1)));
                        }
                    }
                    result.push(value);
                    if stream.remaining() >= before_len {
                        proof {
                            assert forall|x: Self|
                                #![trigger x.wire()]
                                x.wire_ok() && old(stream).rest() == x.wire() implies result@.len() == x@.len() by {
                                let e = x@[k];
                                assert(e.wire_ok());
                                let _ew = e.wire();
                            }
                        }
                        return Ok(Some(result));
                    }
                },
            }
        }
    }
}

/// Error of reading a pair.
pub enum Either<L, R> {
    Left(L),
    Right(R),
    /// The stream ended after the first value and before the second.
    NotEnoughBytes,
}

impl<T: Serialize, U: Serialize> Serialize for (T, U) {
    open spec fn wire(&self) -> Seq<u8> {
        self.0.wire() + self.1.wire()
    }

    open spec fn wire_ok(&self) -> bool {
        self.0.wire_ok() && self.1.wire_ok() && T::self_delimiting()
    }

    open spec fn same(&self, o: &Self) -> bool {
        self.0.same(&o.0) && self.1.same(&o.1)
    }

    open spec fn self_delimiting() -> bool {
        T::self_delimiting() && U::self_delimiting()
    }

    fn serialize(&self) -> (r: Vec<u8>) {
        let mut left = self.0.serialize();
        let mut right = self.1.serialize();
        left.append(&mut right);
        left
    }
}

impl<T: Deserialize, U: Deserialize> Deserialize for (T, U) {
    type Error = Either<T::Error, U::Error>;

    /// The first value, then the second; the stream ending between them is
    /// `NotEnoughBytes`.
    open spec fn reads(bytes: Seq<u8>, r: Result<Option<Self>, Self::Error>, rest: Seq<u8>) -> bool {
        exists|r1: Result<Option<T>, T::Error>, mid: Seq<u8>|
            #![trigger T::reads(bytes, r1, mid)]
            T::reads(bytes, r1, mid) && match r1 {
                Err(e) => r == Err::<Option<Self>, Self::Error>(Either::Left(e)) && rest == mid,
                Ok(None) => r == Ok::<Option<Self>, Self::Error>(None) && rest == mid,
                Ok(Some(a)) => exists|r2: Result<Option<U>, U::Error>|
                    #![trigger U::reads(mid, r2, rest)]
                    U::reads(mid, r2, rest) && match r2 {
                        Err(e) => r == Err::<Option<Self>, Self::Error>(Either::Right(e)),
                        Ok(None) => r == Err::<Option<Self>, Self::Error>(Either::NotEnoughBytes),
                        Ok(Some(c)) => r == Ok::<Option<Self>, Self::Error>(Some((a, c))),
                    },
            }
    }

    fn deserialize(stream: &mut Stream) -> (r: Result<Option<Self>, Self::Error>) {
        let ghost s0 = stream.rest();
        proof {
            assert forall|x: Self|
                #![trigger x.wire()]
                x.wire_ok() && (s0 == x.wire() || (Self::self_delimiting() && is_prefix(x.wire(), s0))) implies
                    is_prefix(x.0.wire(), s0) && s0.skip(x.0.wire().len() as int).take(x.1.wire().len() as int)
                    == x.1.wire() && x.1.wire().len() <= s0.skip(x.0.wire().len() as int).len() by {
                let a = x.0.wire();
                let b = x.1.wire();
                assert(s0.take((a + b).len() as int) == a + b);
                assert forall|i: int| 0 <= i < a.len() implies s0.take(a.len() as int)[i] == a[i] by {
                    assert(s0.take((a + b).len() as int)[i] == (a + b)[i]);
                }
                assert(s0.take(a.len() as int) =~= a);
                assert forall|i: int| 0 <= i < b.len() implies s0.skip(a.len() as int).take(b.len() as int)[i] == b[i] by {
                    assert(s0.take((a + b).len() as int)[a.len() + i] == (a + b)[a.len() + i]);
                }
                assert(s0.skip(a.len() as int).take(b.len() as int) =~= b);
            }
        }
        let left = match T::deserialize(stream) {
            Err(e) => {
                assert(T::reads(s0, Err(e), stream.rest()));
                return Err(Either::Left(e));
            },
            Ok(None) => {
                assert(T::reads(s0, Ok(None), stream.rest()));
                return Ok(None);
            },
            Ok(Some(v)) => v,
        };
        let ghost s1 = stream.rest();
        assert(T::reads(s0, Ok(Some(left)), s1));
        proof {
            assert forall|x: Self|
                #![trigger x.wire()]
                x.wire_ok() && s0 == x.wire() implies s1 == x.1.wire() by {
                let a = x.0.wire();
                assert(x.0.wire() == a);
                assert(s0.skip(a.len() as int) =~= x.1.wire());
            }
            assert forall|x: Self|
                #![trigger x.wire()]
                x.wire_ok() && Self::self_delimiting() && is_prefix(x.wire(), s0) implies is_prefix(
                    x.1.wire(),
                    s1,
                ) && s1.skip(x.1.wire().len() as int) =~= s0.skip(x.wire().len() as int) by {
                let a = x.0.wire();
                assert(x.0.wire() == a);
            }
        }
        let right = match U::deserialize(stream) {
            Err(e) => {
                assert(U::reads(s1, Err(e), stream.rest()));
                return Err(Either::Right(e));
            },
            Ok(None) => {
                assert(U::reads(s1, Ok(None), stream.rest()));
                return Err(Either::NotEnoughBytes);
            },
            Ok(Some(v)) => v,
        };
        assert(U::reads(s1, Ok(Some(right)), stream.rest()));
        proof {
            assert forall|x: Self|
                #![trigger x.wire()]
                x.wire_ok() && (s0 == x.wire() || (Self::self_delimiting() && is_prefix(x.wire(), s0))) implies
                    left.same(&x.0) && right.same(&x.1) by {
                let _a = x.0.wire();
                let _b = x.1.wire();
            }
        }
        Ok(Some((left, right)))
    }
}

pub enum ConsumeEncError {
    EmptyStream,
    HugeStream,
}

/// Encodes all of `bytes` as one element: `EmptyStream` where the encoder
/// gives nothing, `HugeStream` where it leaves bytes over.
pub fn consume_enc<T: Encoding>(bytes: Vec<u8>) -> (r: Result<T, ConsumeEncError>)
    ensures
        r matches Err(ConsumeEncError::EmptyStream) <==> !T::succeeds(bytes@),
        r matches Err(ConsumeEncError::HugeStream) <==> T::succeeds(bytes@) && T::consumed(bytes@)
            < bytes@.len(),
        r is Ok <==> T::succeeds(bytes@) && T::consumed(bytes@) == bytes@.len(),
        r matches Ok(e) ==> T::encodes(bytes@, e),
{
    let mut stream = Stream::new(bytes);
    match T::encode(&mut stream) {
        None => Err(ConsumeEncError::EmptyStream),
        Some(result) => {
            if !stream.is_empty() {
                Err(ConsumeEncError::HugeStream)
            } else {
                Ok(result)
            }
        },
    }
}

pub enum ConsumeDeserError<E> {
    Deserialization(E),
    EmptyStream,
    HugeStream,
}

/// Reads exactly one value from `bytes`.
pub fn consume_deser<T: Deserialize>(bytes: Vec<u8>) -> (r: Result<T, ConsumeDeserError<T::Error>>)
    ensures
        T::self_delimiting() && bytes@.len() == 0 ==> (r matches Err(ConsumeDeserError::EmptyStream)),
        r matches Ok(t) ==> T::reads(bytes@, Ok(Some(t)), Seq::empty()),
        r matches Err(ConsumeDeserError::EmptyStream) ==> exists|rest: Seq<u8>|
            #[trigger] T::reads(bytes@, Ok(None), rest),
        r matches Err(ConsumeDeserError::HugeStream) ==> exists|t: T, rest: Seq<u8>|
            #[trigger] T::reads(bytes@, Ok(Some(t)), rest) && rest.len() > 0,
        r matches Err(ConsumeDeserError::Deserialization(e)) ==> exists|rest: Seq<u8>|
            #[trigger] T::reads(bytes@, Err(e), rest),
        forall|x: T|
            #![trigger x.wire()]
            x.wire_ok() && bytes@ == x.wire() ==> (r matches Ok(y) && y.same(&x)),
{
    let ghost b0 = bytes@;
    let mut stream = Stream::new(bytes);
    match T::deserialize(&mut stream) {
        Err(e) => {
            let r: Result<T, ConsumeDeserError<T::Error>> = Err(ConsumeDeserError::Deserialization(e));
            assert(T::reads(b0, Err(e), stream.rest()));
            assert(r matches Err(ConsumeDeserError::Deserialization(e2)) && T::reads(b0, Err(e2), stream.rest()));
            r
        },
        Ok(None) => {
            assert(T::reads(b0, Ok(None), stream.rest()));
            Err(ConsumeDeserError::EmptyStream)
        },
        Ok(Some(result)) => {
            assert(T::reads(b0, Ok(Some(result)), stream.rest()));
            if !stream.is_empty() {
                Err(ConsumeDeserError::HugeStream)
            } else {
                assert(stream.rest() =~= Seq::<u8>::empty());
                Ok(result)
            }
        },
    }
}

} // verus!
