//! Lifts a scheme on encodable elements to a `String → String` scheme: the
//! message goes through its UTF-8 bytes, the cipher through its wire bytes
//! written in hexadecimal.
use vstd::prelude::*;

use rand::rngs::StdRng;
use std::string::FromUtf8Error;

use hex::FromHexError;

use crate::bytes::{
    consume_deser, consume_enc, ConsumeDeserError, ConsumeEncError, Decoding, Deserialize, Encoding, Serialize,
};
use crate::schemes::{Decryptor, Encryptor, PublicKeyEncryption};

verus! {

#[verifier::external_type_specification]
#[verifier::external_body]
pub struct ExFromHexError(FromHexError);

#[verifier::external_type_specification]
#[verifier::external_body]
pub struct ExFromUtf8Error(FromUtf8Error);

/// The lowercase hexadecimal digit of `n < 16`.
pub open spec fn hex_digit(n: u8) -> char {
    if n < 10 {
        ('0' as u8 + n) as char
    } else {
        ('a' as u8 + n - 10) as char
    }
}

/// Two lowercase hexadecimal digits per byte, high digit first.
pub open spec fn hex_chars(b: Seq<u8>) -> Seq<char>
    decreases b.len(),
{
    if b.len() == 0 {
        Seq::empty()
    } else {
        hex_chars(b.drop_last()) + seq![hex_digit(b.last() / 16), hex_digit(b.last() % 16)]
    }
}

/// The UTF-8 encoding of a character sequence.
pub uninterp spec fn utf8_bytes(s: Seq<char>) -> Seq<u8>;

/// Relies on `hex::encode`: two lowercase digits per byte, high digit first.
#[verifier::external_body]
fn hex_encode(b: &Vec<u8>) -> (r: String)
    ensures
        r@ == hex_chars(b@),
{
    hex::encode(b)
}

/// Relies on `hex::decode`: it reads back what `hex::encode` writes, and a
/// string it accepts has two digits per byte.
#[verifier::external_body]
fn hex_decode(s: &String) -> (r: Result<Vec<u8>, FromHexError>)
    ensures
        r.is_ok() ==> 2 * r->Ok_0@.len() == s@.len(),
        forall|b: Seq<u8>| #[trigger] hex_chars(b) == s@ ==> r.is_ok() && r->Ok_0@ == b,
{
    hex::decode(s)
}

/// Relies on `str::as_bytes`: the UTF-8 encoding of the string.
#[verifier::external_body]
fn utf8_encode(s: &String) -> (r: Vec<u8>)
    ensures
        r@ == utf8_bytes(s@),
{
    s.as_bytes().to_vec()
}

/// Relies on `String::from_utf8`: it accepts exactly the UTF-8 encodings and
/// gives back the characters encoded.
#[verifier::external_body]
fn utf8_decode(b: Vec<u8>) -> (r: Result<String, FromUtf8Error>)
    ensures
        r.is_ok() ==> utf8_bytes(r->Ok_0@) == b@,
        r.is_err() ==> forall|s: Seq<char>| #[trigger] utf8_bytes(s) != b@,
{
    String::from_utf8(b)
}

/// `X` with string messages and hexadecimal ciphers.
pub struct Stringer<X>(pub X);

impl<X: Encryptor> Encryptor for Stringer<X> where X::Message: Encoding, X::Cipher: Serialize {
    type Message = String;

    type Cipher = String;

    /// The hexadecimal wire bytes of a cipher of the inner message encoded
    /// from the UTF-8 bytes of `m`; empty where the encoder gives nothing.
    open spec fn encrypts(&self, m: String, c: String) -> bool {
        let b = utf8_bytes(m@);
        if X::Message::succeeds(b) {
            exists|mi: X::Message, ci: X::Cipher|
                #![trigger self.0.encrypts(mi, ci)]
                X::Message::encodes(b, mi) && self.0.encrypts(mi, ci) && c@ == hex_chars(ci.wire())
        } else {
            c@.len() == 0
        }
    }

    /// The UTF-8 bytes fit one inner message, which the inner scheme accepts.
    /// A message too long for one inner message is refused.
    open spec fn accepts(&self, m: String) -> bool {
        let b = utf8_bytes(m@);
        X::Message::succeeds(b) ==> X::Message::consumed(b) == b.len() && forall|mi: X::Message|
            #[trigger] X::Message::encodes(b, mi) ==> self.0.accepts(mi)
    }

    fn encrypt(&self, rng: &mut StdRng, message: String) -> (c: String) {
        let bytes = utf8_encode(&message);
        match consume_enc::<X::Message>(bytes) {
            Ok(m) => {
                let ghost mi = m;
                let cipher = self.0.encrypt(rng, m);
                let wire = cipher.serialize();
                let r = hex_encode(&wire);
                assert(self.0.encrypts(mi, cipher));
                r
            },
            Err(ConsumeEncError::EmptyStream) => String::new(),
            Err(ConsumeEncError::HugeStream) => vstd::pervasive::unreached(),
        }
    }
}

/// Where decryption of a string failed.
pub enum StringDecryptionError<S, R, C> {
    /// The cipher is not a hexadecimal string.
    NotAHex,
    /// Its bytes are not the wire bytes of one inner cipher.
    Deserialization(S),
    /// The inner scheme failed.
    Decryption(R),
    /// The inner message does not give bytes back.
    Decoding(C),
    /// The message bytes are not UTF-8.
    NotUtf8,
}

impl<X: Decryptor> Decryptor for Stringer<X> where X::Message: Decoding, X::Cipher: Deserialize {
    type Message = String;

    type Cipher = String;

    type Error = StringDecryptionError<
        ConsumeDeserError<<X::Cipher as Deserialize>::Error>,
        X::Error,
        <X::Message as Decoding>::Error,
    >;

    /// Stage by stage: a string that writes no bytes in hexadecimal is
    /// `NotAHex`. For the hexadecimal writing of the wire bytes of an inner
    /// cipher, the cipher read back is decrypted: its error is `Decryption`,
    /// the message's decoding error is `Decoding`, and decoded bytes give
    /// the string they encode, or `NotUtf8` where no string encodes to them.
    open spec fn decryption(&self, c: String, r: Result<String, Self::Error>) -> bool {
        &&& r matches Err(StringDecryptionError::NotAHex) ==> forall|b: Seq<u8>| #[trigger] hex_chars(b) != c@
        &&& forall|x: X::Cipher|
            #![trigger x.wire()]
            x.wire_ok() && c@ == hex_chars(x.wire()) ==> exists|y: X::Cipher, ir: Result<X::Message, X::Error>|
                #![trigger self.0.decryption(y, ir)]
                y.same(&x) && self.0.decryption(y, ir) && match ir {
                    Err(e) => r == Err::<String, Self::Error>(StringDecryptionError::Decryption(e)),
                    Ok(mi) => exists|dr: Result<Vec<u8>, <X::Message as Decoding>::Error>|
                        #![trigger mi.decoding(dr)]
                        mi.decoding(dr) && match dr {
                            Err(e) => r == Err::<String, Self::Error>(StringDecryptionError::Decoding(e)),
                            Ok(bs) => match r {
                                Ok(s) => utf8_bytes(s@) == bs@,
                                Err(StringDecryptionError::NotUtf8) => forall|s: Seq<char>|
                                    #![trigger utf8_bytes(s)]
                                    utf8_bytes(s) != bs@,
                                Err(_) => false,
                            },
                        },
                }
    }

    fn decrypt(&self, cipher: String) -> (r: Result<String, Self::Error>) {
        let bytes = match hex_decode(&cipher) {
            Ok(b) => b,
            Err(_) => return Err(StringDecryptionError::NotAHex),
        };
        let ghost bs = bytes@;
        let inner = match consume_deser::<X::Cipher>(bytes) {
            Ok(c) => c,
            Err(e) => return Err(StringDecryptionError::Deserialization(e)),
        };
        let ghost y = inner;
        let ghost ok_x = forall|x: X::Cipher| #![trigger x.wire()] x.wire_ok() && cipher@ == hex_chars(x.wire()) ==> y.same(&x);
        assert(ok_x);
        let message = match self.0.decrypt(inner) {
            Ok(m) => m,
            Err(e) => {
                let r: Result<String, Self::Error> = Err(StringDecryptionError::Decryption(e));
                assert forall|x: X::Cipher|
                    #![trigger x.wire()]
                    x.wire_ok() && cipher@ == hex_chars(x.wire()) implies exists|y2: X::Cipher, ir: Result<X::Message, X::Error>|
                        #![trigger self.0.decryption(y2, ir)]
                        y2.same(&x) && self.0.decryption(y2, ir) && match ir {
                            Err(e2) => r == Err::<String, Self::Error>(StringDecryptionError::Decryption(e2)),
                            Ok(mi) => false,
                        } by {
                    assert(self.0.decryption(y, Err(e)));
                }
                return r;
            },
        };
        let ghost mi = message;
        assert(self.0.decryption(y, Ok(mi)));
        let message_bytes = match message.decode() {
            Ok(b) => b,
            Err(e) => {
                let r: Result<String, Self::Error> = Err(StringDecryptionError::Decoding(e));
                assert forall|x: X::Cipher|
                    #![trigger x.wire()]
                    x.wire_ok() && cipher@ == hex_chars(x.wire()) implies y.same(&x) && self.0.decryption(y, Ok(mi))
                        && mi.decoding(Err(e)) by {}
                return r;
            },
        };
        let ghost mb = message_bytes@;
        let ghost db = message_bytes;
        assert(mi.decoding(Ok(db)));
        match utf8_decode(message_bytes) {
            Ok(s) => Ok(s),
            Err(_) => Err(StringDecryptionError::NotUtf8),
        }
    }
}

impl<X: PublicKeyEncryption> PublicKeyEncryption for Stringer<X> where
    <X::PublicKey as Encryptor>::Message: Encoding,
    <X::PublicKey as Encryptor>::Cipher: Serialize,
    <X::Secret as Decryptor>::Message: Decoding,
    <X::Secret as Decryptor>::Cipher: Deserialize,
 {
    type PublicKey = Stringer<X::PublicKey>;

    type Secret = Stringer<X::Secret>;

    open spec fn key_pair(&self, pk: Stringer<X::PublicKey>, sk: Stringer<X::Secret>) -> bool {
        self.0.key_pair(pk.0, sk.0)
    }

    fn generate_keys(&self, rng: &mut StdRng) -> (r: (Stringer<X::PublicKey>, Stringer<X::Secret>)) {
        let (enc, dec) = self.0.generate_keys(rng);
        (Stringer(enc), Stringer(dec))
    }
}

} // verus!
