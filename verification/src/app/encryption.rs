use vstd::prelude::*;
use vstd::utf8::decode_utf8;
use vstd::utf8::encode_utf8;
use vstd::utf8::encode_utf8_decode_utf8;
use vstd::utf8::encode_utf8_valid_utf8;
use vstd::utf8::valid_utf8;

verus! {

/// How a cipher operation can fail: `EncryptionFailure` only on an internal
/// cipher error (any text is valid plaintext), `AuthenticationFailure` when a
/// payload cannot be authenticated under the held passphrase (wrong
/// passphrase, corruption, or bytes that never were ciphertext), and
/// `EncodingFailure` when an authenticated payload is not valid text.
#[derive(Clone, Copy, Debug, PartialEq, Eq, Structural)]
pub enum EncryptionError {
    EncryptionFailure,
    AuthenticationFailure,
    EncodingFailure,
}

/// age's error type for encryption; opaque here, mapped to
/// [`EncryptionError::EncryptionFailure`] by the caller.
#[verifier::external_type_specification]
#[verifier::external_body]
pub struct ExEncryptError(age::EncryptError);

/// age's error type for decryption; opaque here, mapped to
/// [`EncryptionError::AuthenticationFailure`] by the caller.
#[verifier::external_type_specification]
#[verifier::external_body]
pub struct ExDecryptError(age::DecryptError);

/// The payload that age's authenticated passphrase decryption recovers from
/// `ciphertext` under `passphrase`: `Some` of the plaintext bytes exactly when
/// authentication succeeds, `None` otherwise. Decryption is a function of the
/// ciphertext and the passphrase alone, so the result bears a name; what the
/// name yields on given values is never stated, only how encryption and
/// decryption relate through it.
pub uninterp spec fn age_payload(passphrase: Seq<char>, ciphertext: Seq<u8>) -> Option<Seq<u8>>;

/// What decrypting `ciphertext` under `passphrase` yields once age's
/// authentication and UTF-8 decoding are both accounted for.
pub open spec fn spec_decrypt(passphrase: Seq<char>, ciphertext: Seq<u8>) -> Result<
    Seq<char>,
    EncryptionError,
> {
    match age_payload(passphrase, ciphertext) {
        Option::None => Result::Err(EncryptionError::AuthenticationFailure),
        Option::Some(payload) => if valid_utf8(payload) {
            Result::Ok(decode_utf8(payload))
        } else {
            Result::Err(EncryptionError::EncodingFailure)
        },
    }
}

/// `ciphertext` is an encryption of `plaintext` bound to `passphrase`: it
/// authenticates under `passphrase` to exactly the UTF-8 bytes of `plaintext`,
/// and under no other passphrase.
pub open spec fn cipher_for(
    passphrase: Seq<char>,
    plaintext: Seq<char>,
    ciphertext: Seq<u8>,
) -> bool {
    &&& age_payload(passphrase, ciphertext) == Option::Some(encode_utf8(plaintext))
    &&& forall|other: Seq<char>|
        other != passphrase ==> (#[trigger] age_payload(other, ciphertext)) is None
}

/// Relies on `age::encrypt` with an `age::scrypt::Recipient` at a fixed
/// scrypt work factor (within the fixed bound [`age_decrypt`] accepts, so the
/// outcome of decryption depends on no measurement of the machine): on
/// success the ciphertext carries, under age's authenticated decryption with
/// the same passphrase, exactly the UTF-8 bytes of the plaintext; under any
/// other passphrase authentication fails. The second clause holds with
/// overwhelming probability and is stated outright: it is the trust boundary
/// the whole store rests on.
#[verifier::external_body]
fn age_encrypt(passphrase: &str, plaintext: &str) -> (r: Result<Vec<u8>, age::EncryptError>)
    ensures
        r is Ok ==> age_payload(passphrase@, r->Ok_0@) == Option::Some(encode_utf8(plaintext@)),
        r is Ok ==> forall|other: Seq<char>|
            other != passphrase@ ==> (#[trigger] age_payload(other, r->Ok_0@)) is None,
{
    let mut recipient = age::scrypt::Recipient::new(age::secrecy::SecretString::from(
        passphrase.to_owned(),
    ));
    recipient.set_work_factor(12);
    age::encrypt(&recipient, plaintext.as_bytes())
}

/// Relies on `age::decrypt` with an `age::scrypt::Identity` whose maximum
/// accepted work factor is fixed (age would otherwise measure the machine to
/// pick it, and the outcome of a name must depend on the arguments alone): it
/// returns the authenticated payload exactly when the ciphertext
/// authenticates under the passphrase, which is what [`age_payload`] names.
#[verifier::external_body]
fn age_decrypt(passphrase: &str, ciphertext: &Vec<u8>) -> (r: Result<Vec<u8>, age::DecryptError>)
    ensures
        r is Ok <==> age_payload(passphrase@, ciphertext@) is Some,
        r is Ok ==> r->Ok_0@ == age_payload(passphrase@, ciphertext@).unwrap(),
{
    let mut identity = age::scrypt::Identity::new(age::secrecy::SecretString::from(
        passphrase.to_owned(),
    ));
    identity.set_max_work_factor(16);
    age::decrypt(&identity, ciphertext.as_slice())
}

/// Relies on `String::from_utf8`: it succeeds exactly on valid UTF-8 and
/// yields its decoding.
#[verifier::external_body]
fn utf8_decode(bytes: Vec<u8>) -> (r: Option<String>)
    ensures
        r is Some <==> valid_utf8(bytes@),
        r is Some ==> r->0@ == decode_utf8(bytes@),
{
    String::from_utf8(bytes).ok()
}

/// A passphrase-bound unit that encrypts and decrypts text payloads. Pure and
/// stateless beyond the held passphrase; it never touches the filesystem.
#[derive(Clone)]
pub struct Encryption {
    secret: String,
}

impl Encryption {
    /// The passphrase this unit is bound to.
    pub closed spec fn passphrase(self) -> Seq<char> {
        self.secret@
    }

    pub fn new(passphrase: String) -> (r: Encryption)
        ensures
            r.passphrase() == passphrase@,
    {
        Encryption { secret: passphrase }
    }

    /// Encrypt a text payload. Fails only on an internal cipher error; on
    /// success the ciphertext is bound to this passphrase and this plaintext.
    pub fn encrypt(&self, input: &str) -> (r: Result<Vec<u8>, EncryptionError>)
        ensures
            r is Ok ==> cipher_for(self.passphrase(), input@, r->Ok_0@),
            r is Err ==> r->Err_0 == EncryptionError::EncryptionFailure,
    {
        match age_encrypt(self.secret.as_str(), input) {
            Result::Ok(ciphertext) => Result::Ok(ciphertext),
            Result::Err(_) => Result::Err(EncryptionError::EncryptionFailure),
        }
    }

    /// Decrypt a ciphertext produced under this passphrase. Authentication
    /// failure means a wrong passphrase, corruption, or bytes that never were
    /// ciphertext; encoding failure means the payload is not valid text.
    pub fn decrypt(&self, encrypted: Vec<u8>) -> (r: Result<String, EncryptionError>)
        ensures
            r is Ok <==> spec_decrypt(self.passphrase(), encrypted@) is Ok,
            r is Ok ==> r->Ok_0@ == spec_decrypt(self.passphrase(), encrypted@)->Ok_0,
            r is Err ==> r->Err_0 == spec_decrypt(self.passphrase(), encrypted@)->Err_0,
    {
        match age_decrypt(self.secret.as_str(), &encrypted) {
            Result::Err(_) => Result::Err(EncryptionError::AuthenticationFailure),
            Result::Ok(payload) => match utf8_decode(payload) {
                Option::None => Result::Err(EncryptionError::EncodingFailure),
                Option::Some(text) => Result::Ok(text),
            },
        }
    }
}

/// Round trip: a ciphertext bound to passphrase `p` and plaintext `t`
/// decrypts under `p` back to `t`.
pub proof fn lemma_encrypt_decrypt_round_trip(p: Seq<char>, t: Seq<char>, c: Seq<u8>)
    requires
        cipher_for(p, t, c),
    ensures
        spec_decrypt(p, c) == Result::<Seq<char>, EncryptionError>::Ok(t),
{
    encode_utf8_valid_utf8(t);
    encode_utf8_decode_utf8(t);
}

/// A ciphertext bound to one passphrase fails authentication under any other.
pub proof fn lemma_decrypt_wrong_passphrase(p1: Seq<char>, p2: Seq<char>, t: Seq<char>, c: Seq<u8>)
    requires
        cipher_for(p1, t, c),
        p1 != p2,
    ensures
        spec_decrypt(p2, c) == Result::<Seq<char>, EncryptionError>::Err(
            EncryptionError::AuthenticationFailure,
        ),
{
}

} // verus!
