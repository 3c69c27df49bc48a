use jou::app::encryption::Encryption;
use jou::app::encryption::EncryptionError;

#[test]
fn round_trip_returns_original_plaintext() {
    let codec = Encryption::new(String::from("correct horse battery staple"));
    let ciphertext = codec.encrypt("a quiet day, nothing to report").unwrap();
    let plaintext = codec.decrypt(ciphertext).unwrap();
    assert_eq!(plaintext, "a quiet day, nothing to report");
}

#[test]
fn round_trip_keeps_empty_and_unicode_text() {
    let codec = Encryption::new(String::from("pw"));
    let ciphertext = codec.encrypt("").unwrap();
    assert_eq!(codec.decrypt(ciphertext).unwrap(), "");
}

#[test]
fn wrong_passphrase_fails_authentication() {
    let codec = Encryption::new(String::from("first passphrase"));
    let other = Encryption::new(String::from("second passphrase"));
    let ciphertext = codec.encrypt("secret entry").unwrap();
    let outcome = other.decrypt(ciphertext);
    assert_eq!(outcome.unwrap_err(), EncryptionError::AuthenticationFailure);
}

#[test]
fn garbage_bytes_fail_authentication() {
    let codec = Encryption::new(String::from("pw"));
    let garbage = vec![0u8, 1, 2, 3, 254, 255, 17, 42];
    let outcome = codec.decrypt(garbage);
    assert_eq!(outcome.unwrap_err(), EncryptionError::AuthenticationFailure);
}

#[test]
fn two_codecs_with_same_passphrase_interoperate() {
    let one = Encryption::new(String::from("shared"));
    let two = Encryption::new(String::from("shared"));
    let ciphertext = one.encrypt("written by one").unwrap();
    assert_eq!(two.decrypt(ciphertext).unwrap(), "written by one");
}
