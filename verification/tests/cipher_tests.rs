use ciphers::caesar::Caesar;
use ciphers::cipher::{Cipher, CipherError};
use ciphers::vigenere::Vigenere;

#[test]
fn test_caesar_cipher_encrypt() {
    let cipher = Caesar::new(2).unwrap();
    let encripted = cipher.encrypt("The brown fox jumped over the lazy dog");
    assert_eq!(
        encripted,
        "Vjg dtqyp hqz lworgf qxgt vjg ncba fqi".to_string()
    );
}

#[test]
fn test_caesar_cipher_decrypt() {
    let cipher = Caesar::new(2).unwrap();
    let decripted = cipher.decrypt("Fcpk Ecnkhqtpkc");
    assert_eq!(decripted, "Dani California".to_string());
}

#[test]
fn test_vigenere_cipher_encrypt() {
    assert_eq!(
        "WZNSUUOHYJZJARMWJURQL".to_string(),
        Vigenere::new("cripticsspren".to_string())
            .unwrap()
            .encrypt("THECALLOFTHEMOUNTAINS")
    );
}

#[test]
fn test_vigenere_cipher_decrypt() {
    let cipher = Vigenere::new("cripticsspren".to_string()).unwrap();
    assert_eq!(cipher.decrypt("WZNSUUOHYJZJARMWJURQL"), "THECALLOFTHEMOUNTAINS");
}

#[test]
fn test_caesar_round_trip() {
    let cipher = Caesar::new(7).unwrap();
    let text = "Pack my box with 5 dozen liquor jugs!";
    let encrypted = cipher.encrypt(text);
    assert_eq!(cipher.decrypt(&encrypted), text);
}

#[test]
fn test_vigenere_round_trip() {
    let cipher = Vigenere::new("LeMoN".to_string()).unwrap();
    let text = "Attack at dawn, 08:00 sharp.";
    let encrypted = cipher.encrypt(text);
    assert_eq!(cipher.decrypt(&encrypted), text);
}

#[test]
fn test_length_preservation() {
    let caesar = Caesar::new(13).unwrap();
    let vigenere = Vigenere::new("key".to_string()).unwrap();
    for text in ["", "a", "Hello, world! 42", "no pain no gain"] {
        assert_eq!(caesar.encrypt(text).chars().count(), text.chars().count());
        assert_eq!(caesar.decrypt(text).chars().count(), text.chars().count());
        assert_eq!(vigenere.encrypt(text).chars().count(), text.chars().count());
        assert_eq!(vigenere.decrypt(text).chars().count(), text.chars().count());
    }
}

#[test]
fn test_caesar_invalid_key() {
    assert_eq!(Caesar::new(0).err().unwrap(), CipherError::InvalidKeyRange);
    assert_eq!(Caesar::new(26).err().unwrap(), CipherError::InvalidKeyRange);
    assert_eq!(Caesar::new(200).err().unwrap(), CipherError::InvalidKeyRange);
    assert!(Caesar::new(1).is_ok());
    assert!(Caesar::new(25).is_ok());
}

#[test]
fn test_vigenere_invalid_key() {
    assert_eq!(
        Vigenere::new("".to_string()).err().unwrap(),
        CipherError::InvalidKeyAlphabet
    );
    assert_eq!(
        Vigenere::new("abc123".to_string()).err().unwrap(),
        CipherError::InvalidKeyAlphabet
    );
    assert_eq!(
        Vigenere::new("two words".to_string()).err().unwrap(),
        CipherError::InvalidKeyAlphabet
    );
    assert!(Vigenere::new("AGoodKey".to_string()).is_ok());
}

#[test]
fn test_vigenere_key_case_insensitive() {
    let lower = Vigenere::new("lemon".to_string()).unwrap();
    let upper = Vigenere::new("LEMON".to_string()).unwrap();
    assert_eq!(lower.encrypt("attack at dawn"), upper.encrypt("attack at dawn"));
}

#[test]
fn test_vigenere_digits_shift_too() {
    let cipher = Vigenere::new("ab".to_string()).unwrap();
    // 'a' encodes a shift of 1, 'b' a shift of 2.
    assert_eq!(cipher.encrypt("123"), "244");
    assert_eq!(cipher.decrypt("244"), "123");
}

#[test]
fn test_empty_text() {
    let caesar = Caesar::new(3).unwrap();
    let vigenere = Vigenere::new("abc".to_string()).unwrap();
    assert_eq!(caesar.encrypt(""), "");
    assert_eq!(caesar.decrypt(""), "");
    assert_eq!(vigenere.encrypt(""), "");
    assert_eq!(vigenere.decrypt(""), "");
}
