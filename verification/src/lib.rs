//! Classical substitution ciphers over a mixed alphabet of ASCII uppercase
//! letters, lowercase letters, and digits.
//!
//! The alphabet engine ([`alphabet`]) shifts a character by any signed offset
//! within its own symbol class, with wraparound in both directions, and passes
//! every other character through unchanged.  The [`cipher::Cipher`] trait is
//! the uniform contract — a validating constructor and length-preserving,
//! mutually inverse `encrypt`/`decrypt` — implemented by the Caesar cipher
//! ([`caesar::Caesar`], one fixed shift) and the Vigenère cipher
//! ([`vigenere::Vigenere`], a per-position shift drawn from a cycled letter
//! key).

pub mod alphabet;
pub mod caesar;
pub mod cipher;
pub mod vigenere;
