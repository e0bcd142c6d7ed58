use vstd::prelude::*;

verus! {

/// Why a key was rejected at construction time.
#[derive(Clone, Copy, Debug, PartialEq, Eq, Structural)]
pub enum CipherError {
    /// A numeric key lies outside the interval `[1, 25]`.
    InvalidKeyRange,
    /// A string key is empty or contains a character that is not an ASCII
    /// letter.
    InvalidKeyAlphabet,
}

/// The contract every concrete cipher satisfies: a validating constructor,
/// and length-preserving `encrypt`/`decrypt` that are inverses of one
/// another for every validly constructed instance.
pub trait Cipher: Sized {
    /// The cipher-specific key type.
    type KeyType;

    /// True when `key` would be accepted by the constructor.
    spec fn key_ok(key: Self::KeyType) -> bool;

    /// True of every instance the constructor hands out; `encrypt` and
    /// `decrypt` assume it.
    spec fn wf(&self) -> bool;

    /// The ciphertext this instance produces for the given text.
    spec fn spec_encrypt(&self, text: Seq<char>) -> Seq<char>;

    /// The plaintext this instance recovers from the given text.
    spec fn spec_decrypt(&self, text: Seq<char>) -> Seq<char>;

    /// Validates the key and constructs an immutable cipher instance, or
    /// reports why the key was rejected.
    fn new(key: Self::KeyType) -> (r: Result<Self, CipherError>)
        ensures
            r is Ok <==> Self::key_ok(key),
            r matches Ok(c) ==> c.wf(),
    ;

    /// Enciphers `text`, preserving its character count.
    fn encrypt(&self, text: &str) -> (r: String)
        requires
            self.wf(),
        ensures
            r@ == self.spec_encrypt(text@),
            r@.len() == text@.len(),
    ;

    /// Deciphers `text`, preserving its character count.
    fn decrypt(&self, text: &str) -> (r: String)
        requires
            self.wf(),
        ensures
            r@ == self.spec_decrypt(text@),
            r@.len() == text@.len(),
    ;

    /// The round-trip law: deciphering the encipherment of any text with the
    /// same instance returns the text unchanged.
    proof fn lemma_round_trip(&self, text: Seq<char>)
        requires
            self.wf(),
        ensures
            self.spec_decrypt(self.spec_encrypt(text)) == text,
    ;
}

} // verus!
