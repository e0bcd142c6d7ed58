use vstd::prelude::*;
use crate::alphabet::{lemma_shift_inverse, shift_char, spec_shift};
use crate::cipher::{Cipher, CipherError};

verus! {

/// The Caesar cipher: every classifiable character of the text is shifted by
/// one fixed key, held in the interval `[1, 25]` so that every accepted key
/// denotes a distinct, non-trivial rotation.
pub struct Caesar {
    key: u8,
}

impl Caesar {
    /// The key this instance was constructed with.
    pub closed spec fn spec_key(&self) -> u8 {
        self.key
    }
}

impl Cipher for Caesar {
    type KeyType = u8;

    open spec fn key_ok(key: u8) -> bool {
        1 <= key < 26
    }

    open spec fn wf(&self) -> bool {
        1 <= self.spec_key() < 26
    }

    open spec fn spec_encrypt(&self, text: Seq<char>) -> Seq<char> {
        Seq::new(text.len(), |i: int| spec_shift(text[i], self.spec_key() as int))
    }

    open spec fn spec_decrypt(&self, text: Seq<char>) -> Seq<char> {
        Seq::new(text.len(), |i: int| spec_shift(text[i], -(self.spec_key() as int)))
    }

    fn new(key: u8) -> (r: Result<Self, CipherError>)
        ensures
            r matches Ok(c) ==> c.spec_key() == key,
            !Self::key_ok(key) ==> r == Err::<Self, CipherError>(CipherError::InvalidKeyRange),
    {
        if key == 0 || key >= 26 {
            Err(CipherError::InvalidKeyRange)
        } else {
            Ok(Caesar { key })
        }
    }

    fn encrypt(&self, text: &str) -> (r: String) {
        let n: usize = text.unicode_len();
        let mut result: String = String::new();
        let mut i: usize = 0;
        while i < n
            invariant
                i <= n,
                n == text@.len(),
                self.wf(),
                result@.len() == i as int,
                forall|t: int| 0 <= t < i ==> result@[t] == spec_shift(
                    text@[t],
                    self.spec_key() as int,
                ),
            decreases n - i,
        {
            let c: char = text.get_char(i);
            result.push(shift_char(c, self.key as i32));
            i = i + 1;
        }
        proof {
            assert(result@ =~= self.spec_encrypt(text@));
        }
        result
    }

    fn decrypt(&self, text: &str) -> (r: String) {
        let n: usize = text.unicode_len();
        let mut result: String = String::new();
        let mut i: usize = 0;
        while i < n
            invariant
                i <= n,
                n == text@.len(),
                self.wf(),
                result@.len() == i as int,
                forall|t: int| 0 <= t < i ==> result@[t] == spec_shift(
                    text@[t],
                    -(self.spec_key() as int),
                ),
            decreases n - i,
        {
            let c: char = text.get_char(i);
            result.push(shift_char(c, -(self.key as i32)));
            i = i + 1;
        }
        proof {
            assert(result@ =~= self.spec_decrypt(text@));
        }
        result
    }

    proof fn lemma_round_trip(&self, text: Seq<char>) {
        let enc = self.spec_encrypt(text);
        let dec = self.spec_decrypt(enc);
        assert forall|i: int| 0 <= i < text.len() implies dec[i] == text[i] by {
            lemma_shift_inverse(text[i], self.spec_key() as int);
        }
        assert(dec =~= text);
    }
}

} // verus!
