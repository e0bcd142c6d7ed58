use vstd::prelude::*;
use vstd::arithmetic::div_mod::lemma_mod_bound;
use crate::alphabet::{
    is_clean, key_offset, lemma_shift_inverse, repeat_key, shift_char_with_key, spec_clean,
    spec_repeat, spec_shift,
};
use crate::cipher::{Cipher, CipherError};

verus! {

/// The Vigenère cipher: the key, a non-empty string of ASCII letters, is
/// cycled along the text, and each classifiable character is shifted by the
/// 1-based alphabet position of the key letter standing at its index.
pub struct Vigenere {
    key: String,
}

impl Vigenere {
    /// The characters of the key this instance was constructed with.
    pub closed spec fn spec_key(&self) -> Seq<char> {
        self.key@
    }
}

impl Cipher for Vigenere {
    type KeyType = String;

    open spec fn key_ok(key: String) -> bool {
        key@.len() > 0 && spec_clean(key@)
    }

    open spec fn wf(&self) -> bool {
        self.spec_key().len() > 0 && spec_clean(self.spec_key())
    }

    open spec fn spec_encrypt(&self, text: Seq<char>) -> Seq<char> {
        Seq::new(
            text.len(),
            |i: int| spec_shift(
                text[i],
                key_offset(self.spec_key()[i % self.spec_key().len() as int]),
            ),
        )
    }

    open spec fn spec_decrypt(&self, text: Seq<char>) -> Seq<char> {
        Seq::new(
            text.len(),
            |i: int| spec_shift(
                text[i],
                -key_offset(self.spec_key()[i % self.spec_key().len() as int]),
            ),
        )
    }

    fn new(key: String) -> (r: Result<Self, CipherError>)
        ensures
            r matches Ok(c) ==> c.spec_key() == key@,
            !Self::key_ok(key) ==> r == Err::<Self, CipherError>(CipherError::InvalidKeyAlphabet),
    {
        if key.as_str().unicode_len() == 0 || !is_clean(key.as_str()) {
            Err(CipherError::InvalidKeyAlphabet)
        } else {
            Ok(Vigenere { key })
        }
    }

    fn encrypt(&self, text: &str) -> (r: String) {
        let repeated: String = repeat_key(text, self.key.as_str());
        let n: usize = text.unicode_len();
        let mut result: String = String::new();
        let mut i: usize = 0;
        while i < n
            invariant
                i <= n,
                n == text@.len(),
                self.wf(),
                repeated@ == spec_repeat(self.spec_key(), text@.len()),
                result@.len() == i as int,
                forall|t: int| 0 <= t < i ==> result@[t] == spec_shift(
                    text@[t],
                    key_offset(self.spec_key()[t % self.spec_key().len() as int]),
                ),
            decreases n - i,
        {
            proof {
                lemma_mod_bound(i as int, self.spec_key().len() as int);
            }
            let c: char = text.get_char(i);
            let k: char = repeated.as_str().get_char(i);
            result.push(shift_char_with_key(c, k, false));
            i = i + 1;
        }
        proof {
            assert(result@ =~= self.spec_encrypt(text@));
        }
        result
    }

    fn decrypt(&self, text: &str) -> (r: String) {
        let repeated: String = repeat_key(text, self.key.as_str());
        let n: usize = text.unicode_len();
        let mut result: String = String::new();
        let mut i: usize = 0;
        while i < n
            invariant
                i <= n,
                n == text@.len(),
                self.wf(),
                repeated@ == spec_repeat(self.spec_key(), text@.len()),
                result@.len() == i as int,
                forall|t: int| 0 <= t < i ==> result@[t] == spec_shift(
                    text@[t],
                    -key_offset(self.spec_key()[t % self.spec_key().len() as int]),
                ),
            decreases n - i,
        {
            proof {
                lemma_mod_bound(i as int, self.spec_key().len() as int);
            }
            let c: char = text.get_char(i);
            let k: char = repeated.as_str().get_char(i);
            result.push(shift_char_with_key(c, k, true));
            i = i + 1;
        }
        proof {
            assert(result@ =~= self.spec_decrypt(text@));
        }
        result
    }

    proof fn lemma_round_trip(&self, text: Seq<char>) {
        let enc = self.spec_encrypt(text);
        let dec = self.spec_decrypt(enc);
        assert forall|i: int| 0 <= i < text.len() implies dec[i] == text[i] by {
            lemma_mod_bound(i, self.spec_key().len() as int);
            lemma_shift_inverse(
                text[i],
                key_offset(self.spec_key()[i % self.spec_key().len() as int]),
            );
        }
        assert(dec =~= text);
    }
}

} // verus!
