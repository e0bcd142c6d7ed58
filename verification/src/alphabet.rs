use vstd::prelude::*;
use vstd::arithmetic::div_mod::{
    lemma_add_mod_noop, lemma_mod_bound, lemma_mod_multiples_vanish, lemma_small_mod,
    lemma_sub_mod_noop, lemma_sub_mod_noop_right,
};

verus! {

// ---------------------------------------------------------------------------
// Symbol classes
//
// Every character belongs to at most one of three disjoint classes:
// uppercase letters, lowercase letters, and decimal digits.  A character in
// one of these classes can be shifted within it; every other character is
// left untouched by all operations of this module.
// ---------------------------------------------------------------------------

/// True when `c` is an ASCII uppercase letter.
pub open spec fn is_upper(c: char) -> bool {
    65 <= c as int <= 90
}

/// True when `c` is an ASCII lowercase letter.
pub open spec fn is_lower(c: char) -> bool {
    97 <= c as int <= 122
}

/// True when `c` is an ASCII decimal digit.
pub open spec fn is_digit(c: char) -> bool {
    48 <= c as int <= 57
}

/// True when `c` is an ASCII letter of either case.
pub open spec fn is_letter(c: char) -> bool {
    is_upper(c) || is_lower(c)
}

/// True when `c` belongs to one of the three symbol classes.
pub open spec fn in_alphabet(c: char) -> bool {
    is_upper(c) || is_lower(c) || is_digit(c)
}

/// Code point of the first character of `c`'s class.
pub open spec fn class_base(c: char) -> int {
    if is_upper(c) {
        65
    } else if is_lower(c) {
        97
    } else {
        48
    }
}

/// Number of characters in `c`'s class: 26 for letters, 10 for digits.
pub open spec fn class_size(c: char) -> int {
    if is_digit(c) {
        10
    } else {
        26
    }
}

/// 0-based position of `c` within its class's ordered sequence.
pub open spec fn char_pos(c: char) -> int {
    c as int - class_base(c)
}

// ---------------------------------------------------------------------------
// Signed modulo
// ---------------------------------------------------------------------------

/// Mathematical value of the two-argument signed modulo: the unique
/// representative of `n` modulo `m` whose sign follows `m`.  For `m > 0` the
/// result lies in `[0, m)`; for `m < 0` it lies in `(m, 0]`.
pub open spec fn spec_modulo(n: int, m: int) -> int
    recommends
        m != 0,
{
    if m > 0 {
        n % m
    } else if n % (-m) == 0 {
        0
    } else {
        n % (-m) + m
    }
}

/// Modulo of a number, defined for negative operands as well: the result is
/// congruent to `n` modulo `m` and its sign follows `m`.
pub fn modulo(n: i32, m: i32) -> (r: i32)
    requires
        m != 0,
    ensures
        r as int == spec_modulo(n as int, m as int),
        m > 0 ==> 0 <= r < m,
        m < 0 ==> m < r <= 0,
{
    let n64: i64 = n as i64;
    let m64: i64 = m as i64;
    let am: i64 = if m64 < 0 {
        -m64
    } else {
        m64
    };
    proof {
        assert(2147483648int <= 2147483648i64 as int * am as int <= 0x4000000000000000int)
            by (nonlinear_arith)
            requires
                1 <= am as int <= 2147483648int,
        ;
    }
    let shifted: i64 = n64 + 2147483648i64 * am;
    let r0: i64 = shifted % am;
    proof {
        lemma_mod_multiples_vanish(2147483648int, n as int, am as int);
        lemma_mod_bound(n as int, am as int);
    }
    let r: i64 = if m64 > 0 || r0 == 0 {
        r0
    } else {
        r0 - am
    };
    r as i32
}

// ---------------------------------------------------------------------------
// Position lookup
// ---------------------------------------------------------------------------

/// Position of a character within its symbol class, or `None` when the
/// character belongs to no class.
pub fn get_position(c: char) -> (r: Option<usize>)
    ensures
        in_alphabet(c) ==> r == Some(char_pos(c) as usize),
        !in_alphabet(c) ==> r is None,
{
    let u: u32 = c as u32;
    if u >= 65 && u <= 90 {
        Some((u - 65) as usize)
    } else if u >= 97 && u <= 122 {
        Some((u - 97) as usize)
    } else if u >= 48 && u <= 57 {
        Some((u - 48) as usize)
    } else {
        None
    }
}

// ---------------------------------------------------------------------------
// The shift primitive
// ---------------------------------------------------------------------------

/// Character obtained by shifting `c` by `offset` within its symbol class,
/// wrapping around in either direction; a character outside every class is
/// returned unchanged.
pub open spec fn spec_shift(c: char, offset: int) -> char {
    if in_alphabet(c) {
        (class_base(c) + spec_modulo(char_pos(c) + offset, class_size(c))) as char
    } else {
        c
    }
}

/// Character of `c`'s class standing at index `position` reduced modulo the
/// class size.
pub(crate) fn get_new_char(c: char, position: i32) -> (r: char)
    requires
        in_alphabet(c),
    ensures
        r as int == class_base(c) + spec_modulo(position as int, class_size(c)),
{
    let u: u32 = c as u32;
    if u >= 48 && u <= 57 {
        let m: i32 = modulo(position, 10);
        (48u8 + (m as u8)) as char
    } else if u >= 65 && u <= 90 {
        let m: i32 = modulo(position, 26);
        (65u8 + (m as u8)) as char
    } else {
        let m: i32 = modulo(position, 26);
        (97u8 + (m as u8)) as char
    }
}

/// Shifts a character by a signed offset across its own symbol class;
/// characters outside every class pass through unchanged, and the class of a
/// shifted character never changes.
pub fn shift_char(c: char, offset: i32) -> (r: char)
    ensures
        r == spec_shift(c, offset as int),
        !in_alphabet(c) ==> r == c,
        is_upper(c) ==> is_upper(r),
        is_lower(c) ==> is_lower(r),
        is_digit(c) ==> is_digit(r),
{
    match get_position(c) {
        Some(p) => {
            let u: u32 = c as u32;
            let size: i32 = if u >= 48 && u <= 57 {
                10
            } else {
                26
            };
            let om: i32 = modulo(offset, size);
            let r = get_new_char(c, (p as i32) + om);
            proof {
                lemma_small_mod(char_pos(c) as nat, class_size(c) as nat);
                lemma_add_mod_noop(char_pos(c), offset as int, class_size(c));
                lemma_mod_bound(char_pos(c) + offset as int, class_size(c));
            }
            r
        },
        None => c,
    }
}

/// Shifting by an offset and then by its negation restores every character:
/// the round-trip law of the shift primitive.
pub proof fn lemma_shift_inverse(c: char, offset: int)
    ensures
        spec_shift(spec_shift(c, offset), -offset) == c,
{
    if in_alphabet(c) {
        let base = class_base(c);
        let size = class_size(c);
        let p = char_pos(c);
        lemma_mod_bound(p + offset, size);
        let m = (p + offset) % size;
        let c1 = (base + m) as char;
        assert(c1 as int == base + m);
        assert(class_base(c1) == base);
        assert(class_size(c1) == size);
        assert(char_pos(c1) == m);
        lemma_sub_mod_noop_right(m, offset, size);
        lemma_sub_mod_noop(p + offset, offset, size);
        lemma_small_mod(p as nat, size as nat);
        assert((m - offset) % size == p);
        assert(spec_shift(c1, -offset) as int == c as int);
    }
}

// ---------------------------------------------------------------------------
// Key-driven shifts
// ---------------------------------------------------------------------------

/// Shift magnitude that a key letter encodes: its 1-based position in the
/// letter alphabet, so that 'A' and 'a' both encode a shift of 1.
pub open spec fn key_offset(k: char) -> int
    recommends
        is_letter(k),
{
    char_pos(k) + 1
}

/// Shifts `c` by the offset the key letter `k` encodes, forwards when
/// enciphering and backwards when `decrypt` is set.
pub fn shift_char_with_key(c: char, k: char, decrypt: bool) -> (r: char)
    requires
        is_letter(k),
    ensures
        r == spec_shift(c, if decrypt { -key_offset(k) } else { key_offset(k) }),
{
    let kp: usize = get_position(k).unwrap();
    let off: i32 = if decrypt {
        -((kp as i32) + 1)
    } else {
        (kp as i32) + 1
    };
    shift_char(c, off)
}

// ---------------------------------------------------------------------------
// Key validation and repetition
// ---------------------------------------------------------------------------

/// True when every character of `s` is an ASCII letter.
pub open spec fn spec_clean(s: Seq<char>) -> bool {
    forall|i: int| 0 <= i < s.len() ==> is_letter(s[i])
}

/// Checks that a string contains only ASCII alphabetic characters.
pub fn is_clean(text: &str) -> (r: bool)
    ensures
        r == spec_clean(text@),
{
    let n: usize = text.unicode_len();
    let mut i: usize = 0;
    while i < n
        invariant
            i <= n,
            n == text@.len(),
            forall|t: int| 0 <= t < i ==> is_letter(text@[t]),
        decreases n - i,
    {
        let c: char = text.get_char(i);
        let u: u32 = c as u32;
        if !(u >= 65 && u <= 90 || u >= 97 && u <= 122) {
            return false;
        }
        i = i + 1;
    }
    true
}

/// The first `n` characters of the key cycled indefinitely.
pub open spec fn spec_repeat(key: Seq<char>, n: nat) -> Seq<char>
    recommends
        key.len() > 0,
{
    Seq::new(n, |i: int| key[i % key.len() as int])
}

/// Relies on `String::push` of std: appends the given character to the end
/// of the string.
pub assume_specification[ String::push ](s: &mut String, c: char)
    ensures
        final(s)@ == old(s)@.push(c),
;

/// Generates a repeated key to match the character count of the input text,
/// cycling through the key and truncating to exactly that count.
pub fn repeat_key(text: &str, key: &str) -> (r: String)
    requires
        key@.len() > 0,
    ensures
        r@ == spec_repeat(key@, text@.len()),
{
    let n: usize = text.unicode_len();
    let klen: usize = key.unicode_len();
    let mut result: String = String::new();
    let mut i: usize = 0;
    while i < n
        invariant
            i <= n,
            n == text@.len(),
            klen == key@.len(),
            klen > 0,
            result@.len() == i as int,
            forall|t: int| 0 <= t < i ==> result@[t] == key@[t % klen as int],
        decreases n - i,
    {
        proof {
            lemma_mod_bound(i as int, klen as int);
        }
        let j: usize = i % klen;
        let c: char = key.get_char(j);
        result.push(c);
        i = i + 1;
    }
    proof {
        assert(result@ =~= spec_repeat(key@, text@.len()));
    }
    result
}

} // verus!
