//! The alphabetic shift cipher and its three attack strategies:
//! known-plaintext key recovery, brute-force enumeration of all 26 shifts,
//! and dictionary-scored enumeration.
//!
//! Text is handled as its UTF-8 bytes: only ASCII letters are shifted, and
//! every other byte passes through unchanged, so the output of `caesar_cipher`
//! on a valid UTF-8 buffer is again valid UTF-8.

use vstd::prelude::*;
use vstd::arithmetic::div_mod::{
    lemma_fundamental_div_mod, lemma_mod_bound, lemma_mod_multiples_vanish, lemma_small_mod,
};

verus! {

/// An ASCII lower-case letter.
pub open spec fn is_lower(b: u8) -> bool {
    97 <= b && b <= 122
}

/// An ASCII upper-case letter.
pub open spec fn is_upper(b: u8) -> bool {
    65 <= b && b <= 90
}

/// An ASCII letter of either case.
pub open spec fn is_alpha(b: u8) -> bool {
    is_lower(b) || is_upper(b)
}

/// A shift value brought into the range [0, 25].
pub open spec fn normalize_shift(shift: int) -> int {
    ((shift % 26) + 26) % 26
}

/// One byte under the shift cipher: a letter moves `s` positions forward in
/// its own case's 26-letter alphabet, wrapping; anything else is unchanged.
pub open spec fn shift_byte(b: u8, s: int) -> u8
    recommends
        0 <= s < 26,
{
    if is_lower(b) {
        (97 + ((b - 97 + s) % 26)) as u8
    } else if is_upper(b) {
        (65 + ((b - 65 + s) % 26)) as u8
    } else {
        b
    }
}

/// A whole text under the shift cipher, byte by byte.
pub open spec fn caesar_spec(text: Seq<u8>, s: int) -> Seq<u8>
    recommends
        0 <= s < 26,
{
    text.map_values(|b: u8| shift_byte(b, s))
}

/// Encode `text` under the shift cipher. The shift is first normalized into
/// [0, 25], so negative and out-of-range shifts are accepted; non-alphabetic
/// bytes are unchanged and the length of the text is preserved.
pub fn caesar_cipher(text: &[u8], shift: i32) -> (out: Vec<u8>)
    ensures
        out@ == caesar_spec(text@, normalize_shift(shift as int)),
        out@.len() == text@.len(),
        forall|i: int| 0 <= i < text@.len() && !is_alpha(text@[i]) ==> out@[i] == text@[i],
{
    let s: u8 = match shift.checked_rem_euclid(26) {
        Some(r) => r as u8,
        None => 0,  // unreachable: the divisor is a positive constant
    };
    assert(s as int == normalize_shift(shift as int));
    let ghost sh: int = s as int;
    let mut out: Vec<u8> = Vec::new();
    let mut k: usize = 0;
    while k < text.len()
        invariant
            0 <= sh < 26,
            sh == s as int,
            k <= text@.len(),
            out@.len() == k,
            forall|i: int| 0 <= i < k ==> out@[i] == shift_byte(text@[i], sh),
        decreases text@.len() - k,
    {
        let b = text[k];
        let shifted: u8 = if 97 <= b && b <= 122 {
            97 + (b - 97 + s) % 26
        } else if 65 <= b && b <= 90 {
            65 + (b - 65 + s) % 26
        } else {
            b
        };
        assert(shifted == shift_byte(b, sh));
        out.push(shifted);
        k = k + 1;
    }
    assert(out@ =~= caesar_spec(text@, sh));
    out
}

/// Decode `text` that was encoded under `shift`: the same cipher run with the
/// negated shift.
pub fn caesar_decipher(text: &[u8], shift: i32) -> (out: Vec<u8>)
    ensures
        out@ == caesar_spec(text@, normalize_shift(-(shift as int))),
        out@.len() == text@.len(),
{
    let s: i32 = match shift.checked_rem_euclid(26) {
        Some(r) => r,
        None => 0,  // unreachable: the divisor is a positive constant
    };
    let t: i32 = if s == 0 {
        0
    } else {
        26 - s
    };
    proof {
        lemma_normalize_neg(shift as int);
        assert(t as int == normalize_shift(-(shift as int)));
    }
    let out = caesar_cipher(text, t);
    proof {
        lemma_small_mod(t as nat, 26);
        assert(normalize_shift(t as int) == t as int);
    }
    out
}

/// Negating a shift normalizes to the 26-complement of its normal form.
proof fn lemma_normalize_neg(x: int)
    ensures
        normalize_shift(-x) == if x % 26 == 0 {
            0int
        } else {
            26 - (x % 26)
        },
{
    let s = x % 26;
    lemma_mod_bound(x, 26);
    lemma_fundamental_div_mod(x, 26);
    // -x differs from -s by a multiple of 26
    lemma_mod_multiples_vanish(-(x / 26), -s, 26);
    assert((-x) % 26 == (-s) % 26);
    if s == 0 {
        lemma_small_mod(0, 26);
        assert((-x) % 26 == 0);
        lemma_mod_multiples_vanish(1, 0, 26);
    } else {
        lemma_mod_multiples_vanish(-1, 26 - s, 26);
        lemma_small_mod((26 - s) as nat, 26);
        assert((-x) % 26 == 26 - s);
        lemma_mod_multiples_vanish(1, 26 - s, 26);
    }
}

/// The core modular identity behind the round trip: shifting by `s` and then
/// by the normalized negation of `s` is the identity on [0, 26).
proof fn lemma_mod26_round(x: int, s: int)
    requires
        0 <= x < 26,
        0 <= s < 26,
    ensures
        ((x + s) % 26 + normalize_shift(-s)) % 26 == x,
{
    lemma_small_mod(s as nat, 26);
    lemma_normalize_neg(s);
    let t = normalize_shift(-s);
    let e1 = (x + s) % 26;
    if x + s < 26 {
        lemma_small_mod((x + s) as nat, 26);
    } else {
        lemma_mod_multiples_vanish(1, x + s - 26, 26);
        lemma_small_mod((x + s - 26) as nat, 26);
    }
    if e1 + t < 26 {
        lemma_small_mod((e1 + t) as nat, 26);
    } else {
        lemma_mod_multiples_vanish(1, e1 + t - 26, 26);
        lemma_small_mod((e1 + t - 26) as nat, 26);
    }
}

/// Round trip for one byte: decoding with the shift used to encode gives
/// back the byte.
pub proof fn lemma_shift_byte_round_trip(b: u8, s: int)
    requires
        0 <= s < 26,
    ensures
        shift_byte(shift_byte(b, s), normalize_shift(-s)) == b,
{
    lemma_normalize_neg(s);
    lemma_small_mod(s as nat, 26);
    if is_lower(b) {
        lemma_mod_bound(b - 97 + s, 26);
        lemma_mod26_round(b - 97, s);
    } else if is_upper(b) {
        lemma_mod_bound(b - 65 + s, 26);
        lemma_mod26_round(b - 65, s);
    }
}

/// Round trip over a whole text: for any shift `s` in [0, 25], decoding an
/// encoded text with the same shift restores it exactly.
pub proof fn lemma_caesar_round_trip(text: Seq<u8>, s: int)
    requires
        0 <= s < 26,
    ensures
        caesar_spec(caesar_spec(text, s), normalize_shift(-s)) == text,
{
    let enc = caesar_spec(text, s);
    assert forall|i: int| 0 <= i < text.len() implies caesar_spec(enc, normalize_shift(-s))[i]
        == text[i] by {
        lemma_shift_byte_round_trip(text[i], s);
    }
    assert(caesar_spec(enc, normalize_shift(-s)) =~= text);
}

/// The shift that maps the first byte of `open` to the first byte of
/// `encrypted`, as ASCII-code arithmetic modulo 26; `None` when either
/// buffer is empty.
pub fn key_from_open_and_encrypted(open: &[u8], encrypted: &[u8]) -> (r: Option<u8>)
    ensures
        r is None <==> open@.len() == 0 || encrypted@.len() == 0,
        r is Some ==> r->0 == ((encrypted@[0] as int - open@[0] as int) % 26) as u8,
{
    if open.len() == 0 || encrypted.len() == 0 {
        return None;
    }
    let d: i32 = encrypted[0] as i32 - open[0] as i32;
    match d.checked_rem_euclid(26) {
        Some(r) => Some(r as u8),
        None => None,  // unreachable: the divisor is a positive constant
    }
}

/// Known-plaintext recovery is exact on letters: a byte of either case,
/// shifted by `s`, names `s` back when the cipher byte is compared with the
/// plain byte modulo 26.
pub proof fn lemma_known_plaintext_recovers(p: u8, s: int)
    requires
        is_alpha(p),
        0 <= s < 26,
    ensures
        (shift_byte(p, s) as int - p as int) % 26 == s,
{
    let x: int = if is_lower(p) {
        p - 97
    } else {
        p - 65
    };
    lemma_small_mod(s as nat, 26);
    if x + s < 26 {
        lemma_small_mod((x + s) as nat, 26);
    } else {
        lemma_mod_multiples_vanish(1, x + s - 26, 26);
        lemma_small_mod((x + s - 26) as nat, 26);
    }
    lemma_mod_multiples_vanish(-1, s, 26);
}

/// All 26 candidate decodings of a ciphertext, in ascending shift order:
/// entry `i` pairs shift `i` with the text decoded under it.
pub open spec fn brute_force_spec(cipher: Seq<u8>) -> Seq<(u8, Seq<u8>)> {
    Seq::new(26, |i: int| (i as u8, caesar_spec(cipher, normalize_shift(-i))))
}

/// Produce all 26 candidate decodings of `cipher`, one per shift in [0, 25],
/// in ascending shift order.
pub fn brute_force(cipher: &[u8]) -> (r: Vec<(u8, Vec<u8>)>)
    ensures
        r@.len() == 26,
        forall|i: int| 0 <= i < 26 ==> ((#[trigger] r@[i]).0, r@[i].1@) == brute_force_spec(
            cipher@,
        )[i],
{
    let mut r: Vec<(u8, Vec<u8>)> = Vec::new();
    let mut shift: u8 = 0;
    while shift < 26
        invariant
            shift <= 26,
            r@.len() == shift,
            forall|i: int| 0 <= i < shift ==> ((#[trigger] r@[i]).0, r@[i].1@) == brute_force_spec(
                cipher@,
            )[i],
        decreases 26 - shift,
    {
        let decoded = caesar_decipher(cipher, shift as i32);
        r.push((shift, decoded));
        shift = shift + 1;
    }
    r
}

/// An ASCII whitespace byte: the token separators of the dictionary attack.
pub open spec fn is_space(b: u8) -> bool {
    b == 32 || b == 9 || b == 10 || b == 11 || b == 12 || b == 13
}

/// The entries of a dictionary, as byte sequences.
pub open spec fn dict_view(dict: Seq<Vec<u8>>) -> Seq<Seq<u8>> {
    dict.map_values(|w: Vec<u8>| w@)
}

/// Dictionary matches in the rest of a scan, left to right: `cur` holds the
/// letters of the token read so far and `in_word` says whether a token is
/// open. A token counts when its letters, with every non-letter dropped,
/// exactly match a dictionary entry.
pub open spec fn count_from(s: Seq<u8>, cur: Seq<u8>, in_word: bool, dict: Seq<Seq<u8>>) -> nat
    decreases s.len(),
{
    if s.len() == 0 {
        if in_word && dict.contains(cur) {
            1nat
        } else {
            0nat
        }
    } else if is_space(s[0]) {
        (if in_word && dict.contains(cur) {
            1nat
        } else {
            0nat
        }) + count_from(s.skip(1), Seq::empty(), false, dict)
    } else if is_alpha(s[0]) {
        count_from(s.skip(1), cur.push(s[0]), true, dict)
    } else {
        count_from(s.skip(1), cur, true, dict)
    }
}

/// The number of whitespace-separated tokens of `s` whose letters form a
/// dictionary entry.
pub open spec fn real_word_count(s: Seq<u8>, dict: Seq<Seq<u8>>) -> nat {
    count_from(s, Seq::empty(), false, dict)
}

/// Whether `w` is an entry of `dict`.
fn dict_contains(dict: &Vec<Vec<u8>>, w: &Vec<u8>) -> (r: bool)
    ensures
        r == dict_view(dict@).contains(w@),
{
    let mut i: usize = 0;
    while i < dict.len()
        invariant
            i <= dict@.len(),
            forall|j: int| 0 <= j < i ==> dict_view(dict@)[j] != w@,
        decreases dict@.len() - i,
    {
        if bytes_equal(&dict[i], w) {
            assert(dict_view(dict@)[i as int] == w@);
            return true;
        }
        i = i + 1;
    }
    assert(!dict_view(dict@).contains(w@));
    false
}

/// Whether two byte buffers hold the same bytes.
fn bytes_equal(a: &Vec<u8>, b: &Vec<u8>) -> (r: bool)
    ensures
        r == (a@ == b@),
{
    if a.len() != b.len() {
        assert(a@ != b@);
        return false;
    }
    let mut i: usize = 0;
    while i < a.len()
        invariant
            i <= a@.len(),
            a@.len() == b@.len(),
            forall|j: int| 0 <= j < i ==> a@[j] == b@[j],
        decreases a@.len() - i,
    {
        if a[i] != b[i] {
            return false;
        }
        i = i + 1;
    }
    assert(a@ =~= b@);
    true
}

/// Split `input` on ASCII whitespace, strip non-letter bytes from each
/// token, and count the tokens that exactly match a dictionary entry
/// (case-sensitive).
pub fn count_real_words(input: &[u8], dict: &Vec<Vec<u8>>) -> (n: usize)
    ensures
        n == real_word_count(input@, dict_view(dict@)),
{
    let ghost d = dict_view(dict@);
    let mut count: usize = 0;
    let mut cur: Vec<u8> = Vec::new();
    let mut in_word: bool = false;
    let mut k: usize = 0;
    assert(input@.skip(0) =~= input@);
    assert(cur@ =~= Seq::<u8>::empty());
    while k < input.len()
        invariant
            k <= input@.len(),
            count + (if in_word {
                1int
            } else {
                0int
            }) <= k,
            real_word_count(input@, d) == count + count_from(
                input@.skip(k as int),
                cur@,
                in_word,
                d,
            ),
            d == dict_view(dict@),
        decreases input@.len() - k,
    {
        let ghost rest = input@.skip(k as int);
        assert(rest[0] == input@[k as int]);
        let b = input[k];
        if b == 32 || b == 9 || b == 10 || b == 11 || b == 12 || b == 13 {
            if in_word && dict_contains(dict, &cur) {
                count = count + 1;
            }
            cur = Vec::new();
            in_word = false;
        } else if (97 <= b && b <= 122) || (65 <= b && b <= 90) {
            cur.push(b);
            in_word = true;
        } else {
            in_word = true;
        }
        k = k + 1;
        assert(rest.skip(1) =~= input@.skip(k as int));
    }
    assert(input@.skip(k as int) =~= Seq::<u8>::empty());
    if in_word && dict_contains(dict, &cur) {
        count = count + 1;
    }
    count
}

/// Score all 26 candidate decodings of `cipher` against a dictionary: entry
/// `i` holds shift `i`, the number of dictionary words in the text decoded
/// under it, and that text. The caller ranks by the count; the engine does
/// not.
pub fn dictionary_attack(cipher: &[u8], dict: &Vec<Vec<u8>>) -> (r: Vec<(u8, usize, Vec<u8>)>)
    ensures
        r@.len() == 26,
        forall|i: int| 0 <= i < 26 ==> (#[trigger] r@[i]).0 == i as u8,
        forall|i: int| 0 <= i < 26 ==> (#[trigger] r@[i]).2@ == caesar_spec(
            cipher@,
            normalize_shift(-i),
        ),
        forall|i: int| 0 <= i < 26 ==> (#[trigger] r@[i]).1 == real_word_count(
            caesar_spec(cipher@, normalize_shift(-i)),
            dict_view(dict@),
        ),
{
    let mut r: Vec<(u8, usize, Vec<u8>)> = Vec::new();
    let mut shift: u8 = 0;
    while shift < 26
        invariant
            shift <= 26,
            r@.len() == shift,
            forall|i: int| 0 <= i < shift ==> (#[trigger] r@[i]).0 == i as u8,
            forall|i: int| 0 <= i < shift ==> (#[trigger] r@[i]).2@ == caesar_spec(
                cipher@,
                normalize_shift(-i),
            ),
            forall|i: int| 0 <= i < shift ==> (#[trigger] r@[i]).1 == real_word_count(
                caesar_spec(cipher@, normalize_shift(-i)),
                dict_view(dict@),
            ),
        decreases 26 - shift,
    {
        let decoded = caesar_decipher(cipher, shift as i32);
        let matches = count_real_words(decoded.as_slice(), dict);
        r.push((shift, matches, decoded));
        shift = shift + 1;
    }
    r
}

/// Brute force recovers the plaintext: when `cipher` was encoded from `text`
/// under a shift `s` in [0, 25], entry `s` of the 26 candidates is exactly
/// `(s, text)`, so the pair is among the results.
pub proof fn lemma_brute_force_recovers(text: Seq<u8>, s: int)
    requires
        0 <= s < 26,
    ensures
        brute_force_spec(caesar_spec(text, s))[s] == (s as u8, text),
        brute_force_spec(caesar_spec(text, s)).contains((s as u8, text)),
{
    lemma_caesar_round_trip(text, s);
    assert(brute_force_spec(caesar_spec(text, s))[s] == (s as u8, text));
}


} // verus!

