//! Lowercase hexadecimal rendering and parsing of accumulator states.

use vstd::prelude::*;

verus! {

use vstd::string::StrSliceExecFns;
use vstd::string::StringExecFns;

/// The lowercase hex character for a nibble value below 16.
pub open spec fn hex_digit(d: u32) -> char {
    if d == 0 {
        '0'
    } else if d == 1 {
        '1'
    } else if d == 2 {
        '2'
    } else if d == 3 {
        '3'
    } else if d == 4 {
        '4'
    } else if d == 5 {
        '5'
    } else if d == 6 {
        '6'
    } else if d == 7 {
        '7'
    } else if d == 8 {
        '8'
    } else if d == 9 {
        '9'
    } else if d == 10 {
        'a'
    } else if d == 11 {
        'b'
    } else if d == 12 {
        'c'
    } else if d == 13 {
        'd'
    } else if d == 14 {
        'e'
    } else {
        'f'
    }
}

/// The numeric value of a lowercase hex character, or 16 for any other one.
pub open spec fn hex_val(c: char) -> u32 {
    if c == '0' {
        0
    } else if c == '1' {
        1
    } else if c == '2' {
        2
    } else if c == '3' {
        3
    } else if c == '4' {
        4
    } else if c == '5' {
        5
    } else if c == '6' {
        6
    } else if c == '7' {
        7
    } else if c == '8' {
        8
    } else if c == '9' {
        9
    } else if c == 'a' {
        10
    } else if c == 'b' {
        11
    } else if c == 'c' {
        12
    } else if c == 'd' {
        13
    } else if c == 'e' {
        14
    } else if c == 'f' {
        15
    } else {
        16
    }
}

/// Whether a character is one of the 16 lowercase hex digits.
pub open spec fn is_lower_hex(c: char) -> bool {
    hex_val(c) < 16
}

/// Nibble j of a word, counting from the most significant (j == 0).
pub open spec fn nibble(w: u32, j: int) -> u32 {
    (w >> (((7 - j) * 4) as u32)) & 0xf
}

/// The 64-character rendering of an 8-word state: each word becomes 8 hex
/// digits, most significant nibble first, words in index order.
pub open spec fn render_state(state: Seq<u32>) -> Seq<char> {
    Seq::new(64, |i: int| hex_digit(nibble(state[i / 8], i % 8)))
}

/// The word encoded by 8 hex characters, most significant first.
pub open spec fn parse_word(s: Seq<char>) -> u32 {
    (hex_val(s[0]) << 28u32) | (hex_val(s[1]) << 24u32) | (hex_val(s[2]) << 20u32) | (hex_val(
        s[3],
    ) << 16u32) | (hex_val(s[4]) << 12u32) | (hex_val(s[5]) << 8u32) | (hex_val(s[6]) << 4u32)
        | hex_val(s[7])
}

/// The 8-word state encoded by a 64-character lowercase hex string, or `None`
/// where the string has any other shape.
pub open spec fn parse_state(s: Seq<char>) -> Option<Seq<u32>> {
    if s.len() == 64 && (forall|i: int| 0 <= i < 64 ==> is_lower_hex(#[trigger] s[i])) {
        Some(Seq::new(8, |i: int| parse_word(s.subrange(8 * i, 8 * i + 8))))
    } else {
        None
    }
}

/// The word encoded by the first k characters of a word's hex rendering,
/// accumulated high nibble first.
pub open spec fn word_prefix(s: Seq<char>, k: int) -> u32
    decreases k,
{
    if k <= 0 {
        0
    } else {
        (word_prefix(s, k - 1) << 4u32) | hex_val(s[k - 1])
    }
}

/// Every nibble extracted from a word is below 16.
pub proof fn lemma_nibble_bound(w: u32, j: int)
    ensures
        nibble(w, j) < 16,
{
    let sh = ((7 - j) * 4) as u32;
    assert((w >> sh) & 0xf < 16) by (bit_vector);
}

/// A word equals its eight nibbles reassembled in place.
pub proof fn lemma_word_from_nibbles(w: u32)
    ensures
        w == (nibble(w, 0) << 28u32) | (nibble(w, 1) << 24u32) | (nibble(w, 2) << 20u32) | (nibble(
            w,
            3,
        ) << 16u32) | (nibble(w, 4) << 12u32) | (nibble(w, 5) << 8u32) | (nibble(w, 6) << 4u32) | (
        nibble(w, 7)),
{
    assert(w == (((w >> 28u32) & 0xf) << 28u32) | (((w >> 24u32) & 0xf) << 24u32) | (((w >> 20u32)
        & 0xf) << 20u32) | (((w >> 16u32) & 0xf) << 16u32) | (((w >> 12u32) & 0xf) << 12u32) | (((w
        >> 8u32) & 0xf) << 8u32) | (((w >> 4u32) & 0xf) << 4u32) | ((w >> 0u32) & 0xf))
        by (bit_vector);
}

/// Accumulating eight digit values high nibble first equals assembling them
/// by shifted disjunction.
proof fn lemma_prefix_is_parse_word(s: Seq<char>)
    requires
        forall|i: int| 0 <= i < 8 ==> hex_val(#[trigger] s[i]) < 16,
    ensures
        word_prefix(s, 8) == parse_word(s),
{
    reveal_with_fuel(word_prefix, 9);
    let d0 = hex_val(s[0]);
    let d1 = hex_val(s[1]);
    let d2 = hex_val(s[2]);
    let d3 = hex_val(s[3]);
    let d4 = hex_val(s[4]);
    let d5 = hex_val(s[5]);
    let d6 = hex_val(s[6]);
    let d7 = hex_val(s[7]);
    assert((((((((((((((((0u32 << 4u32) | d0) << 4u32) | d1) << 4u32) | d2) << 4u32) | d3) << 4u32)
        | d4) << 4u32) | d5) << 4u32) | d6) << 4u32) | d7 == (d0 << 28u32) | (d1 << 24u32) | (d2
        << 20u32) | (d3 << 16u32) | (d4 << 12u32) | (d5 << 8u32) | (d6 << 4u32) | d7)
        by (bit_vector)
        requires
            d0 < 16 && d1 < 16 && d2 < 16 && d3 < 16 && d4 < 16 && d5 < 16 && d6 < 16 && d7 < 16,
    ;
}

/// Rendering an 8-word state always yields exactly 64 lowercase hex
/// characters, and parsing them back recovers exactly the rendered state, so
/// re-rendering reproduces the identical string.
pub proof fn lemma_render_parse_roundtrip(state: Seq<u32>)
    requires
        state.len() == 8,
    ensures
        render_state(state).len() == 64,
        forall|i: int| 0 <= i < 64 ==> is_lower_hex(#[trigger] render_state(state)[i]),
        parse_state(render_state(state)) == Some(state),
{
    let r = render_state(state);
    assert forall|i: int| 0 <= i < 64 implies is_lower_hex(#[trigger] r[i]) by {
        lemma_nibble_bound(state[i / 8], i % 8);
    }
    let parsed = Seq::new(8, |i: int| parse_word(r.subrange(8 * i, 8 * i + 8)));
    assert forall|i: int| 0 <= i < 8 implies parsed[i] == state[i] by {
        let word_chars = r.subrange(8 * i, 8 * i + 8);
        assert forall|k: int| 0 <= k < 8 implies word_chars[k] == hex_digit(
            nibble(state[i], k),
        ) by {
            let pos = 8 * i + k;
            vstd::arithmetic::div_mod::lemma_fundamental_div_mod_converse_div(pos, 8, i, k);
            vstd::arithmetic::div_mod::lemma_fundamental_div_mod_converse_mod(pos, 8, i, k);
        }
        assert forall|k: int| 0 <= k < 8 implies hex_val(#[trigger] word_chars[k]) == nibble(
            state[i],
            k,
        ) by {
            lemma_nibble_bound(state[i], k);
        }
        lemma_word_from_nibbles(state[i]);
    }
    assert(parse_state(r) == Some(parsed));
    assert(parsed =~= state);
}

/// The numeric value of a lowercase hex character, 16 for any other one.
pub fn hex_value(c: char) -> (d: u32)
    ensures
        d == hex_val(c),
{
    match c {
        '0' => 0,
        '1' => 1,
        '2' => 2,
        '3' => 3,
        '4' => 4,
        '5' => 5,
        '6' => 6,
        '7' => 7,
        '8' => 8,
        '9' => 9,
        'a' => 10,
        'b' => 11,
        'c' => 12,
        'd' => 13,
        'e' => 14,
        'f' => 15,
        _ => 16,
    }
}

/// Parses a 64-character lowercase hex string back into the 8 words that
/// render to it; any other string parses to `None`.
pub fn parse_fingerprint(s: &str) -> (r: Option<Vec<u32>>)
    ensures
        match r {
            Some(v) => parse_state(s@) == Some(v@),
            None => parse_state(s@) is None,
        },
{
    if s.unicode_len() != 64 {
        return None;
    }
    let mut words: Vec<u32> = Vec::new();
    let mut i: usize = 0;
    while i < 8
        invariant
            s@.len() == 64,
            i <= 8,
            words@.len() == i,
            forall|t: int| 0 <= t < 8 * i ==> is_lower_hex(#[trigger] s@[t]),
            forall|t: int|
                0 <= t < i ==> words@[t] == parse_word(s@.subrange(8 * t, 8 * t + 8)),
        decreases 8 - i,
    {
        let ghost word_chars = s@.subrange(8 * i, 8 * i + 8);
        let mut w: u32 = 0;
        let mut k: usize = 0;
        while k < 8
            invariant
                s@.len() == 64,
                i < 8,
                k <= 8,
                word_chars == s@.subrange(8 * i, 8 * i + 8),
                forall|t: int| 0 <= t < 8 * i + k ==> is_lower_hex(#[trigger] s@[t]),
                w == word_prefix(word_chars, k as int),
            decreases 8 - k,
        {
            let c = s.get_char(8 * i + k);
            let d = hex_value(c);
            if d == 16 {
                proof {
                    assert(!is_lower_hex(s@[8 * i + k]));
                    assert(parse_state(s@) is None);
                }
                return None;
            }
            w = (w << 4u32) | d;
            k = k + 1;
        }
        proof {
            lemma_prefix_is_parse_word(word_chars);
        }
        words.push(w);
        i = i + 1;
    }
    proof {
        assert(parse_state(s@) == Some(
            Seq::new(8, |t: int| parse_word(s@.subrange(8 * t, 8 * t + 8))),
        ));
        assert(words@ =~= Seq::new(8, |t: int| parse_word(s@.subrange(8 * t, 8 * t + 8))));
    }
    Some(words)
}

/// Appends the hex character of one nibble to a string.
pub fn push_hex_digit(s: &mut String, d: u32)
    requires
        d < 16,
    ensures
        final(s)@ == old(s)@.push(hex_digit(d)),
{
    let digits = "0123456789abcdef";
    proof {
        reveal_strlit("0123456789abcdef");
        assert(vstd::utf8::is_ascii_chars(digits@));
    }
    let piece = digits.substring_ascii(d as usize, d as usize + 1);
    proof {
        assert(piece@ =~= seq![hex_digit(d)]);
    }
    s.append(piece);
    proof {
        assert(s@ =~= old(s)@.push(hex_digit(d)));
    }
}

} // verus!
