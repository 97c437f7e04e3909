//! The code normalizer: turns a textual classification code into its
//! canonical digit-sequence key.

use vstd::prelude::*;

verus! {

use vstd::string::StrSliceExecFns;

/// Failure of [`normalize`]: the code holds a character that is not a decimal
/// digit once trailing placeholder characters are stripped.
#[derive(Clone, Copy, Debug, PartialEq, Eq, Structural)]
pub struct InvalidCodeFormat;

/// True for the ten decimal digit characters.
pub open spec fn is_decimal_digit(c: char) -> bool {
    '0' <= c && c <= '9'
}

/// The numeric value of a decimal digit character.
pub open spec fn digit_value(c: char) -> u8 {
    (c as u32 - '0' as u32) as u8
}

/// The character that prints a single digit value.
pub open spec fn digit_char(d: u8) -> char {
    (d + '0' as u32) as char
}

/// True when every character of `s` is a decimal digit.
pub open spec fn all_digits(s: Seq<char>) -> bool {
    forall|i: int| 0 <= i < s.len() ==> is_decimal_digit(#[trigger] s[i])
}

/// `s` with every trailing placeholder character (`'X'`) removed.
pub open spec fn strip_placeholders(s: Seq<char>) -> Seq<char>
    decreases s.len(),
{
    if s.len() > 0 && s.last() == 'X' {
        strip_placeholders(s.drop_last())
    } else {
        s
    }
}

/// The digit key spelled by a sequence of digit characters.
pub open spec fn key_of_chars(s: Seq<char>) -> Seq<u8> {
    Seq::new(s.len(), |i: int| digit_value(s[i]))
}

/// The digit characters that spell a digit key.
pub open spec fn chars_of_key(k: Seq<u8>) -> Seq<char> {
    Seq::new(k.len(), |i: int| digit_char(k[i]))
}

/// True when every element of `k` is a single digit value.
pub open spec fn key_digits(k: Seq<u8>) -> bool {
    forall|i: int| 0 <= i < k.len() ==> #[trigger] k[i] <= 9
}

/// The canonical digit key of a textual code: trailing placeholder characters
/// are stripped, and what remains must spell decimal digits.
pub open spec fn spec_normalize(s: Seq<char>) -> Option<Seq<u8>> {
    if all_digits(strip_placeholders(s)) {
        Some(key_of_chars(strip_placeholders(s)))
    } else {
        None
    }
}

/// Strict lexicographic order on digit keys.
pub open spec fn lex_lt(a: Seq<u8>, b: Seq<u8>) -> bool
    decreases a.len(),
{
    if b.len() == 0 {
        false
    } else if a.len() == 0 {
        true
    } else {
        a[0] < b[0] || (a[0] == b[0] && lex_lt(a.drop_first(), b.drop_first()))
    }
}

pub proof fn lemma_digit_char_value(c: char)
    requires
        is_decimal_digit(c),
    ensures
        digit_value(c) <= 9,
        digit_char(digit_value(c)) == c,
{
}

pub proof fn lemma_digit_value_char(d: u8)
    requires
        d <= 9,
    ensures
        is_decimal_digit(digit_char(d)),
        digit_value(digit_char(d)) == d,
{
}

/// Spelling out a well-formed key gives digit characters that parse back to
/// the same key.
pub proof fn lemma_chars_of_key_roundtrip(k: Seq<u8>)
    requires
        key_digits(k),
    ensures
        all_digits(chars_of_key(k)),
        key_of_chars(chars_of_key(k)) == k,
{
    assert forall|i: int| 0 <= i < k.len() implies is_decimal_digit(#[trigger] chars_of_key(k)[i]) by {
        lemma_digit_value_char(k[i]);
    }
    assert forall|i: int| 0 <= i < k.len() implies #[trigger] key_of_chars(chars_of_key(k))[i]
        == k[i] by {
        lemma_digit_value_char(k[i]);
    }
    assert(key_of_chars(chars_of_key(k)) =~= k);
}

/// Parsing a sequence of digit characters gives a key that spells back the
/// same characters.
pub proof fn lemma_key_of_chars_roundtrip(s: Seq<char>)
    requires
        all_digits(s),
    ensures
        key_digits(key_of_chars(s)),
        chars_of_key(key_of_chars(s)) == s,
{
    assert forall|i: int| 0 <= i < s.len() implies #[trigger] key_of_chars(s)[i] <= 9 by {
        lemma_digit_char_value(s[i]);
    }
    assert forall|i: int| 0 <= i < s.len() implies #[trigger] chars_of_key(key_of_chars(s))[i]
        == s[i] by {
        lemma_digit_char_value(s[i]);
    }
    assert(chars_of_key(key_of_chars(s)) =~= s);
}

/// A code made only of digits is already canonical: nothing is stripped.
pub proof fn lemma_normalize_digits(s: Seq<char>)
    requires
        all_digits(s),
    ensures
        strip_placeholders(s) == s,
        spec_normalize(s) == Some(key_of_chars(s)),
{
    if s.len() > 0 {
        assert(is_decimal_digit(s.last()));
        assert(s.last() != 'X');
    }
}

/// A key prefix spells a character prefix.
pub proof fn lemma_chars_of_key_prefix(a: Seq<u8>, b: Seq<u8>)
    requires
        a.is_prefix_of(b),
    ensures
        chars_of_key(a).is_prefix_of(chars_of_key(b)),
{
    assert(chars_of_key(a) =~= chars_of_key(b).subrange(0, a.len() as int));
}

/// The number of characters of `code` that remain once trailing placeholder
/// characters are stripped.
pub fn stripped_len(code: &str) -> (n: usize)
    ensures
        n <= code@.len(),
        n == strip_placeholders(code@).len(),
        strip_placeholders(code@) == code@.take(n as int),
{
    let full: usize = code.unicode_len();
    let mut end: usize = full;
    proof {
        assert(code@.take(full as int) =~= code@);
    }
    while end > 0 && code.get_char(end - 1) == 'X'
        invariant
            end <= full,
            full == code@.len(),
            strip_placeholders(code@) == strip_placeholders(code@.take(end as int)),
        decreases end,
    {
        proof {
            assert(code@.take(end as int).last() == 'X');
            assert(code@.take(end as int).drop_last() =~= code@.take(end as int - 1));
        }
        end = end - 1;
    }
    proof {
        if end > 0 {
            assert(code@.take(end as int).last() == code@[end as int - 1]);
        }
        assert(strip_placeholders(code@.take(end as int)) == code@.take(end as int));
    }
    end
}

/// Converts a textual code into its canonical digit key.
///
/// Trailing placeholder characters (`'X'`) are stripped; every remaining
/// character must be a decimal digit, else the code is rejected as
/// [`InvalidCodeFormat`].
pub fn normalize(code: &str) -> (result: Result<Vec<u8>, InvalidCodeFormat>)
    ensures
        match result {
            Ok(key) => spec_normalize(code@) == Some(key@),
            Err(_) => spec_normalize(code@) is None,
        },
{
    let end = stripped_len(code);
    let mut key: Vec<u8> = Vec::new();
    let mut i: usize = 0;
    while i < end
        invariant
            i <= end,
            end <= code@.len(),
            strip_placeholders(code@) == code@.take(end as int),
            all_digits(code@.take(i as int)),
            key@ == key_of_chars(code@.take(i as int)),
        decreases end - i,
    {
        let c = code.get_char(i);
        if c < '0' || c > '9' {
            proof {
                assert(!is_decimal_digit(code@.take(end as int)[i as int]));
            }
            return Err(InvalidCodeFormat);
        }
        let v: u32 = c as u32;
        let d: u8 = (v - 48) as u8;
        key.push(d);
        proof {
            assert(code@.take(i as int + 1).drop_last() =~= code@.take(i as int));
            assert(key@ =~= key_of_chars(code@.take(i as int + 1)));
        }
        i = i + 1;
    }
    proof {
        assert(code@.take(end as int) =~= strip_placeholders(code@));
    }
    Ok(key)
}

} // verus!
