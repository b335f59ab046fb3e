//! The validation engine: classifies one raw text field as a decimal numeral,
//! as blank, or as malformed.  No coercion is ever applied to the text.

use vstd::prelude::*;

verus! {

/// Outcome of validating one raw text field.
#[derive(Clone, Copy, PartialEq, Eq, Structural, Debug)]
pub enum Validation {
    /// The whole text is a decimal numeral.
    Valid,
    /// The text is empty or holds nothing but whitespace.
    Unset,
    /// Anything else: trailing letters, two dots, a lone minus sign, ...
    Invalid,
}

pub open spec fn is_digit_char(c: char) -> bool {
    '0' <= c && c <= '9'
}

pub open spec fn is_space_char(c: char) -> bool {
    c == ' ' || c == '\t' || c == '\n' || c == '\r'
}

pub open spec fn all_digit_chars(s: Seq<char>) -> bool {
    forall|i: int| 0 <= i < s.len() ==> is_digit_char(#[trigger] s[i])
}

/// Blank text: every character is whitespace (the empty text included).
pub open spec fn is_blank_text(s: Seq<char>) -> bool {
    forall|i: int| 0 <= i < s.len() ==> is_space_char(#[trigger] s[i])
}

/// The unsigned part of a numeral: one or more digits, optionally followed by
/// a dot and one or more digits.
pub open spec fn is_unsigned_decimal(s: Seq<char>) -> bool {
    ||| (s.len() > 0 && all_digit_chars(s))
    ||| (exists|i: int|
        1 <= i && i + 1 < s.len() && #[trigger] s[i] == '.' && all_digit_chars(
            s.subrange(0, i),
        ) && all_digit_chars(s.subrange(i + 1, s.len() as int)))
}

/// A numeral: an optional leading minus sign before the unsigned part.
pub open spec fn is_decimal_text(s: Seq<char>) -> bool {
    if s.len() > 0 && s[0] == '-' {
        is_unsigned_decimal(s.skip(1))
    } else {
        is_unsigned_decimal(s)
    }
}

/// What `parse` returns on a given text.
pub open spec fn validate_text(s: Seq<char>) -> Validation {
    if is_blank_text(s) {
        Validation::Unset
    } else if is_decimal_text(s) {
        Validation::Valid
    } else {
        Validation::Invalid
    }
}

/// Scan `text` from `from` and return the first index holding a non-digit, or
/// the length if there is none.
fn scan_digits(text: &str, from: usize) -> (r: usize)
    requires
        from <= text@.len(),
    ensures
        from <= r <= text@.len(),
        forall|j: int| from <= j < r ==> is_digit_char(#[trigger] text@[j]),
        r < text@.len() ==> !is_digit_char(text@[r as int]),
{
    let n = text.unicode_len();
    let mut i = from;
    while i < n
        invariant
            from <= i <= n,
            n == text@.len(),
            forall|j: int| from <= j < i ==> is_digit_char(#[trigger] text@[j]),
        decreases n - i,
    {
        let c = text.get_char(i);
        if !('0' <= c && c <= '9') {
            return i;
        }
        i += 1;
    }
    i
}

/// Decide whether the whole text is whitespace.
fn check_blank(text: &str) -> (r: bool)
    ensures
        r == is_blank_text(text@),
{
    let n = text.unicode_len();
    let mut i: usize = 0;
    while i < n
        invariant
            0 <= i <= n,
            n == text@.len(),
            forall|j: int| 0 <= j < i ==> is_space_char(#[trigger] text@[j]),
        decreases n - i,
    {
        let c = text.get_char(i);
        if !(c == ' ' || c == '\t' || c == '\n' || c == '\r') {
            proof {
                assert(!is_space_char(text@[i as int]));
            }
            return false;
        }
        i += 1;
    }
    true
}

/// The validation engine's single operation: classify a raw text field.
/// Blank text is `Unset`, a full decimal numeral is `Valid`, and everything
/// else is `Invalid`.
pub fn parse(text: &str) -> (r: Validation)
    ensures
        r == validate_text(text@),
{
    let n = text.unicode_len();
    if check_blank(text) {
        return Validation::Unset;
    }
    // The text is not blank; test the numeral grammar.
    let start: usize = if n > 0 && text.get_char(0) == '-' {
        1
    } else {
        0
    };
    let ghost body: Seq<char> = text@.skip(start as int);
    let d = scan_digits(text, start);
    if d == start {
        // No integer digits at all.
        proof {
            lemma_no_leading_digit(text@, start as int);
        }
        return Validation::Invalid;
    }
    if d == n {
        // Digits all the way to the end.
        proof {
            if start == 0 {
                assert(text@.skip(0) =~= text@);
            }
            assert(body.len() > 0 && all_digit_chars(body)) by {
                assert(forall|j: int|
                    0 <= j < body.len() ==> #[trigger] body[j] == text@[j + start]);
            }
            assert(is_decimal_text(text@));
        }
        return Validation::Valid;
    }
    if text.get_char(d) != '.' {
        proof {
            lemma_bad_tail(text@, start as int, d as int);
        }
        return Validation::Invalid;
    }
    if d + 1 == n {
        // A trailing dot with no fraction digits.
        proof {
            lemma_bad_tail(text@, start as int, d as int);
        }
        return Validation::Invalid;
    }
    let e = scan_digits(text, d + 1);
    if e == n {
        proof {
            if start == 0 {
                assert(text@.skip(0) =~= text@);
            }
            let i = d - start;
            assert(1 <= i && i + 1 < body.len() && body[i] == '.');
            assert(all_digit_chars(body.subrange(0, i))) by {
                assert(forall|j: int|
                    0 <= j < i ==> #[trigger] body.subrange(0, i)[j] == text@[j + start]);
            }
            assert(all_digit_chars(body.subrange(i + 1, body.len() as int))) by {
                assert(forall|j: int|
                    0 <= j < body.len() - i - 1 ==> #[trigger] body.subrange(
                        i + 1,
                        body.len() as int,
                    )[j] == text@[j + d + 1]);
            }
            assert(is_unsigned_decimal(body));
            assert(is_decimal_text(text@));
        }
        return Validation::Valid;
    }
    proof {
        lemma_two_part_bad(text@, start as int, d as int, e as int);
    }
    Validation::Invalid
}

/// If the character at `start` (just after an optional minus sign) is not a
/// digit, the text is no numeral.
proof fn lemma_no_leading_digit(s: Seq<char>, start: int)
    requires
        0 <= start <= s.len(),
        start == 0 || start == 1,
        start == 1 ==> s.len() > 0 && s[0] == '-',
        start == 0 ==> !(s.len() > 0 && s[0] == '-'),
        start < s.len() ==> !is_digit_char(s[start]),
    ensures
        !is_decimal_text(s),
{
    let body = s.skip(start);
    if start == 0 {
        assert(s.skip(0) =~= s);
    }
    assert(body.len() == s.len() - start);
    if is_unsigned_decimal(body) {
        if body.len() > 0 && all_digit_chars(body) {
            assert(is_digit_char(body[0]));
            assert(body[0] == s[start]);
        } else {
            let i = choose|i: int|
                1 <= i && i + 1 < body.len() && #[trigger] body[i] == '.' && all_digit_chars(
                    body.subrange(0, i),
                ) && all_digit_chars(body.subrange(i + 1, body.len() as int));
            assert(is_digit_char(body.subrange(0, i)[0]));
            assert(body.subrange(0, i)[0] == s[start]);
        }
    }
}

/// Digits run from `start` to `d`, and the character at `d` is neither a
/// digit nor a dot opening a nonempty fraction: the text is no numeral.
proof fn lemma_bad_tail(s: Seq<char>, start: int, d: int)
    requires
        0 <= start <= d < s.len(),
        start == 0 || start == 1,
        start == 1 ==> s.len() > 0 && s[0] == '-',
        start == 0 ==> !(s.len() > 0 && s[0] == '-'),
        forall|j: int| start <= j < d ==> is_digit_char(#[trigger] s[j]),
        !is_digit_char(s[d]),
        s[d] == '.' ==> d + 1 == s.len(),
    ensures
        !is_decimal_text(s),
{
    let body = s.skip(start);
    if start == 0 {
        assert(s.skip(0) =~= s);
    }
    if is_unsigned_decimal(body) {
        if body.len() > 0 && all_digit_chars(body) {
            assert(is_digit_char(body[d - start]));
        } else {
            let i = choose|i: int|
                1 <= i && i + 1 < body.len() && #[trigger] body[i] == '.' && all_digit_chars(
                    body.subrange(0, i),
                ) && all_digit_chars(body.subrange(i + 1, body.len() as int));
            // The dot of the witness sits at s[i + start]; every character
            // before it is a digit, so d cannot come before i + start, and
            // d cannot be the dot itself (the fraction would be empty), nor
            // sit after it (the character at d would be a digit).
            if d - start < i {
                assert(is_digit_char(body.subrange(0, i)[d - start]));
            } else if d - start == i {
                assert(s[d] == '.');
                assert(i + 1 < body.len());
            } else {
                assert(is_digit_char(body.subrange(i + 1, body.len() as int)[d - start - i - 1]));
            }
        }
    }
}

/// Digits, one dot, digits, and then a junk character at `e`: no numeral.
proof fn lemma_two_part_bad(s: Seq<char>, start: int, d: int, e: int)
    requires
        0 <= start < d < s.len(),
        d + 1 <= e < s.len(),
        start == 0 || start == 1,
        start == 1 ==> s.len() > 0 && s[0] == '-',
        start == 0 ==> !(s.len() > 0 && s[0] == '-'),
        forall|j: int| start <= j < d ==> is_digit_char(#[trigger] s[j]),
        s[d] == '.',
        forall|j: int| d + 1 <= j < e ==> is_digit_char(#[trigger] s[j]),
        !is_digit_char(s[e]),
    ensures
        !is_decimal_text(s),
{
    let body = s.skip(start);
    if start == 0 {
        assert(s.skip(0) =~= s);
    }
    if is_unsigned_decimal(body) {
        if body.len() > 0 && all_digit_chars(body) {
            assert(is_digit_char(body[d - start]));
        } else {
            let i = choose|i: int|
                1 <= i && i + 1 < body.len() && #[trigger] body[i] == '.' && all_digit_chars(
                    body.subrange(0, i),
                ) && all_digit_chars(body.subrange(i + 1, body.len() as int));
            // The witness dot must be the dot at d: before d every character
            // is a digit and after d the character at e rules the others out.
            if i < d - start {
                assert(s[i + start] == '.');
                assert(is_digit_char(s[i + start]));
            } else if i > d - start {
                assert(is_digit_char(body.subrange(0, i)[d - start]));
                assert(s[d] == '.');
            } else {
                assert(is_digit_char(body.subrange(i + 1, body.len() as int)[e - start - i - 1]));
            }
        }
    }
}

} // verus!
