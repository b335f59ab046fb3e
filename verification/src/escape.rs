//! JSON string text: raw field text is written between quotes with the
//! quote, the backslash and every control character escaped, and read back
//! verbatim.

use vstd::prelude::*;

use crate::outside::push_char;

verus! {

/// The lowercase hex digit for a value below sixteen.
pub open spec fn hex_digit_char(d: int) -> char {
    if d == 0 {
        '0'
    } else if d == 1 {
        '1'
    } else if d == 2 {
        '2'
    } else if d == 3 {
        '3'
    } else if d == 4 {
        '4'
    } else if d == 5 {
        '5'
    } else if d == 6 {
        '6'
    } else if d == 7 {
        '7'
    } else if d == 8 {
        '8'
    } else if d == 9 {
        '9'
    } else if d == 10 {
        'a'
    } else if d == 11 {
        'b'
    } else if d == 12 {
        'c'
    } else if d == 13 {
        'd'
    } else if d == 14 {
        'e'
    } else {
        'f'
    }
}

/// The value of a lowercase hex digit, or minus one.
pub open spec fn hex_val(c: char) -> int {
    if c == '0' {
        0
    } else if c == '1' {
        1
    } else if c == '2' {
        2
    } else if c == '3' {
        3
    } else if c == '4' {
        4
    } else if c == '5' {
        5
    } else if c == '6' {
        6
    } else if c == '7' {
        7
    } else if c == '8' {
        8
    } else if c == '9' {
        9
    } else if c == 'a' {
        10
    } else if c == 'b' {
        11
    } else if c == 'c' {
        12
    } else if c == 'd' {
        13
    } else if c == 'e' {
        14
    } else if c == 'f' {
        15
    } else {
        -1
    }
}

/// How one character is written inside a JSON string.
pub open spec fn esc_char(c: char) -> Seq<char> {
    if c == '"' {
        seq!['\\', '"']
    } else if c == '\\' {
        seq!['\\', '\\']
    } else if (c as u32) < 32 {
        seq![
            '\\',
            'u',
            '0',
            '0',
            hex_digit_char((c as u32) as int / 16),
            hex_digit_char((c as u32) as int % 16),
        ]
    } else {
        seq![c]
    }
}

/// A text with every character escaped.
pub open spec fn escape(s: Seq<char>) -> Seq<char>
    decreases s.len(),
{
    if s.len() == 0 {
        Seq::empty()
    } else {
        esc_char(s[0]) + escape(s.skip(1))
    }
}

/// A full JSON string: the escaped text between quotes.
pub open spec fn enc_string(s: Seq<char>) -> Seq<char> {
    seq!['"'] + escape(s) + seq!['"']
}

/// Read an escaped text up to and including its closing quote; the result
/// carries the text and how many characters were consumed.
pub open spec fn dec_string_body(s: Seq<char>) -> Option<(Seq<char>, int)>
    decreases s.len(),
{
    if s.len() == 0 {
        None
    } else if s[0] == '"' {
        Some((Seq::empty(), 1))
    } else if s[0] == '\\' {
        if s.len() >= 2 && (s[1] == '"' || s[1] == '\\') {
            match dec_string_body(s.skip(2)) {
                Some(t) => Some((seq![s[1]] + t.0, t.1 + 2)),
                None => None,
            }
        } else if s.len() >= 6 && s[1] == 'u' && s[2] == '0' && s[3] == '0' && hex_val(s[4]) >= 0
            && hex_val(s[5]) >= 0 && 16 * hex_val(s[4]) + hex_val(s[5]) < 32 {
            match dec_string_body(s.skip(6)) {
                Some(t) => Some(
                    (seq![((16 * hex_val(s[4]) + hex_val(s[5])) as u32) as char] + t.0, t.1 + 6),
                ),
                None => None,
            }
        } else {
            None
        }
    } else {
        match dec_string_body(s.skip(1)) {
            Some(t) => Some((seq![s[0]] + t.0, t.1 + 1)),
            None => None,
        }
    }
}

/// A quoted JSON string read from the front of the text.
pub open spec fn dec_string(s: Seq<char>) -> Option<(Seq<char>, int)> {
    if s.len() > 0 && s[0] == '"' {
        match dec_string_body(s.skip(1)) {
            Some(t) => Some((t.0, t.1 + 1)),
            None => None,
        }
    } else {
        None
    }
}

/// Escaping distributes over appending one character.
proof fn lemma_escape_push(s: Seq<char>, c: char)
    ensures
        escape(s.push(c)) == escape(s) + esc_char(c),
    decreases s.len(),
{
    if s.len() == 0 {
        assert(s.push(c)[0] == c);
        assert(s.push(c).skip(1) =~= Seq::<char>::empty());
        assert(escape(s.push(c)) == esc_char(c) + escape(Seq::<char>::empty()));
        assert(escape(Seq::<char>::empty()) == Seq::<char>::empty());
        assert(esc_char(c) + Seq::<char>::empty() =~= Seq::<char>::empty() + esc_char(c));
    } else {
        lemma_escape_push(s.skip(1), c);
        assert(s.push(c).skip(1) =~= s.skip(1).push(c));
        assert(s.push(c)[0] == s[0]);
        assert(escape(s.push(c)) == esc_char(s[0]) + (escape(s.skip(1)) + esc_char(c)));
        assert(esc_char(s[0]) + (escape(s.skip(1)) + esc_char(c)) =~= (esc_char(s[0]) + escape(
            s.skip(1),
        )) + esc_char(c));
    }
}

/// Decoding undoes escaping: the escaped text followed by the closing quote
/// and anything after it reads back as the original text.
pub proof fn lemma_dec_escape(x: Seq<char>, rest: Seq<char>)
    ensures
        dec_string_body(escape(x) + seq!['"'] + rest) == Some((x, escape(x).len() as int + 1)),
    decreases x.len(),
{
    let s = escape(x) + seq!['"'] + rest;
    if x.len() == 0 {
        assert(escape(x) == Seq::<char>::empty());
        assert(s[0] == '"');
        assert(x =~= Seq::<char>::empty());
    } else {
        let c = x[0];
        let x1 = x.skip(1);
        lemma_dec_escape(x1, rest);
        let tail = escape(x1) + seq!['"'] + rest;
        assert(escape(x) == esc_char(c) + escape(x1));
        assert(seq![c] + x1 =~= x);
        if c == '"' {
            assert(s[0] == '\\' && s[1] == '"');
            assert(s.skip(2) =~= tail);
            assert(dec_string_body(s) == Some((seq![s[1]] + x1, escape(x1).len() as int + 1 + 2)));
        } else if c == '\\' {
            assert(s[0] == '\\' && s[1] == '\\');
            assert(s.skip(2) =~= tail);
            assert(dec_string_body(s) == Some((seq![s[1]] + x1, escape(x1).len() as int + 1 + 2)));
        } else if (c as u32) < 32 {
            let hi = (c as u32) as int / 16;
            let lo = (c as u32) as int % 16;
            assert(0 <= hi < 16 && 0 <= lo < 16);
            assert(s[0] == '\\' && s[1] == 'u' && s[2] == '0' && s[3] == '0');
            assert(s[4] == hex_digit_char(hi) && s[5] == hex_digit_char(lo));
            assert(hex_val(hex_digit_char(hi)) == hi);
            assert(hex_val(hex_digit_char(lo)) == lo);
            assert(s.skip(6) =~= tail);
            assert(16 * hi + lo == (c as u32) as int) by {
                vstd::arithmetic::div_mod::lemma_fundamental_div_mod((c as u32) as int, 16);
            }
            vstd::utf8::char_u32_cast(c, c as u32);
            assert(((16 * hex_val(s[4]) + hex_val(s[5])) as u32) as char == c);
            assert(dec_string_body(s) == Some((seq![c] + x1, escape(x1).len() as int + 1 + 6)));
        } else {
            assert(s[0] == c);
            assert(s.skip(1) =~= tail);
            assert(dec_string_body(s) == Some((seq![c] + x1, escape(x1).len() as int + 1 + 1)));
        }
    }
}

/// The exec hex digit for a value below sixteen.
fn hex_digit_char_exec(d: u32) -> (c: char)
    requires
        d < 16,
    ensures
        c == hex_digit_char(d as int),
{
    if d == 0 {
        '0'
    } else if d == 1 {
        '1'
    } else if d == 2 {
        '2'
    } else if d == 3 {
        '3'
    } else if d == 4 {
        '4'
    } else if d == 5 {
        '5'
    } else if d == 6 {
        '6'
    } else if d == 7 {
        '7'
    } else if d == 8 {
        '8'
    } else if d == 9 {
        '9'
    } else if d == 10 {
        'a'
    } else if d == 11 {
        'b'
    } else if d == 12 {
        'c'
    } else if d == 13 {
        'd'
    } else if d == 14 {
        'e'
    } else {
        'f'
    }
}

/// The exec value of a lowercase hex digit, or sixteen.
fn hex_val_exec(c: char) -> (v: u32)
    ensures
        hex_val(c) >= 0 ==> v < 16 && v as int == hex_val(c),
        hex_val(c) < 0 ==> v == 16,
{
    if c == '0' {
        0
    } else if c == '1' {
        1
    } else if c == '2' {
        2
    } else if c == '3' {
        3
    } else if c == '4' {
        4
    } else if c == '5' {
        5
    } else if c == '6' {
        6
    } else if c == '7' {
        7
    } else if c == '8' {
        8
    } else if c == '9' {
        9
    } else if c == 'a' {
        10
    } else if c == 'b' {
        11
    } else if c == 'c' {
        12
    } else if c == 'd' {
        13
    } else if c == 'e' {
        14
    } else if c == 'f' {
        15
    } else {
        16
    }
}

/// Append the quoted, escaped form of `text` to `out`.
pub fn write_json_string(text: &str, out: &mut String)
    ensures
        final(out)@ == old(out)@ + enc_string(text@),
{
    push_char(out, '"');
    let n = text.unicode_len();
    let mut i: usize = 0;
    while i < n
        invariant
            0 <= i <= n,
            n == text@.len(),
            out@ == old(out)@ + seq!['"'] + escape(text@.subrange(0, i as int)),
        decreases n - i,
    {
        let c = text.get_char(i);
        let ghost pfx = text@.subrange(0, i as int);
        proof {
            assert(text@.subrange(0, i + 1) =~= pfx.push(text@[i as int]));
            lemma_escape_push(pfx, text@[i as int]);
        }
        let code = c as u32;
        if c == '"' {
            push_char(out, '\\');
            push_char(out, '"');
        } else if c == '\\' {
            push_char(out, '\\');
            push_char(out, '\\');
        } else if code < 32 {
            push_char(out, '\\');
            push_char(out, 'u');
            push_char(out, '0');
            push_char(out, '0');
            push_char(out, hex_digit_char_exec(code / 16));
            push_char(out, hex_digit_char_exec(code % 16));
        } else {
            push_char(out, c);
        }
        proof {
            assert(out@ =~= old(out)@ + seq!['"'] + (escape(pfx) + esc_char(text@[i as int])));
        }
        i += 1;
    }
    push_char(out, '"');
    proof {
        assert(text@.subrange(0, n as int) =~= text@);
        assert(out@ =~= old(out)@ + enc_string(text@));
    }
}

/// The control character with the given code.
fn control_char_exec(code: u32) -> (c: char)
    requires
        code < 32,
    ensures
        c == code as char,
{
    let c: char = if code == 0 {
        '\u{0}'
    } else if code == 1 {
        '\u{1}'
    } else if code == 2 {
        '\u{2}'
    } else if code == 3 {
        '\u{3}'
    } else if code == 4 {
        '\u{4}'
    } else if code == 5 {
        '\u{5}'
    } else if code == 6 {
        '\u{6}'
    } else if code == 7 {
        '\u{7}'
    } else if code == 8 {
        '\u{8}'
    } else if code == 9 {
        '\u{9}'
    } else if code == 10 {
        '\u{a}'
    } else if code == 11 {
        '\u{b}'
    } else if code == 12 {
        '\u{c}'
    } else if code == 13 {
        '\u{d}'
    } else if code == 14 {
        '\u{e}'
    } else if code == 15 {
        '\u{f}'
    } else if code == 16 {
        '\u{10}'
    } else if code == 17 {
        '\u{11}'
    } else if code == 18 {
        '\u{12}'
    } else if code == 19 {
        '\u{13}'
    } else if code == 20 {
        '\u{14}'
    } else if code == 21 {
        '\u{15}'
    } else if code == 22 {
        '\u{16}'
    } else if code == 23 {
        '\u{17}'
    } else if code == 24 {
        '\u{18}'
    } else if code == 25 {
        '\u{19}'
    } else if code == 26 {
        '\u{1a}'
    } else if code == 27 {
        '\u{1b}'
    } else if code == 28 {
        '\u{1c}'
    } else if code == 29 {
        '\u{1d}'
    } else if code == 30 {
        '\u{1e}'
    } else {
        '\u{1f}'
    };
    proof {
        vstd::utf8::char_u32_cast(c, code);
    }
    c
}

/// Read a quoted JSON string starting at `i`; the result carries the text
/// and the index just past the closing quote.
pub fn read_json_string(s: &Vec<char>, i: usize) -> (r: Option<(String, usize)>)
    requires
        i <= s@.len(),
    ensures
        match r {
            Some(p) => dec_string(s@.skip(i as int)) matches Some(t) && p.0@ == t.0 && p.1 as int
                == i + t.1 && i < p.1 <= s@.len(),
            None => dec_string(s@.skip(i as int)) is None,
        },
{
    let n = s.len();
    if i >= n || s[i] != '"' {
        return None;
    }
    proof {
        assert(s@.skip(i as int)[0] == '"');
        assert(s@.skip(i as int).skip(1) =~= s@.skip(i + 1));
    }
    let mut out = String::new();
    let mut cur = i + 1;
    loop
        invariant
            i + 1 <= cur <= n,
            n == s@.len(),
            s@[i as int] == '"',
            s@.skip(i as int).skip(1) == s@.skip(i + 1),
            ({
                let full = dec_string_body(s@.skip(i + 1));
                let part = dec_string_body(s@.skip(cur as int));
                match part {
                    Some(t) => full == Some((out@ + t.0, (cur - i - 1) + t.1)),
                    None => full is None,
                }
            }),
        decreases n - cur,
    {
        proof {
            if cur == n {
                assert(s@.skip(cur as int) =~= Seq::<char>::empty());
            }
        }
        if cur >= n {
            return None;
        }
        let c = s[cur];
        let ghost suffix = s@.skip(cur as int);
        proof {
            assert(suffix[0] == s@[cur as int]);
        }
        if c == '"' {
            proof {
                assert(dec_string_body(suffix) == Some((Seq::<char>::empty(), 1int)));
                assert(out@ + Seq::<char>::empty() =~= out@);
                assert(s@.skip(i as int)[0] == '"');
                assert(s@.skip(i as int).skip(1) =~= s@.skip(i + 1));
            }
            return Some((out, cur + 1));
        } else if c == '\\' {
            proof {
                if cur + 1 == n {
                    assert(suffix.len() == 1);
                }
            }
            if cur + 1 >= n {
                return None;
            }
            let e = s[cur + 1];
            proof {
                assert(suffix[1] == s@[cur + 1]);
            }
            if e == '"' || e == '\\' {
                let ghost out_prev = out@;
                push_char(&mut out, e);
                proof {
                    assert(suffix.skip(2) =~= s@.skip(cur + 2));
                    match dec_string_body(s@.skip(cur + 2)) {
                        Some(t) => {
                            assert(dec_string_body(suffix) == Some((seq![e] + t.0, t.1 + 2)));
                            assert(out_prev + (seq![e] + t.0) =~= out@ + t.0);
                        },
                        None => {
                            assert(dec_string_body(suffix) is None);
                        },
                    }
                }
                cur = cur + 2;
            } else if e == 'u' {
                proof {
                    if n - cur < 6 {
                        assert(suffix.len() < 6);
                    }
                }
                if n - cur < 6 {
                    return None;
                }
                let h2 = s[cur + 2];
                let h3 = s[cur + 3];
                let v4 = hex_val_exec(s[cur + 4]);
                let v5 = hex_val_exec(s[cur + 5]);
                proof {
                    assert(suffix[2] == s@[cur + 2]);
                    assert(suffix[3] == s@[cur + 3]);
                    assert(suffix[4] == s@[cur + 4]);
                    assert(suffix[5] == s@[cur + 5]);
                }
                if !(h2 == '0' && h3 == '0' && v4 < 2 && v5 < 16) {
                    return None;
                }
                let code: u32 = 16 * v4 + v5;
                let decoded: char = control_char_exec(code);
                let ghost out_prev = out@;
                push_char(&mut out, decoded);
                proof {
                    assert(suffix.skip(6) =~= s@.skip(cur + 6));
                    assert(code as int == 16 * hex_val(suffix[4]) + hex_val(suffix[5]));
                    match dec_string_body(s@.skip(cur + 6)) {
                        Some(t) => {
                            assert(dec_string_body(suffix) == Some(
                                (seq![decoded] + t.0, t.1 + 6),
                            ));
                            assert(out_prev + (seq![decoded] + t.0) =~= out@ + t.0);
                        },
                        None => {
                            assert(dec_string_body(suffix) is None);
                        },
                    }
                }
                cur = cur + 6;
            } else {
                proof {
                    assert(dec_string_body(suffix) is None);
                }
                return None;
            }
        } else {
            let ghost out_prev = out@;
            push_char(&mut out, c);
            proof {
                assert(suffix.skip(1) =~= s@.skip(cur + 1));
                match dec_string_body(s@.skip(cur + 1)) {
                    Some(t) => {
                        assert(dec_string_body(suffix) == Some((seq![c] + t.0, t.1 + 1)));
                        assert(out_prev + (seq![c] + t.0) =~= out@ + t.0);
                    },
                    None => {
                        assert(dec_string_body(suffix) is None);
                    },
                }
            }
            cur = cur + 1;
        }
    }
}

} // verus!
