//! The persisted snapshot: a JSON object whose keys are the entries'
//! identifiers written as decimal strings, in insertion order, each mapping
//! to an object with the entry's seven fields.  Raw texts are JSON strings;
//! derived outputs are JSON numbers, or `null` when absent or not finite
//! decimal text.  Decoding is exact: it accepts precisely this shape and
//! hands back the collection field for field.

use vstd::prelude::*;

use crate::digits::{digits_of, value_of_digits};
use crate::entry::EntryView;
use crate::escape::{dec_string, enc_string};
use crate::validation::{all_digit_chars, is_blank_text, is_decimal_text, is_digit_char,
    is_unsigned_decimal};

verus! {

pub open spec fn k_annual() -> Seq<char> {
    "{\"annual_savings_contribution_in_dollars\":"@
}

pub open spec fn k_desired() -> Seq<char> {
    ",\"desired_annual_retirement_income\":"@
}

pub open spec fn k_stash() -> Seq<char> {
    ",\"stash\":"@
}

pub open spec fn k_years() -> Seq<char> {
    ",\"years_to_retirement\":"@
}

pub open spec fn k_apr() -> Seq<char> {
    ",\"savings_apr\":"@
}

pub open spec fn k_swr() -> Seq<char> {
    ",\"safe_withdrawal_rate\":"@
}

pub open spec fn k_initial() -> Seq<char> {
    ",\"initial_retirement_savings_in_dollars\":"@
}

pub open spec fn null_text() -> Seq<char> {
    "null"@
}

/// A character that may stand in a JSON number token.
pub open spec fn is_number_char(c: char) -> bool {
    is_digit_char(c) || c == '-' || c == '.'
}

/// How a derived output is written: its decimal text, or `null` when it is
/// absent or not finite decimal text.
pub open spec fn enc_opt_number(t: Option<Seq<char>>) -> Seq<char> {
    match t {
        None => null_text(),
        Some(x) => if is_decimal_text(x) {
            x
        } else {
            null_text()
        },
    }
}

/// One entry object, fields in their fixed order.
pub open spec fn enc_entry(v: EntryView) -> Seq<char> {
    k_annual() + (enc_string(v.annual_savings_contribution_in_dollars) + (k_desired() + (
    enc_string(v.desired_annual_retirement_income) + (k_stash() + (enc_opt_number(v.stash) + (
    k_years() + (enc_opt_number(v.years_to_retirement) + (k_apr() + (enc_string(v.savings_apr) + (
    k_swr() + (enc_string(v.safe_withdrawal_rate) + (k_initial() + (enc_string(
        v.initial_retirement_savings_in_dollars,
    ) + seq!['}'])))))))))))))
}

/// One identifier with its entry object.
pub open spec fn enc_id_entry(p: (u128, EntryView)) -> Seq<char> {
    seq!['"'] + (digits_of(p.0 as int) + (seq!['"', ':'] + enc_entry(p.1)))
}

/// A nonempty run of entries, separated by commas.
pub open spec fn enc_entries(m: Seq<(u128, EntryView)>) -> Seq<char>
    decreases m.len(),
{
    if m.len() <= 1 {
        enc_id_entry(m[0])
    } else {
        enc_id_entry(m[0]) + (seq![','] + enc_entries(m.skip(1)))
    }
}

/// The whole snapshot.
pub open spec fn spec_encode(m: Seq<(u128, EntryView)>) -> Seq<char> {
    if m.len() == 0 {
        seq!['{'] + seq!['}']
    } else {
        seq!['{'] + (enc_entries(m) + seq!['}'])
    }
}

/// Expect the literal at the front of the text.
pub open spec fn dec_lit(s: Seq<char>, lit: Seq<char>) -> Option<int> {
    if lit.len() <= s.len() && s.subrange(0, lit.len() as int) == lit {
        Some(lit.len() as int)
    } else {
        None
    }
}

/// The length of the number token at the front of the text.
pub open spec fn num_token_len(s: Seq<char>) -> int
    decreases s.len(),
{
    if s.len() > 0 && is_number_char(s[0]) {
        1 + num_token_len(s.skip(1))
    } else {
        0
    }
}

/// Read a number token or the word `null` from the front of the text.
pub open spec fn dec_number(s: Seq<char>) -> Option<(Option<Seq<char>>, int)> {
    if s.len() >= 4 && s.subrange(0, 4) == null_text() {
        Some((None, 4))
    } else {
        let k = num_token_len(s);
        if k > 0 {
            Some((Some(s.subrange(0, k)), k))
        } else {
            None
        }
    }
}

/// Expect a key literal followed by a JSON string.
pub open spec fn dec_field_string(s: Seq<char>, key: Seq<char>) -> Option<(Seq<char>, int)> {
    match dec_lit(s, key) {
        None => None,
        Some(k1) => match dec_string(s.skip(k1)) {
            None => None,
            Some(t) => Some((t.0, k1 + t.1)),
        },
    }
}

/// Expect a key literal followed by a number token or `null`.
pub open spec fn dec_field_number(s: Seq<char>, key: Seq<char>) -> Option<(
    Option<Seq<char>>,
    int,
)> {
    match dec_lit(s, key) {
        None => None,
        Some(k1) => match dec_number(s.skip(k1)) {
            None => None,
            Some(t) => Some((t.0, k1 + t.1)),
        },
    }
}

/// Read one entry object from the front of the text.
pub open spec fn dec_entry(s: Seq<char>) -> Option<(EntryView, int)> {
    match dec_field_string(s, k_annual()) {
        None => None,
        Some((annual, c1)) => match dec_field_string(s.skip(c1), k_desired()) {
            None => None,
            Some((desired, c2)) => match dec_field_number(s.skip(c1 + c2), k_stash()) {
                None => None,
                Some((stash, c3)) => match dec_field_number(s.skip(c1 + c2 + c3), k_years()) {
                    None => None,
                    Some((years, c4)) => match dec_field_string(
                        s.skip(c1 + c2 + c3 + c4),
                        k_apr(),
                    ) {
                        None => None,
                        Some((apr, c5)) => match dec_field_string(
                            s.skip(c1 + c2 + c3 + c4 + c5),
                            k_swr(),
                        ) {
                            None => None,
                            Some((swr, c6)) => match dec_field_string(
                                s.skip(c1 + c2 + c3 + c4 + c5 + c6),
                                k_initial(),
                            ) {
                                None => None,
                                Some((initial, c7)) => {
                                    let c = c1 + c2 + c3 + c4 + c5 + c6 + c7;
                                    if 0 <= c && c < s.len() && s[c] == '}' {
                                        Some(
                                            (
                                                EntryView {
                                                    annual_savings_contribution_in_dollars: annual,
                                                    desired_annual_retirement_income: desired,
                                                    stash: stash,
                                                    years_to_retirement: years,
                                                    savings_apr: apr,
                                                    safe_withdrawal_rate: swr,
                                                    initial_retirement_savings_in_dollars: initial,
                                                },
                                                c + 1,
                                            ),
                                        )
                                    } else {
                                        None
                                    }
                                },
                            },
                        },
                    },
                },
            },
        },
    }
}

/// Read one identifier with its entry object from the front of the text.
pub open spec fn dec_id_entry(s: Seq<char>) -> Option<((u128, EntryView), int)> {
    if s.len() > 0 && s[0] == '"' {
        let nd = digit_run_len(s.skip(1));
        if nd > 0 && 2 + nd < s.len() && s[1 + nd] == '"' && s[2 + nd] == ':' {
            let v = value_of_digits(s.skip(1).subrange(0, nd));
            if v <= u128::MAX {
                match dec_entry(s.skip(3 + nd)) {
                    None => None,
                    Some((e, k)) => Some(((v as u128, e), 3 + nd + k)),
                }
            } else {
                None
            }
        } else {
            None
        }
    } else {
        None
    }
}

/// The length of the digit run at the front of the text.
pub open spec fn digit_run_len(s: Seq<char>) -> int
    decreases s.len(),
{
    if s.len() > 0 && is_digit_char(s[0]) {
        1 + digit_run_len(s.skip(1))
    } else {
        0
    }
}

/// Read a comma-separated run of identified entries.
pub open spec fn dec_entries(s: Seq<char>) -> Option<(Seq<(u128, EntryView)>, int)>
    decreases s.len(),
{
    match dec_id_entry(s) {
        None => None,
        Some((p, k)) => if 0 <= k && k < s.len() && s[k] == ',' {
            match dec_entries(s.skip(k + 1)) {
                None => None,
                Some((m, k2)) => Some((seq![p] + m, k + 1 + k2)),
            }
        } else {
            Some((seq![p], k))
        },
    }
}

/// Read the whole snapshot object from the front of the text.
pub open spec fn dec_collection(s: Seq<char>) -> Option<(Seq<(u128, EntryView)>, int)> {
    if s.len() >= 2 && s[0] == '{' && s[1] == '}' {
        Some((Seq::empty(), 2))
    } else if s.len() > 0 && s[0] == '{' {
        match dec_entries(s.skip(1)) {
            None => None,
            Some((m, k)) => if 0 <= k && k + 1 < s.len() && s[k + 1] == '}' {
                Some((m, k + 2))
            } else {
                None
            },
        }
    } else {
        None
    }
}

/// No two pairs carry the same key.
pub open spec fn pairs_distinct(m: Seq<(u128, EntryView)>) -> bool {
    forall|i: int, j: int| 0 <= i < j < m.len() ==> (#[trigger] m[i]).0 != (#[trigger] m[j]).0
}

/// What a snapshot text denotes: the pair sequence, provided the whole text
/// is consumed and the identifiers are unique.
pub open spec fn spec_decode(s: Seq<char>) -> Option<Seq<(u128, EntryView)>> {
    match dec_collection(s) {
        None => None,
        Some((m, k)) => if k == s.len() && pairs_distinct(m) {
            Some(m)
        } else {
            None
        },
    }
}

/// Both derived tokens, where present, are finite decimal text — the one
/// shape the snapshot can carry as a JSON number.
pub open spec fn entry_tokens_finite(v: EntryView) -> bool {
    &&& (v.stash matches Some(x) ==> is_decimal_text(x))
    &&& (v.years_to_retirement matches Some(x) ==> is_decimal_text(x))
}

proof fn lemma_strlit_shapes()
    ensures
        null_text().len() == 4,
        null_text()[0] == 'n',
        k_years().len() > 0,
        k_years()[0] == ',',
        k_apr().len() > 0,
        k_apr()[0] == ',',
{
    reveal_strlit("null");
    reveal_strlit(",\"years_to_retirement\":");
    reveal_strlit(",\"savings_apr\":");
}

/// Peeling a prefix off a concatenation.
proof fn lemma_peel(a: Seq<char>, b: Seq<char>)
    ensures
        (a + b).skip(a.len() as int) == b,
        dec_lit(a + b, a) == Some(a.len() as int),
{
    assert((a + b).skip(a.len() as int) =~= b);
    assert((a + b).subrange(0, a.len() as int) =~= a);
}

/// Reshaping `(a + (b + c)) + d` into its fully right-nested form.
proof fn lemma_assoc(a: Seq<char>, b: Seq<char>, c: Seq<char>)
    ensures
        (a + b) + c == a + (b + c),
{
    assert((a + b) + c =~= a + (b + c));
}

proof fn lemma_unsigned_chars(u: Seq<char>)
    requires
        is_unsigned_decimal(u),
    ensures
        u.len() > 0,
        forall|j: int| 0 <= j < u.len() ==> is_number_char(#[trigger] u[j]),
        is_digit_char(u[0]),
{
    if u.len() > 0 && all_digit_chars(u) {
        assert(forall|j: int| 0 <= j < u.len() ==> is_number_char(#[trigger] u[j]));
    } else {
        let i = choose|i: int|
            1 <= i && i + 1 < u.len() && #[trigger] u[i] == '.' && all_digit_chars(
                u.subrange(0, i),
            ) && all_digit_chars(u.subrange(i + 1, u.len() as int));
        assert forall|j: int| 0 <= j < u.len() implies is_number_char(#[trigger] u[j]) by {
            if j < i {
                assert(u.subrange(0, i)[j] == u[j]);
                assert(is_digit_char(u.subrange(0, i)[j]));
            } else if j > i {
                assert(u.subrange(i + 1, u.len() as int)[j - i - 1] == u[j]);
                assert(is_digit_char(u.subrange(i + 1, u.len() as int)[j - i - 1]));
            }
        }
        assert(u.subrange(0, i)[0] == u[0]);
        assert(is_digit_char(u.subrange(0, i)[0]));
    }
}

/// A decimal numeral is nonempty, starts with a minus sign or a digit, and
/// holds number characters alone.
proof fn lemma_decimal_chars(x: Seq<char>)
    requires
        is_decimal_text(x),
    ensures
        x.len() > 0,
        forall|j: int| 0 <= j < x.len() ==> is_number_char(#[trigger] x[j]),
        x[0] == '-' || is_digit_char(x[0]),
{
    if x.len() > 0 && x[0] == '-' {
        lemma_unsigned_chars(x.skip(1));
        assert forall|j: int| 0 <= j < x.len() implies is_number_char(#[trigger] x[j]) by {
            if j >= 1 {
                assert(x.skip(1)[j - 1] == x[j]);
            }
        }
    } else {
        if x.len() == 0 {
            assert(x.skip(0) =~= x);
            lemma_unsigned_chars(x);
        } else {
            lemma_unsigned_chars(x);
        }
    }
}

/// A token of number characters followed by anything else scans back as
/// exactly itself.
proof fn lemma_num_token_concat(x: Seq<char>, rest: Seq<char>)
    requires
        forall|j: int| 0 <= j < x.len() ==> is_number_char(#[trigger] x[j]),
        rest.len() > 0,
        !is_number_char(rest[0]),
    ensures
        num_token_len(x + rest) == x.len(),
    decreases x.len(),
{
    let s = x + rest;
    if x.len() == 0 {
        assert(s =~= rest);
    } else {
        assert(s[0] == x[0]);
        assert(s.skip(1) =~= x.skip(1) + rest);
        lemma_num_token_concat(x.skip(1), rest);
    }
}

/// A run of digits followed by anything else scans back as exactly itself.
proof fn lemma_digit_run_concat(x: Seq<char>, rest: Seq<char>)
    requires
        all_digit_chars(x),
        rest.len() > 0,
        !is_digit_char(rest[0]),
    ensures
        digit_run_len(x + rest) == x.len(),
    decreases x.len(),
{
    let s = x + rest;
    if x.len() == 0 {
        assert(s =~= rest);
    } else {
        assert(s[0] == x[0]);
        assert(s.skip(1) =~= x.skip(1) + rest);
        assert(all_digit_chars(x.skip(1))) by {
            assert(forall|j: int| 0 <= j < x.skip(1).len() ==> #[trigger] x.skip(1)[j] == x[j + 1]);
        }
        lemma_digit_run_concat(x.skip(1), rest);
    }
}

proof fn lemma_dec_field_string(key: Seq<char>, x: Seq<char>, rest: Seq<char>)
    ensures
        dec_field_string(key + (enc_string(x) + rest), key) == Some(
            (x, key.len() + enc_string(x).len() as int),
        ),
        (key + (enc_string(x) + rest)).skip(key.len() + enc_string(x).len() as int) == rest,
{
    let s = key + (enc_string(x) + rest);
    lemma_peel(key, enc_string(x) + rest);
    let t = enc_string(x) + rest;
    assert(t[0] == '"');
    assert(t.skip(1) =~= (crate::escape::escape(x) + seq!['"']) + rest);
    crate::escape::lemma_dec_escape(x, rest);
    assert(dec_string(t) == Some((x, enc_string(x).len() as int)));
    assert(s.skip(key.len() + enc_string(x).len() as int) =~= rest);
}

proof fn lemma_dec_field_number(key: Seq<char>, t: Option<Seq<char>>, rest: Seq<char>)
    requires
        t matches Some(x) ==> is_decimal_text(x),
        rest.len() > 0,
        !is_number_char(rest[0]),
        rest[0] != 'n',
    ensures
        dec_field_number(key + (enc_opt_number(t) + rest), key) == Some(
            (t, key.len() + enc_opt_number(t).len() as int),
        ),
        (key + (enc_opt_number(t) + rest)).skip(key.len() + enc_opt_number(t).len() as int)
            == rest,
{
    lemma_strlit_shapes();
    let s = key + (enc_opt_number(t) + rest);
    lemma_peel(key, enc_opt_number(t) + rest);
    let u = enc_opt_number(t) + rest;
    match t {
        None => {
            assert(u.subrange(0, 4) =~= null_text());
        },
        Some(x) => {
            lemma_decimal_chars(x);
            assert(u[0] == x[0]);
            if u.len() >= 4 && u.subrange(0, 4) == null_text() {
                assert(u.subrange(0, 4)[0] == u[0]);
                assert(false);
            }
            lemma_num_token_concat(x, rest);
            assert(u.subrange(0, x.len() as int) =~= x);
        },
    }
    assert(s.skip(key.len() + enc_opt_number(t).len() as int) =~= rest);
}

/// Composing two skips.
proof fn lemma_skip_sum(s: Seq<char>, a: int, b: int)
    requires
        0 <= a,
        0 <= b,
        a + b <= s.len(),
    ensures
        s.skip(a).skip(b) == s.skip(a + b),
{
    assert(s.skip(a).skip(b) =~= s.skip(a + b));
}

#[verifier::rlimit(100)]
proof fn lemma_dec_entry(v: EntryView, rest: Seq<char>)
    requires
        entry_tokens_finite(v),
    ensures
        dec_entry(enc_entry(v) + rest) == Some((v, enc_entry(v).len() as int)),
{
    lemma_strlit_shapes();
    let ea = enc_string(v.annual_savings_contribution_in_dollars);
    let ed = enc_string(v.desired_annual_retirement_income);
    let es = enc_opt_number(v.stash);
    let ey = enc_opt_number(v.years_to_retirement);
    let ep = enc_string(v.savings_apr);
    let ew = enc_string(v.safe_withdrawal_rate);
    let ei = enc_string(v.initial_retirement_savings_in_dollars);
    // The nesting of the encoder, innermost first.
    let m1: Seq<char> = ei + seq!['}'];
    let m2: Seq<char> = k_initial() + m1;
    let m3: Seq<char> = ew + m2;
    let m4: Seq<char> = k_swr() + m3;
    let m5: Seq<char> = ep + m4;
    let m6: Seq<char> = k_apr() + m5;
    let m7: Seq<char> = ey + m6;
    let m8: Seq<char> = k_years() + m7;
    let m9: Seq<char> = es + m8;
    let m10: Seq<char> = k_stash() + m9;
    let m11: Seq<char> = ed + m10;
    let m12: Seq<char> = k_desired() + m11;
    let m13: Seq<char> = ea + m12;
    assert(enc_entry(v) == k_annual() + m13);
    let s = enc_entry(v) + rest;
    // The same nesting with the trailing text attached.
    let w1: Seq<char> = m1 + rest;
    let w2: Seq<char> = m2 + rest;
    let w3: Seq<char> = m3 + rest;
    let w4: Seq<char> = m4 + rest;
    let w5: Seq<char> = m5 + rest;
    let w6: Seq<char> = m6 + rest;
    let w7: Seq<char> = m7 + rest;
    let w8: Seq<char> = m8 + rest;
    let w9: Seq<char> = m9 + rest;
    let w10: Seq<char> = m10 + rest;
    let w11: Seq<char> = m11 + rest;
    let w12: Seq<char> = m12 + rest;
    let w13: Seq<char> = m13 + rest;
    lemma_assoc(k_annual(), m13, rest);
    lemma_assoc(ea, m12, rest);
    lemma_assoc(k_desired(), m11, rest);
    lemma_assoc(ed, m10, rest);
    lemma_assoc(k_stash(), m9, rest);
    lemma_assoc(es, m8, rest);
    lemma_assoc(k_years(), m7, rest);
    lemma_assoc(ey, m6, rest);
    lemma_assoc(k_apr(), m5, rest);
    lemma_assoc(ep, m4, rest);
    lemma_assoc(k_swr(), m3, rest);
    lemma_assoc(ew, m2, rest);
    lemma_assoc(k_initial(), m1, rest);
    lemma_assoc(ei, seq!['}'], rest);
    assert(s == k_annual() + w13);
    assert(w13 == ea + w12);
    assert(w12 == k_desired() + w11);
    assert(w11 == ed + w10);
    assert(w10 == k_stash() + w9);
    assert(w9 == es + w8);
    assert(w8 == k_years() + w7);
    assert(w7 == ey + w6);
    assert(w6 == k_apr() + w5);
    assert(w5 == ep + w4);
    assert(w4 == k_swr() + w3);
    assert(w3 == ew + w2);
    assert(w2 == k_initial() + w1);
    assert(w1 == ei + (seq!['}'] + rest));

    // field 1: annual (string)
    lemma_dec_field_string(k_annual(), v.annual_savings_contribution_in_dollars, w12);
    let c1 = k_annual().len() + ea.len() as int;
    assert(dec_field_string(s, k_annual()) == Some(
        (v.annual_savings_contribution_in_dollars, c1),
    ));
    assert(s.skip(c1) == w12);

    // field 2: desired (string)
    lemma_dec_field_string(k_desired(), v.desired_annual_retirement_income, w10);
    let c2 = k_desired().len() + ed.len() as int;
    assert(w12.skip(c2) == w10);
    lemma_skip_sum(s, c1, c2);
    assert(s.skip(c1 + c2) == w10);

    // field 3: stash (number)
    assert(w8.len() > 0 && w8[0] == ',');
    lemma_dec_field_number(k_stash(), v.stash, w8);
    let c3 = k_stash().len() + es.len() as int;
    assert(w10.skip(c3) == w8);
    lemma_skip_sum(s, c1 + c2, c3);
    assert(s.skip(c1 + c2 + c3) == w8);

    // field 4: years (number)
    assert(w6.len() > 0 && w6[0] == ',');
    lemma_dec_field_number(k_years(), v.years_to_retirement, w6);
    let c4 = k_years().len() + ey.len() as int;
    assert(w8.skip(c4) == w6);
    lemma_skip_sum(s, c1 + c2 + c3, c4);
    assert(s.skip(c1 + c2 + c3 + c4) == w6);

    // field 5: apr (string)
    lemma_dec_field_string(k_apr(), v.savings_apr, w4);
    let c5 = k_apr().len() + ep.len() as int;
    assert(w6.skip(c5) == w4);
    lemma_skip_sum(s, c1 + c2 + c3 + c4, c5);
    assert(s.skip(c1 + c2 + c3 + c4 + c5) == w4);

    // field 6: swr (string)
    lemma_dec_field_string(k_swr(), v.safe_withdrawal_rate, w2);
    let c6 = k_swr().len() + ew.len() as int;
    assert(w4.skip(c6) == w2);
    lemma_skip_sum(s, c1 + c2 + c3 + c4 + c5, c6);
    assert(s.skip(c1 + c2 + c3 + c4 + c5 + c6) == w2);

    // field 7: initial (string)
    lemma_dec_field_string(k_initial(), v.initial_retirement_savings_in_dollars, seq!['}'] + rest);
    let c7 = k_initial().len() + ei.len() as int;
    assert(w2.skip(c7) == seq!['}'] + rest);
    let c = c1 + c2 + c3 + c4 + c5 + c6 + c7;
    lemma_skip_sum(s, c1 + c2 + c3 + c4 + c5 + c6, c7);
    assert(s.skip(c) == seq!['}'] + rest);
    assert(s[c] == '}') by {
        assert(s.skip(c)[0] == s[c]);
        assert((seq!['}'] + rest)[0] == '}');
    }
    assert(enc_entry(v).len() == c + 1);
    assert(dec_entry(s) == Some((v, c + 1 as int)));
}

#[verifier::rlimit(60)]
proof fn lemma_dec_id_entry(p: (u128, EntryView), rest: Seq<char>)
    requires
        entry_tokens_finite(p.1),
    ensures
        dec_id_entry(enc_id_entry(p) + rest) == Some((p, enc_id_entry(p).len() as int)),
        (enc_id_entry(p) + rest).skip(enc_id_entry(p).len() as int) == rest,
{
    let ds = digits_of(p.0 as int);
    crate::digits::lemma_digits_round_trip(p.0 as int);
    let s = enc_id_entry(p) + rest;
    assert(s =~= seq!['"'] + (ds + (seq!['"', ':'] + (enc_entry(p.1) + rest))));
    assert(s[0] == '"');
    let tail1 = ds + (seq!['"', ':'] + (enc_entry(p.1) + rest));
    assert(s.skip(1) =~= tail1);
    assert((seq!['"', ':'] + (enc_entry(p.1) + rest))[0] == '"');
    lemma_digit_run_concat(ds, seq!['"', ':'] + (enc_entry(p.1) + rest));
    let nd = ds.len() as int;
    assert(digit_run_len(s.skip(1)) == nd);
    assert(s.skip(1).subrange(0, nd) =~= ds);
    assert(value_of_digits(ds) == p.0 as int);
    assert(s[1 + nd] == '"' && s[2 + nd] == ':') by {
        assert(s.skip(1)[nd] == s[1 + nd]);
        assert(s.skip(1)[nd + 1] == s[2 + nd]);
        assert(tail1[nd] == (seq!['"', ':'] + (enc_entry(p.1) + rest))[0]);
        assert(tail1[nd + 1] == (seq!['"', ':'] + (enc_entry(p.1) + rest))[1]);
    }
    assert(2 + nd < s.len());
    lemma_dec_entry(p.1, rest);
    assert(s.skip(3 + nd) =~= enc_entry(p.1) + rest);
    assert(enc_id_entry(p).len() == 3 + nd + enc_entry(p.1).len());
    assert(s.skip(enc_id_entry(p).len() as int) =~= rest);
}

#[verifier::rlimit(60)]
proof fn lemma_dec_entries(m: Seq<(u128, EntryView)>, rest: Seq<char>)
    requires
        m.len() >= 1,
        forall|i: int| 0 <= i < m.len() ==> entry_tokens_finite((#[trigger] m[i]).1),
        rest.len() > 0,
        rest[0] == '}',
    ensures
        dec_entries(enc_entries(m) + rest) == Some((m, enc_entries(m).len() as int)),
    decreases m.len(),
{
    let s = enc_entries(m) + rest;
    if m.len() == 1 {
        lemma_dec_id_entry(m[0], rest);
        let k = enc_id_entry(m[0]).len() as int;
        assert(s == enc_id_entry(m[0]) + rest);
        assert(s.skip(k) == rest);
        assert(s[k] == rest[0]) by {
            assert(s.skip(k)[0] == s[k]);
        }
        assert(seq![m[0]] =~= m);
    } else {
        let tail = enc_entries(m.skip(1));
        let inner = seq![','] + tail;
        assert(enc_entries(m) == enc_id_entry(m[0]) + inner);
        lemma_assoc(enc_id_entry(m[0]), inner, rest);
        assert(s == enc_id_entry(m[0]) + (inner + rest));
        lemma_dec_id_entry(m[0], inner + rest);
        let k = enc_id_entry(m[0]).len() as int;
        assert(dec_id_entry(s) == Some((m[0], k)));
        assert(s.skip(k) == inner + rest);
        assert(s[k] == ',') by {
            assert(s.skip(k)[0] == s[k]);
            assert((inner + rest)[0] == inner[0]);
            assert(inner[0] == ',');
        }
        assert(k < s.len());
        lemma_assoc(seq![','], tail, rest);
        lemma_skip_sum(s, k, 1);
        assert(s.skip(k + 1) == tail + rest) by {
            lemma_peel(seq![','], tail + rest);
            assert(inner + rest == seq![','] + (tail + rest));
        }
        assert forall|i: int| 0 <= i < m.skip(1).len() implies entry_tokens_finite(
            (#[trigger] m.skip(1)[i]).1,
        ) by {
            assert(m.skip(1)[i] == m[i + 1]);
        }
        lemma_dec_entries(m.skip(1), rest);
        assert(seq![m[0]] + m.skip(1) =~= m);
        assert(enc_entries(m).len() == k + 1 + tail.len());
    }
}

/// The snapshot round trip: decoding what was encoded gives back the very
/// collection, field for field and in order — for every collection whose
/// identifiers are unique and whose present derived tokens are finite
/// decimal text.
pub proof fn lemma_round_trip(m: Seq<(u128, EntryView)>)
    requires
        pairs_distinct(m),
        forall|i: int| 0 <= i < m.len() ==> entry_tokens_finite((#[trigger] m[i]).1),
    ensures
        spec_decode(spec_encode(m)) == Some(m),
{
    let s = spec_encode(m);
    if m.len() == 0 {
        assert(s[0] == '{' && s[1] == '}');
        assert(s.len() == 2);
        assert(Seq::<(u128, EntryView)>::empty() =~= m);
    } else {
        let ee = enc_entries(m);
        assert(s == seq!['{'] + (ee + seq!['}']));
        lemma_dec_entries(m, seq!['}']);
        assert(ee[0] == '"') by {
            if m.len() == 1 {
                assert(ee == enc_id_entry(m[0]));
            }
            assert(enc_id_entry(m[0])[0] == '"');
        }
        assert(s[0] == '{');
        assert(s[1] == ee[0]) by {
            assert((ee + seq!['}'])[0] == ee[0]);
        }
        assert(ee.len() > 0);
        assert(s.skip(1) =~= ee + seq!['}']);
        let k = ee.len() as int;
        assert(dec_entries(s.skip(1)) == Some((m, k)));
        assert(s[k + 1] == '}') by {
            assert((ee + seq!['}'])[k] == '}');
            assert(s.skip(1)[k] == s[k + 1]);
        }
        assert(k + 1 < s.len());
        assert(dec_collection(s) == Some((m, k + 2)));
        assert(s.len() == k + 2);
    }
}

/// A decimal numeral is exactly what the validation engine calls valid.
proof fn lemma_valid_iff_decimal(x: Seq<char>)
    ensures
        (crate::validation::validate_text(x) == crate::validation::Validation::Valid)
            <==> is_decimal_text(x),
{
    if is_decimal_text(x) {
        lemma_decimal_chars(x);
        assert(!crate::validation::is_space_char(x[0]));
        assert(!is_blank_text(x));
    }
}

/// Append a derived output: its decimal text, or `null`.
fn write_number(tok: &Option<String>, out: &mut String)
    ensures
        final(out)@ == old(out)@ + enc_opt_number(match tok {
            Some(x) => Some(x@),
            None => None,
        }),
{
    match tok {
        None => {
            out.append("null");
        },
        Some(x) => {
            proof {
                lemma_valid_iff_decimal(x@);
            }
            if crate::validation::parse(x.as_str()) == crate::validation::Validation::Valid {
                out.append(x.as_str());
            } else {
                out.append("null");
            }
        },
    }
}

/// Append one entry object.
#[verifier::rlimit(100)]
#[verifier::spinoff_prover]
fn write_entry(m: &crate::entry::Model, out: &mut String)
    ensures
        final(out)@ == old(out)@ + enc_entry(m@),
{
    let ghost o0 = out@;
    out.append("{\"annual_savings_contribution_in_dollars\":");
    let ghost o1 = out@;
    crate::escape::write_json_string(m.annual_savings_contribution_in_dollars.as_str(), out);
    let ghost o2 = out@;
    out.append(",\"desired_annual_retirement_income\":");
    let ghost o3 = out@;
    crate::escape::write_json_string(m.desired_annual_retirement_income.as_str(), out);
    let ghost o4 = out@;
    out.append(",\"stash\":");
    let ghost o5 = out@;
    write_number(&m.stash, out);
    let ghost o6 = out@;
    out.append(",\"years_to_retirement\":");
    let ghost o7 = out@;
    write_number(&m.years_to_retirement, out);
    let ghost o8 = out@;
    out.append(",\"savings_apr\":");
    let ghost o9 = out@;
    crate::escape::write_json_string(m.savings_apr.as_str(), out);
    let ghost o10 = out@;
    out.append(",\"safe_withdrawal_rate\":");
    let ghost o11 = out@;
    crate::escape::write_json_string(m.safe_withdrawal_rate.as_str(), out);
    let ghost o12 = out@;
    out.append(",\"initial_retirement_savings_in_dollars\":");
    let ghost o13 = out@;
    crate::escape::write_json_string(m.initial_retirement_savings_in_dollars.as_str(), out);
    let ghost o14 = out@;
    crate::outside::push_char(out, '}');
    proof {
        let v = m@;
        let ea = enc_string(v.annual_savings_contribution_in_dollars);
        let ed = enc_string(v.desired_annual_retirement_income);
        let es = enc_opt_number(v.stash);
        let ey = enc_opt_number(v.years_to_retirement);
        let ep = enc_string(v.savings_apr);
        let ew = enc_string(v.safe_withdrawal_rate);
        let ei = enc_string(v.initial_retirement_savings_in_dollars);
        let t1: Seq<char> = seq!['}'];
        assert(out@ == o14 + t1) by {
            assert(o14.push('}') =~= o14 + t1);
        }
        let t2: Seq<char> = ei + t1;
        assert(out@ == o13 + t2) by {
            assert((o13 + ei) + t1 =~= o13 + t2);
        }
        let t3: Seq<char> = k_initial() + t2;
        assert(out@ == o12 + t3) by {
            assert((o12 + k_initial()) + t2 =~= o12 + t3);
        }
        let t4: Seq<char> = ew + t3;
        assert(out@ == o11 + t4) by {
            assert((o11 + ew) + t3 =~= o11 + t4);
        }
        let t5: Seq<char> = k_swr() + t4;
        assert(out@ == o10 + t5) by {
            assert((o10 + k_swr()) + t4 =~= o10 + t5);
        }
        let t6: Seq<char> = ep + t5;
        assert(out@ == o9 + t6) by {
            assert((o9 + ep) + t5 =~= o9 + t6);
        }
        let t7: Seq<char> = k_apr() + t6;
        assert(out@ == o8 + t7) by {
            assert((o8 + k_apr()) + t6 =~= o8 + t7);
        }
        let t8: Seq<char> = ey + t7;
        assert(out@ == o7 + t8) by {
            assert((o7 + ey) + t7 =~= o7 + t8);
        }
        let t9: Seq<char> = k_years() + t8;
        assert(out@ == o6 + t9) by {
            assert((o6 + k_years()) + t8 =~= o6 + t9);
        }
        let t10: Seq<char> = es + t9;
        assert(out@ == o5 + t10) by {
            assert((o5 + es) + t9 =~= o5 + t10);
        }
        let t11: Seq<char> = k_stash() + t10;
        assert(out@ == o4 + t11) by {
            assert((o4 + k_stash()) + t10 =~= o4 + t11);
        }
        let t12: Seq<char> = ed + t11;
        assert(out@ == o3 + t12) by {
            assert((o3 + ed) + t11 =~= o3 + t12);
        }
        let t13: Seq<char> = k_desired() + t12;
        assert(out@ == o2 + t13) by {
            assert((o2 + k_desired()) + t12 =~= o2 + t13);
        }
        let t14: Seq<char> = ea + t13;
        assert(out@ == o1 + t14) by {
            assert((o1 + ea) + t13 =~= o1 + t14);
        }
        let t15: Seq<char> = k_annual() + t14;
        assert(out@ == o0 + t15) by {
            assert((o0 + k_annual()) + t14 =~= o0 + t15);
        }
        assert(t15 == enc_entry(v));
    }
}

/// Append one identifier with its entry object.
fn write_id_entry(id: u128, m: &crate::entry::Model, out: &mut String)
    ensures
        final(out)@ == old(out)@ + enc_id_entry((id, m@)),
{
    crate::outside::push_char(out, '"');
    crate::digits::write_digits(id, out);
    crate::outside::push_char(out, '"');
    crate::outside::push_char(out, ':');
    write_entry(m, out);
    proof {
        assert(out@ =~= old(out)@ + enc_id_entry((id, m@)));
    }
}

/// Append the entries from position `j` on, separated by commas.
fn write_entries(v: &Vec<(u128, crate::entry::Model)>, j: usize, out: &mut String)
    requires
        j < v@.len(),
    ensures
        final(out)@ == old(out)@ + enc_entries(crate::collection::view_of(v@).skip(j as int)),
    decreases v@.len() - j,
{
    let ghost w = crate::collection::view_of(v@);
    let p = &v[j];
    write_id_entry(p.0, &p.1, out);
    proof {
        assert(w[j as int] == (v@[j as int].0, v@[j as int].1@));
        assert(w.skip(j as int)[0] == w[j as int]);
    }
    let n = v.len();
    if j + 1 < n {
        crate::outside::push_char(out, ',');
        write_entries(v, j + 1, out);
        proof {
            assert(w.skip(j as int).len() > 1);
            assert(w.skip(j as int).skip(1) =~= w.skip(j + 1));
            assert(enc_entries(w.skip(j as int)) == enc_id_entry(w[j as int]) + (seq![',']
                + enc_entries(w.skip(j + 1))));
            assert(out@ =~= old(out)@ + enc_entries(w.skip(j as int)));
        }
    } else {
        proof {
            assert(w.skip(j as int).len() == 1);
            assert(out@ == old(out)@ + enc_id_entry(w[j as int]));
        }
    }
}

impl crate::collection::Collection {
    /// The persisted snapshot of the whole collection, as JSON text.
    pub fn encode(&self) -> (r: String)
        ensures
            r@ == spec_encode(self@),
    {
        let v = self.entries_vec();
        proof {
            assert(crate::collection::view_of(v@) =~= self@) by {
                assert forall|i: int| 0 <= i < v@.len() implies crate::collection::view_of(
                    v@,
                )[i] == self@[i] by {
                    assert(crate::collection::view_of(v@)[i] == (v@[i].0, v@[i].1@));
                    assert(self@[i] == (self@[i].0, self@[i].1));
                }
            }
        }
        let mut out = String::new();
        crate::outside::push_char(&mut out, '{');
        if v.len() > 0 {
            write_entries(&v, 0, &mut out);
            proof {
                assert(self@.skip(0) =~= self@);
            }
        }
        crate::outside::push_char(&mut out, '}');
        proof {
            assert(out@ =~= spec_encode(self@));
        }
        out
    }
}

/// The characters of a text, one by one.
fn to_chars(text: &str) -> (v: Vec<char>)
    ensures
        v@ == text@,
{
    let n = text.unicode_len();
    let mut v: Vec<char> = Vec::new();
    let mut i: usize = 0;
    while i < n
        invariant
            0 <= i <= n,
            n == text@.len(),
            v@ == text@.subrange(0, i as int),
        decreases n - i,
    {
        v.push(text.get_char(i));
        proof {
            assert(text@.subrange(0, i + 1) =~= text@.subrange(0, i as int).push(
                text@[i as int],
            ));
        }
        i += 1;
    }
    proof {
        assert(text@.subrange(0, n as int) =~= text@);
    }
    v
}

/// Expect the literal at position `i`.
fn read_lit(s: &Vec<char>, i: usize, lit: &str) -> (r: Option<usize>)
    requires
        i <= s@.len(),
    ensures
        r is Some <==> dec_lit(s@.skip(i as int), lit@) is Some,
        r matches Some(j) ==> dec_lit(s@.skip(i as int), lit@) matches Some(k) && j as int == i
            + k && i <= j <= s@.len(),
{
    let ghost s0 = s@.skip(i as int);
    let ln = lit.unicode_len();
    let n = s.len();
    if n - i < ln {
        proof {
            assert(s0.len() < lit@.len());
        }
        return None;
    }
    let mut j: usize = 0;
    while j < ln
        invariant
            0 <= j <= ln,
            i <= s@.len(),
            ln <= s@.len() - i,
            n == s@.len(),
            ln == lit@.len(),
            s0 == s@.skip(i as int),
            forall|jj: int| 0 <= jj < j ==> s0[jj] == lit@[jj],
        decreases ln - j,
    {
        let c = s[i + j];
        proof {
            assert(s0[j as int] == s@[i + j]);
        }
        if c != lit.get_char(j) {
            proof {
                if dec_lit(s0, lit@) is Some {
                    assert(s0.subrange(0, lit@.len() as int) == lit@);
                    assert(s0.subrange(0, lit@.len() as int)[j as int] == s0[j as int]);
                }
            }
            return None;
        }
        j += 1;
    }
    proof {
        assert(s0.subrange(0, lit@.len() as int) =~= lit@);
    }
    Some(i + ln)
}

/// The first position at or after `from` that holds no number character.
fn scan_number_chars(s: &Vec<char>, from: usize) -> (r: usize)
    requires
        from <= s@.len(),
    ensures
        from <= r <= s@.len(),
        forall|j: int| from <= j < r ==> is_number_char(#[trigger] s@[j]),
        r < s@.len() ==> !is_number_char(s@[r as int]),
{
    let n = s.len();
    let mut i = from;
    while i < n
        invariant
            from <= i <= n,
            n == s@.len(),
            forall|j: int| from <= j < i ==> is_number_char(#[trigger] s@[j]),
        decreases n - i,
    {
        let c = s[i];
        if !(('0' <= c && c <= '9') || c == '-' || c == '.') {
            proof {
                assert(!is_number_char(s@[i as int]));
            }
            return i;
        }
        i += 1;
    }
    i
}

/// The first position at or after `from` that holds no digit.
fn scan_digit_chars(s: &Vec<char>, from: usize) -> (r: usize)
    requires
        from <= s@.len(),
    ensures
        from <= r <= s@.len(),
        forall|j: int| from <= j < r ==> is_digit_char(#[trigger] s@[j]),
        r < s@.len() ==> !is_digit_char(s@[r as int]),
{
    let n = s.len();
    let mut i = from;
    while i < n
        invariant
            from <= i <= n,
            n == s@.len(),
            forall|j: int| from <= j < i ==> is_digit_char(#[trigger] s@[j]),
        decreases n - i,
    {
        let c = s[i];
        if !('0' <= c && c <= '9') {
            return i;
        }
        i += 1;
    }
    i
}

/// A scanned stretch of number characters is exactly the token the reader
/// sees.
proof fn lemma_num_token_range(s: Seq<char>, i: int, r: int)
    requires
        0 <= i <= r <= s.len(),
        forall|j: int| i <= j < r ==> is_number_char(#[trigger] s[j]),
        r < s.len() ==> !is_number_char(s[r]),
    ensures
        num_token_len(s.skip(i)) == r - i,
    decreases r - i,
{
    if i == r {
        if r < s.len() {
            assert(s.skip(i)[0] == s[i]);
        }
    } else {
        assert(s.skip(i)[0] == s[i]);
        assert(s.skip(i).skip(1) =~= s.skip(i + 1));
        lemma_num_token_range(s, i + 1, r);
    }
}

/// A scanned stretch of digits is exactly the run the reader sees.
proof fn lemma_digit_run_range(s: Seq<char>, i: int, r: int)
    requires
        0 <= i <= r <= s.len(),
        forall|j: int| i <= j < r ==> is_digit_char(#[trigger] s[j]),
        r < s.len() ==> !is_digit_char(s[r]),
    ensures
        digit_run_len(s.skip(i)) == r - i,
    decreases r - i,
{
    if i == r {
        if r < s.len() {
            assert(s.skip(i)[0] == s[i]);
        }
    } else {
        assert(s.skip(i)[0] == s[i]);
        assert(s.skip(i).skip(1) =~= s.skip(i + 1));
        lemma_digit_run_range(s, i + 1, r);
    }
}

/// Read a number token or the word `null` at position `i`.
fn read_number(s: &Vec<char>, i: usize) -> (r: Option<(Option<String>, usize)>)
    requires
        i <= s@.len(),
    ensures
        r is Some <==> dec_number(s@.skip(i as int)) is Some,
        r matches Some(p) ==> dec_number(s@.skip(i as int)) matches Some(t) && p.1 as int == i
            + t.1 && i < p.1 <= s@.len() && (match (p.0, t.0) {
            (None, None) => true,
            (Some(tok), Some(x)) => tok@ == x,
            _ => false,
        }),
{
    proof {
        reveal_strlit("null");
    }
    let ghost s0 = s@.skip(i as int);
    match read_lit(s, i, "null") {
        Some(j) => {
            proof {
                assert(s0.subrange(0, 4) == null_text());
            }
            return Some((None, j));
        },
        None => {},
    }
    proof {
        assert(!(s0.len() >= 4 && s0.subrange(0, 4) == null_text()));
    }
    let cur = scan_number_chars(s, i);
    proof {
        lemma_num_token_range(s@, i as int, cur as int);
    }
    if cur == i {
        return None;
    }
    let mut tok = String::new();
    let mut j = i;
    while j < cur
        invariant
            i <= j <= cur <= s@.len(),
            tok@ == s@.subrange(i as int, j as int),
        decreases cur - j,
    {
        crate::outside::push_char(&mut tok, s[j]);
        proof {
            assert(s@.subrange(i as int, j + 1) =~= s@.subrange(i as int, j as int).push(
                s@[j as int],
            ));
        }
        j += 1;
    }
    proof {
        assert(s0.subrange(0, cur - i) =~= s@.subrange(i as int, cur as int));
    }
    Some((Some(tok), cur))
}


/// Expect a key literal followed by a JSON string, at position `i`.
fn read_field_string(s: &Vec<char>, i: usize, lit: &str) -> (r: Option<(String, usize)>)
    requires
        i <= s@.len(),
    ensures
        r is Some <==> dec_field_string(s@.skip(i as int), lit@) is Some,
        r matches Some(p) ==> dec_field_string(s@.skip(i as int), lit@) matches Some(t) && p.0@
            == t.0 && p.1 as int == i + t.1 && i <= p.1 <= s@.len(),
{
    let j = match read_lit(s, i, lit) {
        None => {
            return None;
        },
        Some(j) => j,
    };
    proof {
        lemma_skip_sum(s@, i as int, j - i);
    }
    let f = match crate::escape::read_json_string(s, j) {
        None => {
            return None;
        },
        Some(v) => v,
    };
    Some((f.0, f.1))
}

/// Expect a key literal followed by a number token or `null`, at position
/// `i`.
fn read_field_number(s: &Vec<char>, i: usize, lit: &str) -> (r: Option<(Option<String>, usize)>)
    requires
        i <= s@.len(),
    ensures
        r is Some <==> dec_field_number(s@.skip(i as int), lit@) is Some,
        r matches Some(p) ==> dec_field_number(s@.skip(i as int), lit@) matches Some(t) && p.1
            as int == i + t.1 && i <= p.1 <= s@.len() && (match (p.0, t.0) {
            (None, None) => true,
            (Some(tok), Some(x)) => tok@ == x,
            _ => false,
        }),
{
    let j = match read_lit(s, i, lit) {
        None => {
            return None;
        },
        Some(j) => j,
    };
    proof {
        lemma_skip_sum(s@, i as int, j - i);
    }
    let f = match read_number(s, j) {
        None => {
            return None;
        },
        Some(v) => v,
    };
    Some((f.0, f.1))
}

/// Read one entry object at position `i`.
#[verifier::rlimit(100)]
#[verifier::spinoff_prover]
fn read_entry(s: &Vec<char>, i: usize) -> (r: Option<(crate::entry::Model, usize)>)
    requires
        i <= s@.len(),
    ensures
        r is Some <==> dec_entry(s@.skip(i as int)) is Some,
        r matches Some(p) ==> dec_entry(s@.skip(i as int)) matches Some(t) && p.0@ == t.0
            && p.1 as int == i + t.1 && i < p.1 <= s@.len(),
{
    let ghost s0 = s@.skip(i as int);
    let f1 = match read_field_string(s, i, "{\"annual_savings_contribution_in_dollars\":") {
        None => {
            return None;
        },
        Some(v) => v,
    };
    let ghost c1 = f1.1 - i;
    proof {
        lemma_skip_sum(s@, i as int, c1);
    }
    let f2 = match read_field_string(s, f1.1, ",\"desired_annual_retirement_income\":") {
        None => {
            return None;
        },
        Some(v) => v,
    };
    let ghost c2 = f2.1 - f1.1;
    proof {
        lemma_skip_sum(s@, i as int, c1 + c2);
    }
    let f3 = match read_field_number(s, f2.1, ",\"stash\":") {
        None => {
            return None;
        },
        Some(v) => v,
    };
    let ghost c3 = f3.1 - f2.1;
    proof {
        lemma_skip_sum(s@, i as int, c1 + c2 + c3);
    }
    let f4 = match read_field_number(s, f3.1, ",\"years_to_retirement\":") {
        None => {
            return None;
        },
        Some(v) => v,
    };
    let ghost c4 = f4.1 - f3.1;
    proof {
        lemma_skip_sum(s@, i as int, c1 + c2 + c3 + c4);
    }
    let f5 = match read_field_string(s, f4.1, ",\"savings_apr\":") {
        None => {
            return None;
        },
        Some(v) => v,
    };
    let ghost c5 = f5.1 - f4.1;
    proof {
        lemma_skip_sum(s@, i as int, c1 + c2 + c3 + c4 + c5);
    }
    let f6 = match read_field_string(s, f5.1, ",\"safe_withdrawal_rate\":") {
        None => {
            return None;
        },
        Some(v) => v,
    };
    let ghost c6 = f6.1 - f5.1;
    proof {
        lemma_skip_sum(s@, i as int, c1 + c2 + c3 + c4 + c5 + c6);
    }
    let f7 = match read_field_string(s, f6.1, ",\"initial_retirement_savings_in_dollars\":") {
        None => {
            return None;
        },
        Some(v) => v,
    };
    let ghost c7 = f7.1 - f6.1;
    let ghost c = c1 + c2 + c3 + c4 + c5 + c6 + c7;
    let pos = f7.1;
    let n = s.len();
    proof {
        assert(pos as int == i + c);
        if pos < n {
            assert(s0[c] == s@[i + c]);
        }
    }
    if !(pos < n) {
        return None;
    }
    if s[pos] != '}' {
        return None;
    }
    let m = crate::entry::Model {
        annual_savings_contribution_in_dollars: f1.0,
        desired_annual_retirement_income: f2.0,
        stash: f3.0,
        years_to_retirement: f4.0,
        savings_apr: f5.0,
        safe_withdrawal_rate: f6.0,
        initial_retirement_savings_in_dollars: f7.0,
    };
    proof {
        let t = dec_entry(s0)->0;
        assert(m@ == t.0);
    }
    Some((m, pos + 1))
}

/// Read one identifier with its entry object at position `i`.
fn read_id_entry(s: &Vec<char>, i: usize) -> (r: Option<((u128, crate::entry::Model), usize)>)
    requires
        i <= s@.len(),
    ensures
        r is Some <==> dec_id_entry(s@.skip(i as int)) is Some,
        r matches Some(p) ==> dec_id_entry(s@.skip(i as int)) matches Some(t) && (p.0).0
            == (t.0).0 && (p.0).1@ == (t.0).1 && p.1 as int == i + t.1 && i < p.1 <= s@.len(),
{
    let ghost s0 = s@.skip(i as int);
    let n = s.len();
    proof {
        if i < n {
            assert(s0[0] == s@[i as int]);
        }
    }
    if i >= n || s[i] != '"' {
        return None;
    }
    let d_end = scan_digit_chars(s, i + 1);
    proof {
        lemma_digit_run_range(s@, i + 1, d_end as int);
        assert(s0.skip(1) =~= s@.skip(i + 1));
    }
    let nd = d_end - (i + 1);
    if nd == 0 {
        return None;
    }
    proof {
        if d_end + 1 < n {
            assert(s0[1 + nd] == s@[d_end as int]);
            assert(s0[2 + nd] == s@[d_end + 1]);
        }
        assert((2 + nd < s0.len()) == (d_end + 1 < n));
    }
    if n - d_end < 2 {
        return None;
    }
    if s[d_end] != '"' || s[d_end + 1] != ':' {
        return None;
    }
    proof {
        assert(s0.skip(1).subrange(0, nd as int) =~= s@.subrange(i + 1, d_end as int));
        assert(all_digit_chars(s@.subrange(i + 1, d_end as int))) by {
            assert(forall|j: int|
                0 <= j < d_end - i - 1 ==> #[trigger] s@.subrange(i + 1, d_end as int)[j]
                    == s@[i + 1 + j]);
        }
    }
    let v = match crate::digits::read_digit_value(s, i + 1, d_end) {
        None => {
            return None;
        },
        Some(v) => v,
    };
    proof {
        lemma_skip_sum(s@, i as int, 3 + nd);
    }
    let e = match read_entry(s, d_end + 2) {
        None => {
            return None;
        },
        Some(e) => e,
    };
    Some(((v, e.0), e.1))
}

/// Read a comma-separated run of identified entries at position `i`.
fn read_entries(s: &Vec<char>, i: usize) -> (r: Option<(
    Vec<(u128, crate::entry::Model)>,
    usize,
)>)
    requires
        i <= s@.len(),
    ensures
        r is Some <==> dec_entries(s@.skip(i as int)) is Some,
        r matches Some(p) ==> dec_entries(s@.skip(i as int)) matches Some(t)
            && crate::collection::view_of(p.0@) == t.0 && p.1 as int == i + t.1 && i < p.1
            <= s@.len(),
    decreases s@.len() - i,
{
    let ghost s0 = s@.skip(i as int);
    let first = match read_id_entry(s, i) {
        None => {
            return None;
        },
        Some(f) => f,
    };
    let k_end = first.1;
    let n = s.len();
    proof {
        if k_end < n {
            assert(s0[k_end - i] == s@[k_end as int]);
        }
    }
    if k_end < n && s[k_end] == ',' {
        proof {
            lemma_skip_sum(s@, i as int, (k_end - i) + 1);
        }
        let rest = match read_entries(s, k_end + 1) {
            None => {
                return None;
            },
            Some(rr) => rr,
        };
        let mut vecr = rest.0;
        let ghost tailv = vecr@;
        vecr.insert(0, first.0);
        proof {
            let t = dec_entries(s0)->0;
            assert(vecr@ =~= seq![first.0] + tailv);
            assert(crate::collection::view_of(vecr@) =~= t.0) by {
                assert forall|a: int| 0 <= a < vecr@.len() implies crate::collection::view_of(
                    vecr@,
                )[a] == t.0[a] by {
                    assert(crate::collection::view_of(vecr@)[a] == (vecr@[a].0, vecr@[a].1@));
                    if a == 0 {
                        assert(vecr@[0] == first.0);
                    } else {
                        assert(vecr@[a] == tailv[a - 1]);
                        assert(crate::collection::view_of(tailv)[a - 1] == (
                            tailv[a - 1].0,
                            tailv[a - 1].1@,
                        ));
                    }
                }
            }
        }
        Some((vecr, rest.1))
    } else {
        let mut vecr: Vec<(u128, crate::entry::Model)> = Vec::new();
        vecr.push(first.0);
        proof {
            let t = dec_entries(s0)->0;
            assert(crate::collection::view_of(vecr@) =~= t.0) by {
                assert(vecr@[0] == first.0);
                assert(crate::collection::view_of(vecr@)[0] == (vecr@[0].0, vecr@[0].1@));
            }
        }
        Some((vecr, k_end))
    }
}

/// Decode a persisted snapshot: `Some` exactly on the texts the encoder
/// produces, handing back the collection field for field and in order.
pub fn decode(text: &str) -> (r: Option<crate::collection::Collection>)
    ensures
        match spec_decode(text@) {
            None => r is None,
            Some(m) => r matches Some(c) && c.wf() && c@ == m,
        },
{
    let chars = to_chars(text);
    let n = chars.len();
    if n >= 2 {
        if chars[0] == '{' && chars[1] == '}' {
            if n == 2 {
                let c = crate::collection::Collection::empty();
                proof {
                    assert(Seq::<(u128, EntryView)>::empty() =~= spec_decode(text@)->0);
                }
                return Some(c);
            } else {
                return None;
            }
        }
    }
    if n == 0 || chars[0] != '{' {
        return None;
    }
    proof {
        assert(chars@.skip(1) == text@.skip(1));
    }
    let ents = match read_entries(&chars, 1) {
        None => {
            return None;
        },
        Some(e) => e,
    };
    let j = ents.1;
    if !(j < n && chars[j] == '}') {
        return None;
    }
    if j + 1 != n {
        return None;
    }
    let ghost w = crate::collection::view_of(ents.0@);
    proof {
        // The braces-only first branch of the reader cannot apply: the
        // text's second character opens an identifier string.
        assert(text@.skip(1)[0] == '"');
        assert(text@[1] == '"');
        assert(dec_collection(text@) == Some((w, j + 1 as int)));
        assert(spec_decode(text@) == (if pairs_distinct(w) {
            Some(w)
        } else {
            None
        }));
    }
    let mut vec0 = ents.0;
    let ghost orig = vec0@;
    let mut c = crate::collection::Collection::empty();
    while vec0.len() > 0
        invariant
            c.wf(),
            vec0@.len() <= orig.len(),
            vec0@ == orig.skip(orig.len() - vec0@.len()),
            w == crate::collection::view_of(orig),
            c@ == w.subrange(0, orig.len() - vec0@.len()),
            spec_decode(text@) == (if pairs_distinct(w) {
                Some(w)
            } else {
                None
            }),
        decreases vec0@.len(),
    {
        let ghost done = orig.len() - vec0@.len();
        let pr = vec0.remove(0);
        proof {
            assert(orig.skip(done as int)[0] == orig[done as int]);
            assert(pr == orig[done as int]);
            assert(vec0@ =~= orig.skip(done + 1)) by {
                assert(orig.skip(done as int).remove(0) =~= orig.skip(done + 1));
            }
            assert(w[done as int] == (pr.0, pr.1@));
        }
        if c.contains(pr.0) {
            proof {
                let a = choose|a: int| 0 <= a < c@.len() && (#[trigger] c@[a]).0 == pr.0;
                assert(c@[a] == w[a]);
                assert(w[a].0 == w[done as int].0);
                assert(!pairs_distinct(w));
            }
            return None;
        }
        let ghost c_old = c@;
        c.push_pair(pr.0, pr.1);
        proof {
            assert(c@ =~= w.subrange(0, done + 1)) by {
                assert(c@ == c_old.push((pr.0, pr.1@)));
                assert forall|a: int| 0 <= a < c@.len() implies c@[a] == w.subrange(
                    0,
                    done + 1,
                )[a] by {
                    if a < done {
                        assert(c@[a] == c_old[a]);
                    } else {
                        assert(c@[a] == (pr.0, pr.1@));
                    }
                }
            }
        }
    }
    proof {
        assert(w.subrange(0, w.len() as int) =~= w);
        assert(c@ == w);
        assert(pairs_distinct(w)) by {
            assert(crate::collection::distinct_keys(w));
        }
        assert(spec_decode(text@) == Some(w));
    }
    Some(c)
}

/// Why a persisted snapshot could not be loaded.
#[derive(Debug)]
pub enum StorageLoadError {
    /// The store could not be reached at all.
    CouldNotConnect,
    /// The stored payload did not decode as a snapshot.
    DecodeError,
    /// The store held nothing under the snapshot's key.
    NoData,
}

/// What a fetch outcome denotes: the decoded pair sequence, if the store
/// answered with a decodable payload.
pub open spec fn fetched_decodes(fetched: Option<Option<&str>>) -> Option<
    Seq<(u128, EntryView)>,
> {
    match fetched {
        Some(Some(s)) => spec_decode(s@),
        _ => None,
    }
}

/// Turn a fetch outcome into a collection or the exact reason it could not
/// be had: an unreachable store, an empty slot, or an undecodable payload.
pub fn load_data(fetched: Option<Option<&str>>) -> (r: Result<
    crate::collection::Collection,
    StorageLoadError,
>)
    ensures
        match fetched {
            None => r matches Err(e) && e is CouldNotConnect,
            Some(None) => r matches Err(e) && e is NoData,
            Some(Some(s)) => match spec_decode(s@) {
                Some(m) => r matches Ok(c) && c.wf() && c@ == m,
                None => r matches Err(e) && e is DecodeError,
            },
        },
{
    match fetched {
        None => Err(StorageLoadError::CouldNotConnect),
        Some(None) => Err(StorageLoadError::NoData),
        Some(Some(s)) => match decode(s) {
            Some(c) => Ok(c),
            None => Err(StorageLoadError::DecodeError),
        },
    }
}

/// Start the collection: the decoded snapshot when the store handed one
/// over, and otherwise — store unreachable, no data, malformed payload —
/// the default two-entry collection.  Initialization never fails outward.
pub fn initialize(fetched: Option<Option<&str>>) -> (c: crate::collection::Collection)
    ensures
        c.wf(),
        match fetched_decodes(fetched) {
            Some(m) => c@ == m,
            None => c@.len() == 2 && c@[0].1 == crate::entry::default_entry_view() && c@[1].1
                == crate::entry::default_entry_view() && c@[0].0 != c@[1].0,
        },
{
    match load_data(fetched) {
        Ok(c) => c,
        Err(_) => crate::collection::Collection::with_default_entries(),
    }
}

} // verus!
