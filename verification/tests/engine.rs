use retirement_calc::entry::{option_to_string, preview, update, Model, Msg, OutMsg};
use retirement_calc::validation::{parse, Validation};

fn round_to_cents(value: f64) -> f64 {
    (value * 100.0).round() / 100.0
}

fn evaluate(ci: &retirement_calc::entry::ComputeInputs) -> (String, String) {
    let income: f64 = ci.desired_annual_retirement_income.parse().unwrap();
    let contribution: f64 = ci.annual_savings_contribution_in_dollars.parse().unwrap();
    let initial: f64 = ci.initial_retirement_savings_in_dollars.parse().unwrap();
    let swr: f64 = ci.safe_withdrawal_rate.parse().unwrap();
    let apr: f64 = ci.savings_apr.parse().unwrap();
    let stash = round_to_cents(income / (swr / 100.0));
    let i = apr / 100.0;
    let years = round_to_cents(
        (1.0 / (1.0 + i).ln()) * ((contribution + stash * i).ln() - (contribution + initial * i).ln()),
    );
    (format!("{}", stash), format!("{}", years))
}

#[test]
fn empty_text_is_unset() {
    assert_eq!(parse(""), Validation::Unset);
}

#[test]
fn blank_text_is_unset() {
    assert_eq!(parse("   \t\n"), Validation::Unset);
}

#[test]
fn plain_integer_is_valid() {
    assert_eq!(parse("10000"), Validation::Valid);
}

#[test]
fn negative_decimal_is_valid() {
    assert_eq!(parse("-12.5"), Validation::Valid);
}

#[test]
fn zero_is_valid() {
    assert_eq!(parse("0"), Validation::Valid);
}

#[test]
fn two_dots_are_invalid() {
    assert_eq!(parse("1.2.3"), Validation::Invalid);
}

#[test]
fn trailing_dot_is_invalid() {
    assert_eq!(parse("5."), Validation::Invalid);
}

#[test]
fn leading_dot_is_invalid() {
    assert_eq!(parse(".5"), Validation::Invalid);
}

#[test]
fn letters_are_invalid() {
    assert_eq!(parse("abc"), Validation::Invalid);
}

#[test]
fn trailing_letters_are_invalid() {
    assert_eq!(parse("12x"), Validation::Invalid);
}

#[test]
fn lone_minus_is_invalid() {
    assert_eq!(parse("-"), Validation::Invalid);
}

#[test]
fn default_entry_fields() {
    let m = Model::new();
    assert_eq!(m.annual_savings_contribution_in_dollars, "10000");
    assert_eq!(m.desired_annual_retirement_income, "100000");
    assert_eq!(m.savings_apr, "5");
    assert_eq!(m.safe_withdrawal_rate, "4");
    assert_eq!(m.initial_retirement_savings_in_dollars, "0");
    assert!(m.stash.is_some());
    assert!(m.years_to_retirement.is_some());
}

#[test]
fn default_required_stash_is_two_and_a_half_million() {
    let m = Model::new();
    let tok = m.stash.unwrap();
    assert_eq!(tok, "2500000");
    let v: f64 = tok.parse().unwrap();
    assert_eq!(v, 2500000.00);
    // the formula itself gives the same value
    assert_eq!(round_to_cents(100000.0 / (4.0 / 100.0)), v);
}

#[test]
fn default_years_match_closed_form() {
    let m = Model::new();
    let tok = m.years_to_retirement.unwrap();
    let i = 0.05f64;
    let expected = round_to_cents(
        (1.0 / (1.0 + i).ln()) * ((10000.0 + 2500000.0 * i).ln() - (10000.0 + 0.0 * i).ln()),
    );
    assert_eq!(tok, format!("{}", expected));
    assert_eq!(tok, "53.34");
}

#[test]
fn edit_stores_text_verbatim() {
    let mut m = Model::new();
    let msg = Msg::SavingsAprInput("  7x ".to_string());
    let computed = preview(&m, &msg).map(|ci| evaluate(&ci));
    assert!(computed.is_none());
    let out = update(msg, &mut m, computed);
    assert!(matches!(out, OutMsg::NoOp));
    assert_eq!(m.savings_apr, "  7x ");
    assert!(m.stash.is_none());
    assert!(m.years_to_retirement.is_none());
}

#[test]
fn one_invalid_field_blanks_both_outputs() {
    let mut m = Model::new();
    let msg = Msg::CurrentSavingsInput("not a number".to_string());
    let computed = preview(&m, &msg).map(|ci| evaluate(&ci));
    update(msg, &mut m, computed);
    assert!(m.stash.is_none());
    assert!(m.years_to_retirement.is_none());
    // the other raw fields are untouched
    assert_eq!(m.savings_apr, "5");
}

#[test]
fn valid_edit_recomputes_both_outputs() {
    let mut m = Model::new();
    let msg = Msg::DesiredRetirementInput("50000".to_string());
    let computed = preview(&m, &msg).map(|ci| evaluate(&ci));
    assert!(computed.is_some());
    update(msg, &mut m, computed);
    assert_eq!(m.desired_annual_retirement_income, "50000");
    assert_eq!(m.stash.as_deref(), Some("1250000"));
    assert!(m.years_to_retirement.is_some());
}

#[test]
fn revalidating_after_fix_restores_outputs() {
    let mut m = Model::new();
    let bad = Msg::SavingsAprInput("oops".to_string());
    let computed = preview(&m, &bad).map(|ci| evaluate(&ci));
    update(bad, &mut m, computed);
    assert!(m.stash.is_none());
    let good = Msg::SavingsAprInput("5".to_string());
    let computed = preview(&m, &good).map(|ci| evaluate(&ci));
    assert!(computed.is_some());
    update(good, &mut m, computed);
    assert_eq!(m.stash.as_deref(), Some("2500000"));
    assert_eq!(m.years_to_retirement.as_deref(), Some("53.34"));
}

#[test]
fn zero_apr_gives_non_finite_years_kept_present() {
    let mut m = Model::new();
    let msg = Msg::SavingsAprInput("0".to_string());
    let computed = preview(&m, &msg).map(|ci| evaluate(&ci));
    assert!(computed.is_some());
    update(msg, &mut m, computed);
    assert_eq!(m.savings_apr, "0");
    assert_eq!(m.stash.as_deref(), Some("2500000"));
    let years = m.years_to_retirement.expect("years stay present");
    let v: f64 = years.parse().unwrap();
    assert!(!v.is_finite());
}

#[test]
fn remove_event_leaves_entry_untouched() {
    let mut m = Model::new();
    let before = m.clone();
    let out = update(Msg::RemoveClicked, &mut m, None);
    assert!(matches!(out, OutMsg::RemoveMe));
    assert_eq!(m, before);
}

#[test]
fn option_to_string_renders_placeholder() {
    assert_eq!(option_to_string(&None), "--");
    assert_eq!(option_to_string(&Some("53.34".to_string())), "53.34");
}
