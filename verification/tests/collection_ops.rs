use retirement_calc::collection::Collection;
use retirement_calc::entry::{Model, Msg};

fn round_cents(value: f64) -> f64 {
    (value * 100.0).round() / 100.0
}

fn run_numbers(ci: &retirement_calc::entry::ComputeInputs) -> (String, String) {
    let income: f64 = ci.desired_annual_retirement_income.parse().unwrap();
    let contribution: f64 = ci.annual_savings_contribution_in_dollars.parse().unwrap();
    let initial: f64 = ci.initial_retirement_savings_in_dollars.parse().unwrap();
    let swr: f64 = ci.safe_withdrawal_rate.parse().unwrap();
    let apr: f64 = ci.savings_apr.parse().unwrap();
    let stash = round_cents(income / (swr / 100.0));
    let i = apr / 100.0;
    let years = round_cents(
        (1.0 / (1.0 + i).ln()) * ((contribution + stash * i).ln() - (contribution + initial * i).ln()),
    );
    (format!("{}", stash), format!("{}", years))
}

#[test]
fn startup_collection_has_two_default_entries() {
    let c = Collection::with_default_entries();
    assert_eq!(c.len(), 2);
    let v = c.entries_vec();
    assert_ne!(v[0].0, v[1].0);
    for (_, m) in &v {
        assert_eq!(*m, Model::new());
        assert!(m.stash.is_some());
        assert!(m.years_to_retirement.is_some());
    }
}

#[test]
fn add_entry_appends_and_keeps_existing() {
    let mut c = Collection::with_default_entries();
    let before = c.entries_vec();
    let id = c.add_entry();
    assert_eq!(c.len(), 3);
    let after = c.entries_vec();
    for i in 0..before.len() {
        assert_eq!(after[i], before[i]);
    }
    assert_eq!(after[2].0, id);
    assert_eq!(after[2].1, Model::new());
    for (old_id, _) in &before {
        assert_ne!(*old_id, id);
    }
}

#[test]
fn remove_present_entry_closes_gap() {
    let mut c = Collection::with_default_entries();
    let id2 = c.add_entry();
    let before = c.entries_vec();
    let victim = before[1].0;
    c.remove_entry(victim);
    assert_eq!(c.len(), 2);
    let after = c.entries_vec();
    assert_eq!(after[0], before[0]);
    assert_eq!(after[1].0, id2);
    assert!(!c.contains(victim));
}

#[test]
fn remove_absent_entry_changes_nothing() {
    let mut c = Collection::with_default_entries();
    let before = c.entries_vec();
    let mut absent: u128 = 12345;
    while c.contains(absent) {
        absent += 1;
    }
    c.remove_entry(absent);
    assert_eq!(c.entries_vec(), before);
}

#[test]
fn dispatch_edit_updates_one_entry() {
    let mut c = Collection::with_default_entries();
    let v = c.entries_vec();
    let target = v[0].0;
    let other = v[1].0;
    let msg = Msg::DesiredRetirementInput("50000".to_string());
    let computed = c.preview_edit(target, &msg).map(|ci| run_numbers(&ci));
    assert!(computed.is_some());
    c.dispatch(target, msg, computed);
    let edited = c.get_entry(target).unwrap();
    assert_eq!(edited.desired_annual_retirement_income, "50000");
    assert_eq!(edited.stash.as_deref(), Some("1250000"));
    assert_eq!(c.get_entry(other).unwrap(), Model::new());
}

#[test]
fn dispatch_invalid_edit_blanks_outputs() {
    let mut c = Collection::with_default_entries();
    let target = c.entries_vec()[0].0;
    let msg = Msg::SafeWithdrawalRateInput("four".to_string());
    let computed = c.preview_edit(target, &msg).map(|ci| run_numbers(&ci));
    assert!(computed.is_none());
    c.dispatch(target, msg, computed);
    let edited = c.get_entry(target).unwrap();
    assert_eq!(edited.safe_withdrawal_rate, "four");
    assert!(edited.stash.is_none());
    assert!(edited.years_to_retirement.is_none());
}

#[test]
fn dispatch_remove_deletes_the_entry() {
    let mut c = Collection::with_default_entries();
    let before = c.entries_vec();
    let victim = before[0].0;
    c.dispatch(victim, Msg::RemoveClicked, None);
    assert_eq!(c.len(), 1);
    assert_eq!(c.entries_vec()[0], before[1]);
}

#[test]
fn dispatch_to_absent_id_is_a_no_op() {
    let mut c = Collection::with_default_entries();
    let before = c.entries_vec();
    let mut absent: u128 = 999;
    while c.contains(absent) {
        absent += 1;
    }
    let msg = Msg::SavingsAprInput("9".to_string());
    let computed = c.preview_edit(absent, &msg).map(|ci| run_numbers(&ci));
    assert!(computed.is_none());
    c.dispatch(absent, msg, computed);
    assert_eq!(c.entries_vec(), before);
}

#[test]
fn preview_edit_hands_out_post_edit_texts() {
    let c = Collection::with_default_entries();
    let target = c.entries_vec()[0].0;
    let msg = Msg::CurrentSavingsInput("20000".to_string());
    let ci = c.preview_edit(target, &msg).unwrap();
    assert_eq!(ci.annual_savings_contribution_in_dollars, "20000");
    assert_eq!(ci.desired_annual_retirement_income, "100000");
    assert_eq!(ci.savings_apr, "5");
    assert_eq!(ci.safe_withdrawal_rate, "4");
    assert_eq!(ci.initial_retirement_savings_in_dollars, "0");
}

#[test]
fn fresh_ids_differ_across_adds() {
    let mut c = Collection::empty();
    let a = c.add_entry();
    let b = c.add_entry();
    let d = c.add_entry();
    assert_ne!(a, b);
    assert_ne!(a, d);
    assert_ne!(b, d);
    assert_eq!(c.len(), 3);
}
