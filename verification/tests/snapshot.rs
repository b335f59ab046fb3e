use retirement_calc::codec::{decode, initialize, load_data, StorageLoadError};
use retirement_calc::collection::Collection;
use retirement_calc::entry::{Model, Msg};

fn cents(value: f64) -> f64 {
    (value * 100.0).round() / 100.0
}

fn derive(ci: &retirement_calc::entry::ComputeInputs) -> (String, String) {
    let income: f64 = ci.desired_annual_retirement_income.parse().unwrap();
    let contribution: f64 = ci.annual_savings_contribution_in_dollars.parse().unwrap();
    let initial: f64 = ci.initial_retirement_savings_in_dollars.parse().unwrap();
    let swr: f64 = ci.safe_withdrawal_rate.parse().unwrap();
    let apr: f64 = ci.savings_apr.parse().unwrap();
    let stash = cents(income / (swr / 100.0));
    let i = apr / 100.0;
    let years = cents(
        (1.0 / (1.0 + i).ln()) * ((contribution + stash * i).ln() - (contribution + initial * i).ln()),
    );
    (format!("{}", stash), format!("{}", years))
}

fn same_entries(a: &Collection, b: &Collection) {
    let va = a.entries_vec();
    let vb = b.entries_vec();
    assert_eq!(va.len(), vb.len());
    for i in 0..va.len() {
        assert_eq!(va[i].0, vb[i].0);
        assert_eq!(va[i].1, vb[i].1);
    }
}

#[test]
fn round_trip_default_collection() {
    let c = Collection::with_default_entries();
    let text = c.encode();
    let c2 = decode(&text).expect("own snapshot decodes");
    same_entries(&c, &c2);
}

#[test]
fn round_trip_empty_collection() {
    let c = Collection::empty();
    let text = c.encode();
    assert_eq!(text, "{}");
    let c2 = decode(&text).unwrap();
    assert_eq!(c2.len(), 0);
}

#[test]
fn round_trip_with_awkward_raw_text() {
    let mut c = Collection::with_default_entries();
    let id = c.entries_vec()[0].0;
    let msg = Msg::InitialRetirementSavingsInput("say \"hi\"\\ \n\ttab".to_string());
    let computed = c.preview_edit(id, &msg).map(|ci| derive(&ci));
    assert!(computed.is_none());
    c.dispatch(id, msg, computed);
    let text = c.encode();
    let c2 = decode(&text).expect("escaped text decodes");
    same_entries(&c, &c2);
    assert_eq!(
        c2.get_entry(id).unwrap().initial_retirement_savings_in_dollars,
        "say \"hi\"\\ \n\ttab"
    );
}

#[test]
fn round_trip_after_edits_and_removal() {
    let mut c = Collection::with_default_entries();
    let added = c.add_entry();
    let first = c.entries_vec()[0].0;
    let msg = Msg::SavingsAprInput("3.5".to_string());
    let computed = c.preview_edit(added, &msg).map(|ci| derive(&ci));
    c.dispatch(added, msg, computed);
    c.remove_entry(first);
    let c2 = decode(&c.encode()).unwrap();
    same_entries(&c, &c2);
}

#[test]
fn snapshot_is_plain_json_with_the_seven_fields() {
    let c = Collection::with_default_entries();
    let text = c.encode();
    let v: serde_json::Value = serde_json::from_str(&text).expect("snapshot is JSON");
    let obj = v.as_object().unwrap();
    assert_eq!(obj.len(), 2);
    for (key, entry) in obj {
        key.parse::<u128>().expect("keys are decimal identifiers");
        let e = entry.as_object().unwrap();
        assert_eq!(e.len(), 7);
        assert_eq!(e["annual_savings_contribution_in_dollars"], "10000");
        assert_eq!(e["desired_annual_retirement_income"], "100000");
        assert_eq!(e["savings_apr"], "5");
        assert_eq!(e["safe_withdrawal_rate"], "4");
        assert_eq!(e["initial_retirement_savings_in_dollars"], "0");
        assert_eq!(e["stash"].as_f64().unwrap(), 2500000.0);
        assert_eq!(e["years_to_retirement"].as_f64().unwrap(), 53.34);
    }
}

#[test]
fn non_finite_years_are_stored_as_null() {
    let mut c = Collection::with_default_entries();
    let id = c.entries_vec()[0].0;
    let msg = Msg::SavingsAprInput("0".to_string());
    let computed = c.preview_edit(id, &msg).map(|ci| derive(&ci));
    c.dispatch(id, msg, computed);
    let years = c.get_entry(id).unwrap().years_to_retirement.unwrap();
    let y: f64 = years.parse().unwrap();
    assert!(!y.is_finite());
    let v: serde_json::Value = serde_json::from_str(&c.encode()).unwrap();
    let obj = v.as_object().unwrap();
    let key = format!("{}", id);
    assert!(obj[&key]["years_to_retirement"].is_null());
}

#[test]
fn malformed_payloads_do_not_decode() {
    assert!(decode("").is_none());
    assert!(decode("not json").is_none());
    assert!(decode("{").is_none());
    assert!(decode("[]").is_none());
    assert!(decode("{} ").is_none());
    assert!(decode("{\"1\":{}}").is_none());
}

#[test]
fn load_data_reports_connect_failure() {
    assert!(matches!(load_data(None), Err(StorageLoadError::CouldNotConnect)));
}

#[test]
fn load_data_reports_missing_data() {
    assert!(matches!(load_data(Some(None)), Err(StorageLoadError::NoData)));
}

#[test]
fn load_data_reports_decode_failure() {
    assert!(matches!(
        load_data(Some(Some("garbage"))),
        Err(StorageLoadError::DecodeError)
    ));
}

#[test]
fn load_data_returns_decoded_collection() {
    let c = Collection::with_default_entries();
    let text = c.encode();
    let loaded = load_data(Some(Some(text.as_str()))).unwrap();
    same_entries(&c, &loaded);
}

#[test]
fn initialize_falls_back_to_two_defaults() {
    for fetched in [None, Some(None), Some(Some("{{bad"))] {
        let c = initialize(fetched);
        assert_eq!(c.len(), 2);
        let v = c.entries_vec();
        assert_ne!(v[0].0, v[1].0);
        for (_, m) in &v {
            assert_eq!(*m, Model::new());
        }
    }
}

#[test]
fn initialize_uses_a_decodable_snapshot() {
    let mut c = Collection::with_default_entries();
    c.add_entry();
    let text = c.encode();
    let c2 = initialize(Some(Some(text.as_str())));
    same_entries(&c, &c2);
}
