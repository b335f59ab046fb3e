//! One retirement-projection entry: five raw text inputs, two derived
//! outputs.  The derived outputs are stored as the decimal text of the
//! computed numbers; they are present exactly when all five inputs are valid
//! numerals.  The numeric evaluation itself (compound growth with a
//! logarithm) is floating-point work that the caller performs between
//! `preview` and `update`.

use vstd::prelude::*;

use crate::validation::{all_digit_chars, is_blank_text, is_decimal_text, is_digit_char,
    is_space_char, is_unsigned_decimal, parse, validate_text, Validation};

verus! {

/// The mathematical value of an entry: the five raw texts and the two
/// optional derived texts, as sequences of characters.
pub ghost struct EntryView {
    pub annual_savings_contribution_in_dollars: Seq<char>,
    pub desired_annual_retirement_income: Seq<char>,
    pub stash: Option<Seq<char>>,
    pub years_to_retirement: Option<Seq<char>>,
    pub savings_apr: Seq<char>,
    pub safe_withdrawal_rate: Seq<char>,
    pub initial_retirement_savings_in_dollars: Seq<char>,
}

/// One entry of the collection.  Raw inputs are kept verbatim, never
/// reformatted; `stash` and `years_to_retirement` hold the decimal text of
/// the derived numbers when present.
#[derive(Clone, Debug, PartialEq)]
pub struct Model {
    pub annual_savings_contribution_in_dollars: String,
    pub desired_annual_retirement_income: String,
    pub stash: Option<String>,
    pub years_to_retirement: Option<String>,
    pub savings_apr: String,
    pub safe_withdrawal_rate: String,
    pub initial_retirement_savings_in_dollars: String,
}

impl View for Model {
    type V = EntryView;

    open spec fn view(&self) -> EntryView {
        EntryView {
            annual_savings_contribution_in_dollars:
                self.annual_savings_contribution_in_dollars@,
            desired_annual_retirement_income: self.desired_annual_retirement_income@,
            stash: match self.stash {
                Some(s) => Some(s@),
                None => None,
            },
            years_to_retirement: match self.years_to_retirement {
                Some(s) => Some(s@),
                None => None,
            },
            savings_apr: self.savings_apr@,
            safe_withdrawal_rate: self.safe_withdrawal_rate@,
            initial_retirement_savings_in_dollars:
                self.initial_retirement_savings_in_dollars@,
        }
    }
}

/// All five raw inputs are full decimal numerals.
pub open spec fn all_valid(v: EntryView) -> bool {
    &&& validate_text(v.annual_savings_contribution_in_dollars) == Validation::Valid
    &&& validate_text(v.desired_annual_retirement_income) == Validation::Valid
    &&& validate_text(v.savings_apr) == Validation::Valid
    &&& validate_text(v.safe_withdrawal_rate) == Validation::Valid
    &&& validate_text(v.initial_retirement_savings_in_dollars) == Validation::Valid
}

/// Both derived outputs are present.
pub open spec fn derived_present(v: EntryView) -> bool {
    v.stash is Some && v.years_to_retirement is Some
}

/// The entry invariant: derived outputs are present exactly when every raw
/// input is a valid numeral.  There is no partially computed state.
pub open spec fn entry_wf(v: EntryView) -> bool {
    derived_present(v) <==> all_valid(v)
}

/// What a field edit tells the entry to do next.
pub enum OutMsg {
    NoOp,
    RemoveMe,
}

/// A field-edit event for one entry, carrying the new raw text, or the
/// request to remove the entry from its collection.
#[derive(Clone, Debug)]
pub enum Msg {
    InitialRetirementSavingsInput(String),
    CurrentSavingsInput(String),
    DesiredRetirementInput(String),
    SavingsAprInput(String),
    SafeWithdrawalRateInput(String),
    RemoveClicked,
}

/// The entry after the raw text of the edited field is replaced verbatim.
/// A remove event edits nothing.
pub open spec fn apply_msg_view(v: EntryView, msg: Msg) -> EntryView {
    match msg {
        Msg::InitialRetirementSavingsInput(inp) => EntryView {
            initial_retirement_savings_in_dollars: inp@,
            ..v
        },
        Msg::CurrentSavingsInput(inp) => EntryView {
            annual_savings_contribution_in_dollars: inp@,
            ..v
        },
        Msg::DesiredRetirementInput(inp) => EntryView {
            desired_annual_retirement_income: inp@,
            ..v
        },
        Msg::SavingsAprInput(inp) => EntryView { savings_apr: inp@, ..v },
        Msg::SafeWithdrawalRateInput(inp) => EntryView { safe_withdrawal_rate: inp@, ..v },
        Msg::RemoveClicked => v,
    }
}

/// The view of the computed pair handed back by the caller.
pub open spec fn computed_view(c: Option<(String, String)>) -> Option<(Seq<char>, Seq<char>)> {
    match c {
        Some(p) => Some((p.0@, p.1@)),
        None => None,
    }
}

/// The entry with its derived outputs replaced by the computed pair, or
/// blanked when there is none.
pub open spec fn recomputed_view(v: EntryView, c: Option<(Seq<char>, Seq<char>)>) -> EntryView {
    match c {
        Some(p) => EntryView { stash: Some(p.0), years_to_retirement: Some(p.1), ..v },
        None => EntryView { stash: None, years_to_retirement: None, ..v },
    }
}

/// The full transition of one entry on one event.
pub open spec fn updated_view(
    v: EntryView,
    msg: Msg,
    c: Option<(Seq<char>, Seq<char>)>,
) -> EntryView {
    if msg is RemoveClicked {
        v
    } else {
        recomputed_view(apply_msg_view(v, msg), c)
    }
}

/// The five raw texts that the caller must evaluate, in the state an edit
/// would produce.  `preview` returns them exactly when the edit leaves every
/// field valid.
pub struct ComputeInputs {
    pub annual_savings_contribution_in_dollars: String,
    pub desired_annual_retirement_income: String,
    pub savings_apr: String,
    pub safe_withdrawal_rate: String,
    pub initial_retirement_savings_in_dollars: String,
}

/// Decide, before an edit is applied, whether the edited entry will have all
/// five fields valid, and if so hand out the five post-edit texts for the
/// caller to evaluate numerically.
pub fn preview(model: &Model, msg: &Msg) -> (r: Option<ComputeInputs>)
    ensures
        r is Some <==> (!(*msg is RemoveClicked) && all_valid(apply_msg_view(model@, *msg))),
        r matches Some(ci) ==> {
            let v = apply_msg_view(model@, *msg);
            &&& ci.annual_savings_contribution_in_dollars@
                == v.annual_savings_contribution_in_dollars
            &&& ci.desired_annual_retirement_income@ == v.desired_annual_retirement_income
            &&& ci.savings_apr@ == v.savings_apr
            &&& ci.safe_withdrawal_rate@ == v.safe_withdrawal_rate
            &&& ci.initial_retirement_savings_in_dollars@
                == v.initial_retirement_savings_in_dollars
        },
{
    let mut annual = model.annual_savings_contribution_in_dollars.clone();
    let mut desired = model.desired_annual_retirement_income.clone();
    let mut apr = model.savings_apr.clone();
    let mut swr = model.safe_withdrawal_rate.clone();
    let mut initial = model.initial_retirement_savings_in_dollars.clone();
    match msg {
        Msg::InitialRetirementSavingsInput(inp) => {
            initial = inp.clone();
        },
        Msg::CurrentSavingsInput(inp) => {
            annual = inp.clone();
        },
        Msg::DesiredRetirementInput(inp) => {
            desired = inp.clone();
        },
        Msg::SavingsAprInput(inp) => {
            apr = inp.clone();
        },
        Msg::SafeWithdrawalRateInput(inp) => {
            swr = inp.clone();
        },
        Msg::RemoveClicked => {
            return None;
        },
    }
    let ok = parse(annual.as_str()) == Validation::Valid && parse(desired.as_str())
        == Validation::Valid && parse(apr.as_str()) == Validation::Valid && parse(swr.as_str())
        == Validation::Valid && parse(initial.as_str()) == Validation::Valid;
    if ok {
        Some(
            ComputeInputs {
                annual_savings_contribution_in_dollars: annual,
                desired_annual_retirement_income: desired,
                savings_apr: apr,
                safe_withdrawal_rate: swr,
                initial_retirement_savings_in_dollars: initial,
            },
        )
    } else {
        None
    }
}

/// Apply one event to one entry: store the edited raw text verbatim, then
/// replace both derived outputs by the computed pair — present exactly when
/// every field of the edited entry is valid, which is what the `requires`
/// pins to the pair the caller obtained through `preview`.  A remove event
/// changes nothing and only signals the collection.
pub fn update(msg: Msg, model: &mut Model, computed: Option<(String, String)>) -> (out: OutMsg)
    requires
        !(msg is RemoveClicked) ==> (computed is Some <==> all_valid(
            apply_msg_view(old(model)@, msg),
        )),
        msg is RemoveClicked ==> computed is None,
    ensures
        final(model)@ == updated_view(old(model)@, msg, computed_view(computed)),
        msg is RemoveClicked ==> *final(model) == *old(model) && out is RemoveMe,
        !(msg is RemoveClicked) ==> out is NoOp && entry_wf(final(model)@),
{
    match msg {
        Msg::InitialRetirementSavingsInput(inp) => {
            model.initial_retirement_savings_in_dollars = inp;
        },
        Msg::CurrentSavingsInput(inp) => {
            model.annual_savings_contribution_in_dollars = inp;
        },
        Msg::DesiredRetirementInput(inp) => {
            model.desired_annual_retirement_income = inp;
        },
        Msg::SavingsAprInput(inp) => {
            model.savings_apr = inp;
        },
        Msg::SafeWithdrawalRateInput(inp) => {
            model.safe_withdrawal_rate = inp;
        },
        Msg::RemoveClicked => {
            return OutMsg::RemoveMe;
        },
    }
    match computed {
        Some(pair) => {
            model.stash = Some(pair.0);
            model.years_to_retirement = Some(pair.1);
        },
        None => {
            model.stash = None;
            model.years_to_retirement = None;
        },
    }
    OutMsg::NoOp
}

/// The canonical default entry: no initial savings, 10000 saved per year,
/// 100000 of desired income, 5 percent growth, 4 percent withdrawal — and
/// the derived outputs those defaults produce.
pub open spec fn default_entry_view() -> EntryView {
    EntryView {
        annual_savings_contribution_in_dollars: "10000"@,
        desired_annual_retirement_income: "100000"@,
        stash: Some("2500000"@),
        years_to_retirement: Some("53.34"@),
        savings_apr: "5"@,
        safe_withdrawal_rate: "4"@,
        initial_retirement_savings_in_dollars: "0"@,
    }
}

/// The defaults themselves satisfy the all-valid condition, so a freshly
/// created entry always carries present derived outputs.
pub proof fn lemma_defaults_valid()
    ensures
        all_valid(default_entry_view()),
        entry_wf(default_entry_view()),
        derived_present(default_entry_view()),
{
    reveal_strlit("10000");
    reveal_strlit("100000");
    reveal_strlit("5");
    reveal_strlit("4");
    reveal_strlit("0");
    lemma_digit_text_valid("10000"@);
    lemma_digit_text_valid("100000"@);
    lemma_digit_text_valid("5"@);
    lemma_digit_text_valid("4"@);
    lemma_digit_text_valid("0"@);
}

/// A nonempty text of digits alone is a valid numeral.
proof fn lemma_digit_text_valid(s: Seq<char>)
    requires
        s.len() > 0,
        all_digit_chars(s),
    ensures
        validate_text(s) == Validation::Valid,
{
    assert(is_digit_char(s[0]));
    assert(!is_space_char(s[0]));
    assert(!is_blank_text(s));
    assert(s[0] != '-');
    assert(is_unsigned_decimal(s));
}

impl Model {
    /// A fresh entry with the canonical defaults and their derived outputs.
    pub fn new() -> (r: Model)
        ensures
            r@ == default_entry_view(),
            all_valid(r@),
            entry_wf(r@),
    {
        proof {
            lemma_defaults_valid();
        }
        Model {
            annual_savings_contribution_in_dollars: String::from_str("10000"),
            desired_annual_retirement_income: String::from_str("100000"),
            stash: Some(String::from_str("2500000")),
            years_to_retirement: Some(String::from_str("53.34")),
            savings_apr: String::from_str("5"),
            safe_withdrawal_rate: String::from_str("4"),
            initial_retirement_savings_in_dollars: String::from_str("0"),
        }
    }
}

/// Render an optional derived text: the text itself, or a placeholder when
/// the output is absent.
pub fn option_to_string(option: &Option<String>) -> (r: String)
    ensures
        match option {
            Some(s) => r@ == s@,
            None => r@ == "--"@,
        },
{
    match option {
        Some(s) => s.clone(),
        None => String::from_str("--"),
    }
}

} // verus!
