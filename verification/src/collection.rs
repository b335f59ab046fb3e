//! The collection manager: an ordered, uniquely-keyed set of entries.
//! Insertion order is load-bearing — it defines display order and survives
//! add, remove and the persisted round trip.

use vstd::prelude::*;

use crate::entry::{all_valid, apply_msg_view, computed_view, default_entry_view, preview,
    update, updated_view, ComputeInputs, EntryView, Model, Msg, OutMsg};
use crate::outside::{im_get, im_insert, im_len, im_new, im_pairs, im_shift_remove, map_entries,
    random_id, seq_has_key};

verus! {

/// The pairs of the collection as mathematical values, in order.
pub open spec fn view_of(s: Seq<(u128, Model)>) -> Seq<(u128, EntryView)> {
    s.map_values(|p: (u128, Model)| (p.0, p.1@))
}

/// Whether some pair of the sequence carries the key.
pub open spec fn view_has_key(s: Seq<(u128, EntryView)>, k: u128) -> bool {
    exists|i: int| 0 <= i < s.len() && (#[trigger] s[i]).0 == k
}

/// No two pairs carry the same key.
pub open spec fn distinct_keys(s: Seq<(u128, EntryView)>) -> bool {
    forall|i: int, j: int| 0 <= i < j < s.len() ==> (#[trigger] s[i]).0 != (#[trigger] s[j]).0
}

/// The entry stored under a key: the first pair that carries it.
pub open spec fn lookup_view(s: Seq<(u128, EntryView)>, k: u128) -> Option<EntryView>
    decreases s.len(),
{
    if s.len() == 0 {
        None
    } else if s[0].0 == k {
        Some(s[0].1)
    } else {
        lookup_view(s.skip(1), k)
    }
}

proof fn lemma_lookup_some_iff_has_key(s: Seq<(u128, EntryView)>, k: u128)
    ensures
        lookup_view(s, k) is Some <==> view_has_key(s, k),
    decreases s.len(),
{
    if s.len() == 0 {
    } else if s[0].0 == k {
    } else {
        lemma_lookup_some_iff_has_key(s.skip(1), k);
        assert forall|i: int| 0 <= i < s.len() && (#[trigger] s[i]).0 == k implies view_has_key(
            s.skip(1),
            k,
        ) by {
            assert(s.skip(1)[i - 1] == s[i]);
        }
        if view_has_key(s.skip(1), k) {
            let i = choose|i: int| 0 <= i < s.skip(1).len() && (#[trigger] s.skip(1)[i]).0 == k;
            assert(s[i + 1] == s.skip(1)[i]);
        }
    }
}

proof fn lemma_lookup_at_index(s: Seq<(u128, EntryView)>, k: u128, i: int)
    requires
        distinct_keys(s),
        0 <= i < s.len(),
        s[i].0 == k,
    ensures
        lookup_view(s, k) == Some(s[i].1),
    decreases s.len(),
{
    if i == 0 {
    } else {
        assert(s[0].0 != k);
        assert(distinct_keys(s.skip(1))) by {
            assert forall|a: int, b: int| 0 <= a < b < s.skip(1).len() implies (#[trigger] s.skip(
                1,
            )[a]).0 != (#[trigger] s.skip(1)[b]).0 by {
                assert(s.skip(1)[a] == s[a + 1]);
                assert(s.skip(1)[b] == s[b + 1]);
            }
        }
        assert(s.skip(1)[i - 1] == s[i]);
        lemma_lookup_at_index(s.skip(1), k, i - 1);
    }
}

/// The ordered, uniquely-keyed set of all entries.
pub struct Collection {
    map: indexmap::IndexMap<u128, Model>,
}

impl View for Collection {
    type V = Seq<(u128, EntryView)>;

    closed spec fn view(&self) -> Seq<(u128, EntryView)> {
        view_of(map_entries(self.map))
    }
}

impl Collection {
    /// The collection invariant: keys are unique.
    pub open spec fn wf(&self) -> bool {
        distinct_keys(self@)
    }

    /// A collection with no entries.
    pub fn empty() -> (c: Collection)
        ensures
            c.wf(),
            c@ == Seq::<(u128, EntryView)>::empty(),
    {
        let c = Collection { map: im_new() };
        proof {
            assert(c@ =~= Seq::<(u128, EntryView)>::empty());
        }
        c
    }

    /// How many entries the collection holds.
    pub fn len(&self) -> (n: usize)
        ensures
            n == self@.len(),
    {
        im_len(&self.map)
    }

    /// The pairs of the collection, in order.
    pub fn entries_vec(&self) -> (v: Vec<(u128, Model)>)
        ensures
            v@.len() == self@.len(),
            forall|i: int|
                0 <= i < v@.len() ==> (#[trigger] v@[i]).0 == self@[i].0 && v@[i].1@
                    == self@[i].1,
    {
        let v = im_pairs(&self.map);
        proof {
            assert(view_of(v@).len() == v@.len());
        }
        v
    }

    /// The entry stored under a key, if any, as a copy.
    pub fn get_entry(&self, id: u128) -> (r: Option<Model>)
        requires
            self.wf(),
        ensures
            match r {
                Some(m) => lookup_view(self@, id) == Some(m@),
                None => lookup_view(self@, id) is None,
            },
    {
        let r = im_get(&self.map, id);
        proof {
            let s = map_entries(self.map);
            if r is Some {
                let i = choose|i: int|
                    0 <= i < s.len() && (#[trigger] s[i]).0 == id && r == Some(s[i].1);
                assert(self@[i] == (s[i].0, s[i].1@));
                lemma_lookup_at_index(self@, id, i);
            } else {
                assert(!view_has_key(self@, id)) by {
                    if view_has_key(self@, id) {
                        let i = choose|i: int| 0 <= i < self@.len() && (#[trigger] self@[i]).0 == id;
                        assert(self@[i] == (s[i].0, s[i].1@));
                        assert(seq_has_key(s, id));
                    }
                }
                lemma_lookup_some_iff_has_key(self@, id);
            }
        }
        r
    }

    /// Whether an entry is stored under the key.
    pub fn contains(&self, id: u128) -> (r: bool)
        ensures
            r == view_has_key(self@, id),
    {
        let r = im_get(&self.map, id);
        proof {
            let s = map_entries(self.map);
            lemma_keys_agree(s, id);
        }
        r.is_some()
    }

    /// Append one entry under a key not yet in use, at the end.
    pub fn push_pair(&mut self, id: u128, m: Model)
        requires
            old(self).wf(),
            !view_has_key(old(self)@, id),
        ensures
            final(self).wf(),
            final(self)@ == old(self)@.push((id, m@)),
    {
        let ghost s_old = map_entries(self.map);
        let ghost v_old = self@;
        let ghost mv = m@;
        proof {
            lemma_keys_agree(s_old, id);
        }
        im_insert(&mut self.map, id, m);
        proof {
            assert(map_entries(self.map) == s_old.push((id, m)));
            assert(self@ =~= v_old.push((id, mv))) by {
                assert forall|i: int| 0 <= i < self@.len() implies self@[i] == v_old.push(
                    (id, mv),
                )[i] by {
                    if i < self@.len() - 1 {
                        assert(self@[i] == (s_old[i].0, s_old[i].1@));
                        assert(v_old[i] == (s_old[i].0, s_old[i].1@));
                    } else {
                        assert(self@[i] == (id, mv));
                    }
                }
            }
            assert forall|i: int, j: int| 0 <= i < j < self@.len() implies (
            #[trigger] self@[i]).0 != (#[trigger] self@[j]).0 by {
                if j < self@.len() - 1 {
                    assert(self@[i] == v_old[i]);
                    assert(self@[j] == v_old[j]);
                } else {
                    assert(self@[i] == v_old[i]);
                    assert(self@[j].0 == id);
                    if v_old[i].0 == id {
                        assert(view_has_key(v_old, id));
                    }
                }
            }
        }
    }

    /// Append a fresh entry with the canonical defaults.  The new identifier
    /// is distinct from every identifier already present; every existing
    /// entry is kept unchanged, in its place.
    pub fn add_entry(&mut self) -> (id: u128)
        requires
            old(self).wf(),
        ensures
            final(self).wf(),
            !view_has_key(old(self)@, id),
            final(self)@ == old(self)@.push((id, default_entry_view())),
    {
        let m = Model::new();
        let id = fresh_id(&self.map);
        proof {
            lemma_keys_agree(map_entries(self.map), id);
        }
        self.push_pair(id, m);
        id
    }

    /// Remove the entry under `id`, closing the gap: the remaining entries
    /// keep their relative order.  An absent identifier changes nothing.
    pub fn remove_entry(&mut self, id: u128)
        requires
            old(self).wf(),
        ensures
            final(self).wf(),
            view_has_key(old(self)@, id) ==> exists|i: int|
                0 <= i < old(self)@.len() && (#[trigger] old(self)@[i]).0 == id && final(self)@
                    == old(self)@.remove(i),
            !view_has_key(old(self)@, id) ==> final(self)@ == old(self)@,
    {
        let ghost s_old = map_entries(self.map);
        let ghost v_old = self@;
        im_shift_remove(&mut self.map, id);
        proof {
            lemma_keys_agree(s_old, id);
            if seq_has_key(s_old, id) {
                let i = choose|i: int|
                    0 <= i < s_old.len() && (#[trigger] s_old[i]).0 == id && map_entries(self.map)
                        == s_old.remove(i);
                assert(v_old[i] == (s_old[i].0, s_old[i].1@));
                assert(self@ =~= v_old.remove(i)) by {
                    s_old.remove_ensures(i);
                    v_old.remove_ensures(i);
                    assert forall|j: int| 0 <= j < self@.len() implies self@[j] == v_old.remove(
                        i,
                    )[j] by {
                        assert(self@[j] == (s_old.remove(i)[j].0, s_old.remove(i)[j].1@));
                        if j < i {
                            assert(s_old.remove(i)[j] == s_old[j]);
                            assert(v_old.remove(i)[j] == v_old[j]);
                            assert(v_old[j] == (s_old[j].0, s_old[j].1@));
                        } else {
                            assert(s_old.remove(i)[j] == s_old[j + 1]);
                            assert(v_old.remove(i)[j] == v_old[j + 1]);
                            assert(v_old[j + 1] == (s_old[j + 1].0, s_old[j + 1].1@));
                        }
                    }
                }
                assert(distinct_keys(self@)) by {
                    v_old.remove_ensures(i);
                    assert forall|a: int, b: int| 0 <= a < b < self@.len() implies (
                    #[trigger] self@[a]).0 != (#[trigger] self@[b]).0 by {
                        let a2: int = if a < i {
                            a
                        } else {
                            a + 1
                        };
                        let b2: int = if b < i {
                            b
                        } else {
                            b + 1
                        };
                        assert(self@[a] == v_old[a2]);
                        assert(self@[b] == v_old[b2]);
                    }
                }
            } else {
                assert(self@ == v_old);
            }
        }
    }
}

impl Collection {
    /// The collection a fresh start builds: exactly two entries, both with
    /// the canonical defaults, under two distinct fresh identifiers.
    pub fn with_default_entries() -> (c: Collection)
        ensures
            c.wf(),
            c@.len() == 2,
            c@[0].1 == default_entry_view(),
            c@[1].1 == default_entry_view(),
            c@[0].0 != c@[1].0,
    {
        let mut c = Collection::empty();
        let id0 = c.add_entry();
        let ghost mid = c@;
        let id1 = c.add_entry();
        proof {
            assert(mid[0] == (id0, default_entry_view()));
            assert(c@[0] == mid[0]);
            assert(c@[1] == (id1, default_entry_view()));
            if id0 == id1 {
                assert(view_has_key(mid, id1));
            }
        }
        c
    }

    /// Decide, before an edit is routed, whether the edited entry would have
    /// all five fields valid, and hand out the five post-edit texts for the
    /// caller to evaluate numerically.  An absent identifier, a remove
    /// event, and an entry left invalid all yield nothing.
    pub fn preview_edit(&self, id: u128, msg: &Msg) -> (r: Option<ComputeInputs>)
        requires
            self.wf(),
        ensures
            match lookup_view(self@, id) {
                None => r is None,
                Some(v) => {
                    &&& (r is Some <==> (!(*msg is RemoveClicked) && all_valid(
                        apply_msg_view(v, *msg),
                    )))
                    &&& (r matches Some(ci) ==> {
                        let w = apply_msg_view(v, *msg);
                        &&& ci.annual_savings_contribution_in_dollars@
                            == w.annual_savings_contribution_in_dollars
                        &&& ci.desired_annual_retirement_income@
                            == w.desired_annual_retirement_income
                        &&& ci.savings_apr@ == w.savings_apr
                        &&& ci.safe_withdrawal_rate@ == w.safe_withdrawal_rate
                        &&& ci.initial_retirement_savings_in_dollars@
                            == w.initial_retirement_savings_in_dollars
                    })
                },
            },
    {
        match self.get_entry(id) {
            None => None,
            Some(entry_model) => preview(&entry_model, msg),
        }
    }

    /// Route one event to the entry under `id`: store the edited raw text
    /// verbatim and replace the derived outputs by the computed pair, or
    /// honor a remove request by deleting the entry.  An absent identifier
    /// changes nothing.  The `requires` pins the computed pair to what
    /// `preview_edit` answered for this very event.
    pub fn dispatch(&mut self, id: u128, msg: Msg, computed: Option<(String, String)>)
        requires
            old(self).wf(),
            match lookup_view(old(self)@, id) {
                None => computed is None,
                Some(v) => {
                    &&& (!(msg is RemoveClicked) ==> (computed is Some <==> all_valid(
                        apply_msg_view(v, msg),
                    )))
                    &&& (msg is RemoveClicked ==> computed is None)
                },
            },
        ensures
            final(self).wf(),
            lookup_view(old(self)@, id) is None ==> final(self)@ == old(self)@,
            (lookup_view(old(self)@, id) is Some && msg is RemoveClicked) ==> exists|i: int|
                0 <= i < old(self)@.len() && (#[trigger] old(self)@[i]).0 == id && final(self)@
                    == old(self)@.remove(i),
            (lookup_view(old(self)@, id) is Some && !(msg is RemoveClicked)) ==> exists|i: int|
                0 <= i < old(self)@.len() && (#[trigger] old(self)@[i]).0 == id && final(self)@
                    == old(self)@.update(
                    i,
                    (id, updated_view(old(self)@[i].1, msg, computed_view(computed))),
                ),
    {
        let existing = self.get_entry(id);
        match existing {
            None => {},
            Some(mut entry_model) => {
                let ghost msg_snapshot = msg;
                let out = update(msg, &mut entry_model, computed);
                match out {
                    OutMsg::RemoveMe => {
                        proof {
                            lemma_lookup_some_iff_has_key(self@, id);
                        }
                        self.remove_entry(id);
                    },
                    OutMsg::NoOp => {
                        let ghost s_old = map_entries(self.map);
                        let ghost v_old = self@;
                        proof {
                            lemma_lookup_some_iff_has_key(v_old, id);
                            assert(seq_has_key(s_old, id)) by {
                                let i = choose|i: int|
                                    0 <= i < v_old.len() && (#[trigger] v_old[i]).0 == id;
                                assert(v_old[i] == (s_old[i].0, s_old[i].1@));
                            }
                        }
                        im_insert(&mut self.map, id, entry_model);
                        proof {
                            let j = choose|j: int|
                                0 <= j < s_old.len() && (#[trigger] s_old[j]).0 == id
                                    && map_entries(self.map) == s_old.update(
                                    j,
                                    (id, entry_model),
                                );
                            assert(v_old[j] == (s_old[j].0, s_old[j].1@));
                            lemma_lookup_at_index(v_old, id, j);
                            assert(self@ =~= v_old.update(
                                j,
                                (id, updated_view(v_old[j].1, msg_snapshot, computed_view(computed))),
                            )) by {
                                assert forall|a: int| 0 <= a < self@.len() implies self@[a]
                                    == v_old.update(
                                    j,
                                    (
                                        id,
                                        updated_view(
                                            v_old[j].1,
                                            msg_snapshot,
                                            computed_view(computed),
                                        ),
                                    ),
                                )[a] by {
                                    assert(self@[a] == (
                                        s_old.update(j, (id, entry_model))[a].0,
                                        s_old.update(j, (id, entry_model))[a].1@,
                                    ));
                                    if a != j {
                                        assert(v_old[a] == (s_old[a].0, s_old[a].1@));
                                    }
                                }
                            }
                            assert forall|a: int, b: int| 0 <= a < b < self@.len() implies (
                            #[trigger] self@[a]).0 != (#[trigger] self@[b]).0 by {
                                assert(self@[a].0 == v_old[a].0);
                                assert(self@[b].0 == v_old[b].0);
                            }
                        }
                    },
                }
            },
        }
    }
}

/// The key sets of a pair sequence and of its view agree.
proof fn lemma_keys_agree(s: Seq<(u128, Model)>, k: u128)
    ensures
        seq_has_key(s, k) <==> view_has_key(view_of(s), k),
{
    if seq_has_key(s, k) {
        let i = choose|i: int| 0 <= i < s.len() && (#[trigger] s[i]).0 == k;
        assert(view_of(s)[i] == (s[i].0, s[i].1@));
    }
    if view_has_key(view_of(s), k) {
        let i = choose|i: int| 0 <= i < view_of(s).len() && (#[trigger] view_of(s)[i]).0 == k;
        assert(view_of(s)[i] == (s[i].0, s[i].1@));
    }
}

/// An identifier not yet in use: one random draw, and — should that draw
/// ever collide — a deterministic probe that must find a hole among the
/// first `len + 1` candidates.
fn fresh_id(m: &indexmap::IndexMap<u128, Model>) -> (id: u128)
    ensures
        !seq_has_key(map_entries(*m), id),
{
    let cand = random_id();
    if im_get(m, cand).is_none() {
        return cand;
    }
    let pairs = im_pairs(m);
    probe_id(&pairs)
}

/// Whether some pair of the vector carries the key.
fn contains_key_vec(v: &Vec<(u128, Model)>, k: u128) -> (r: bool)
    ensures
        r == exists|i: int| 0 <= i < v@.len() && (#[trigger] v@[i]).0 == k,
{
    let n = v.len();
    let mut i: usize = 0;
    while i < n
        invariant
            0 <= i <= n,
            n == v@.len(),
            forall|j: int| 0 <= j < i ==> (#[trigger] v@[j]).0 != k,
        decreases n - i,
    {
        if v[i].0 == k {
            return true;
        }
        i += 1;
    }
    false
}

/// The first value in `0 ..= len` that is no key of `v`.  There are more
/// candidates than keys, so the probe cannot run out.
fn probe_id(v: &Vec<(u128, Model)>) -> (id: u128)
    ensures
        forall|i: int| 0 <= i < v@.len() ==> (#[trigger] v@[i]).0 != id,
{
    let n = v.len();
    let mut c: u128 = 0;
    while c <= n as u128
        invariant
            c <= n as u128 + 1,
            n == v@.len(),
            forall|x: u128| x < c ==> #[trigger] seq_has_key(v@, x),
        decreases n as u128 + 1 - c,
    {
        if !contains_key_vec(v, c) {
            return c;
        }
        proof {
            assert(seq_has_key(v@, c));
        }
        c += 1;
    }
    proof {
        // Every value in 0 ..= len would be among the len keys.
        let keyints = v@.map_values(|p: (u128, Model)| p.0 as int);
        keyints.lemma_cardinality_of_set();
        let cands = vstd::set_lib::set_int_range(0, n as int + 1);
        vstd::set_lib::lemma_int_range(0, n as int + 1);
        assert forall|x: int| cands.contains(x) implies keyints.to_set().contains(x) by {
            let xu = x as u128;
            assert(xu < c);
            assert(seq_has_key(v@, xu));
            let i = choose|i: int| 0 <= i < v@.len() && (#[trigger] v@[i]).0 == xu;
            assert(keyints[i] == x);
            assert(keyints.contains(x));
        }
        assert(cands.subset_of(keyints.to_set()));
        vstd::set_lib::lemma_len_subset(cands, keyints.to_set());
        assert(false);
    }
    0
}

} // verus!
