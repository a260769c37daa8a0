//! Properties that relate the matcher's functions, proved over their
//! contracts.
use vstd::prelude::*;
use crate::links::{AddressInput, declared, linked_addresses, named, occurrences};
use crate::matcher::{
    BorderSearch, Candidate, FallbackSearch, indices_valid, inside_ids, is_border, joined, present,
};
use crate::records::MatchOutput;
use crate::records::{INSIDE_EPS_MM, MatchType, confidence_of};
use crate::text::seq_less;

verus! {

/// How many times `x` occurs in `s`.
pub open spec fn count_of(s: Seq<Seq<char>>, x: Seq<char>) -> nat
    decreases s.len(),
{
    if s.len() == 0 {
        0
    } else {
        count_of(s.drop_last(), x) + if s.last() == x {
            1nat
        } else {
            0nat
        }
    }
}

proof fn lemma_count_concat(a: Seq<Seq<char>>, b: Seq<Seq<char>>, x: Seq<char>)
    ensures
        count_of(a + b, x) == count_of(a, x) + count_of(b, x),
    decreases b.len(),
{
    if b.len() > 0 {
        assert((a + b).drop_last() =~= a + b.drop_last());
        lemma_count_concat(a, b.drop_last(), x);
    } else {
        assert(a + b =~= a);
    }
}

proof fn lemma_count_repeat(n: nat, y: Seq<char>, x: Seq<char>)
    ensures
        count_of(Seq::new(n, |k: int| y), x) == if y == x {
            n
        } else {
            0
        },
    decreases n,
{
    if n > 0 {
        assert(Seq::new(n, |k: int| y).drop_last() =~= Seq::new((n - 1) as nat, |k: int| y));
        lemma_count_repeat((n - 1) as nat, y, x);
    }
}

/// A pre-declared link yields exactly one record per address and parcel:
/// when address `i` is the only address with its id, the records of parcel
/// id `pid` carry that id exactly once if its link list names `pid` (however
/// often), and not at all otherwise.
pub proof fn pre_declared_once(addrs: Seq<AddressInput>, i: int, pid: Seq<char>)
    requires
        0 <= i < addrs.len(),
        forall|j: int| 0 <= j < addrs.len() && j != i ==> addrs[j].id@ != addrs[i].id@,
    ensures
        count_of(linked_addresses(addrs, pid), addrs[i].id@) == if occurrences(declared(addrs[i]), pid)
            > 0 {
            1nat
        } else {
            0nat
        },
    decreases addrs.len(),
{
    let a = addrs.last();
    let rep = Seq::new(named(declared(a), pid), |k: int| a.id@);
    assert(linked_addresses(addrs, pid) == linked_addresses(addrs.drop_last(), pid) + rep);
    lemma_count_concat(linked_addresses(addrs.drop_last(), pid), rep, addrs[i].id@);
    lemma_count_repeat(named(declared(a), pid), a.id@, addrs[i].id@);
    if i < addrs.len() - 1 {
        assert(addrs[addrs.len() - 1].id@ != addrs[i].id@);
        assert(addrs.drop_last()[i] == addrs[i]);
        pre_declared_once(addrs.drop_last(), i, pid);
    } else {
        lemma_absent(addrs.drop_last(), pid, a.id@);
    }
}

proof fn lemma_absent(addrs: Seq<AddressInput>, pid: Seq<char>, x: Seq<char>)
    requires
        forall|j: int| 0 <= j < addrs.len() ==> addrs[j].id@ != x,
    ensures
        count_of(linked_addresses(addrs, pid), x) == 0,
    decreases addrs.len(),
{
    if addrs.len() > 0 {
        let a = addrs.last();
        let rep = Seq::new(named(declared(a), pid), |k: int| a.id@);
        lemma_count_concat(linked_addresses(addrs.drop_last(), pid), rep, x);
        lemma_count_repeat(named(declared(a), pid), a.id@, x);
        assert(addrs[addrs.len() - 1].id@ != x);
        assert forall|j: int| 0 <= j < addrs.drop_last().len() implies addrs.drop_last()[j].id@ != x by {
            assert(addrs.drop_last()[j] == addrs[j]);
        }
        lemma_absent(addrs.drop_last(), pid, x);
    }
}

/// A border choice lies beyond the inside tolerance and within the
/// threshold, no parcel offered to the search qualifies at a strictly
/// smaller distance, and every qualifying parcel offered before it was
/// strictly farther (among equals the first offered wins).
pub proof fn border_choice_is_nearest(s: BorderSearch)
    requires
        s.wf(),
    ensures
        s.best.is_some() ==> {
            let d = s.best.unwrap().1;
            &&& 0 < d
            &&& INSIDE_EPS_MM < d <= s.threshold_mm
            &&& forall|k: int|
                0 <= k < s.offered@.len() && is_border(#[trigger] s.offered@[k].1, s.threshold_mm)
                    ==> !(s.offered@[k].1.unwrap() < d)
            &&& s.offered@[s.at@] == (s.best.unwrap().0, Some(d))
            &&& forall|k: int|
                0 <= k < s.at@ && is_border(#[trigger] s.offered@[k].1, s.threshold_mm) ==> d
                    < s.offered@[k].1.unwrap()
        },
{
}

/// A fallback choice is within the ceiling; no address measured within the
/// ceiling is strictly nearer, none as near has a smaller id, and every
/// address left unmeasured had a lower bound strictly beyond the choice.
pub proof fn fallback_choice_is_nearest(s: FallbackSearch)
    requires
        s.wf(),
    ensures
        s.best.is_some() ==> {
            let d = s.best.unwrap().1;
            &&& d <= s.max_mm
            &&& forall|k: int|
                0 <= k < s.measured@.len() ==> !((#[trigger] s.measured@[k]).1 < d)
            &&& forall|k: int|
                0 <= k < s.measured@.len() && (#[trigger] s.measured@[k]).1 == d ==> !seq_less(
                    s.measured@[k].0,
                    s.best_id@,
                )
            &&& forall|k: int| 0 <= k < s.pruned@.len() ==> d < #[trigger] s.pruned@[k]
        },
{
}

/// The confidence of a record depends on its kind and distance alone, by the
/// fixed table: pre-declared 100, inside 90, border 80 under 5 m and 70
/// beyond, fallback 50.
pub proof fn confidence_table(kind: MatchType, d: u64)
    ensures
        kind == MatchType::PreExisting ==> confidence_of(kind, d) == 100,
        kind == MatchType::Inside ==> confidence_of(kind, d) == 90,
        kind == MatchType::BorderNear && d < 5000 ==> confidence_of(kind, d) == 80,
        kind == MatchType::BorderNear && d >= 5000 ==> confidence_of(kind, d) == 70,
        kind == MatchType::FallbackNearest ==> confidence_of(kind, d) == 50,
{
}

proof fn lemma_joined_empty(s: Seq<Vec<MatchOutput>>)
    requires
        forall|k: int| 0 <= k < s.len() ==> (#[trigger] s[k])@.len() == 0,
    ensures
        joined(s).len() == 0,
    decreases s.len(),
{
    if s.len() > 0 {
        assert(s[s.len() - 1]@.len() == 0);
        lemma_joined_empty(s.drop_last());
    }
}

proof fn lemma_present_empty(s: Seq<Option<MatchOutput>>)
    requires
        forall|k: int| 0 <= k < s.len() ==> (#[trigger] s[k]).is_none(),
    ensures
        present(s).len() == 0,
    decreases s.len(),
{
    if s.len() > 0 {
        assert(s[s.len() - 1].is_none());
        lemma_present_empty(s.drop_last());
    }
}

/// With no addresses nothing is emitted: no parcel has pre-declared
/// records, no candidate can name an address so no inside record arises, a
/// fallback search that measured nothing chooses nothing, and stages that
/// yield nothing concatenate to no record.
pub proof fn no_addresses_no_records(
    addrs: Seq<AddressInput>,
    pid: Seq<char>,
    strict: Seq<Seq<char>>,
    cands: Seq<Candidate>,
    search: FallbackSearch,
    stage1: Seq<Vec<MatchOutput>>,
    stage2: Seq<Option<MatchOutput>>,
    stage3: Seq<Option<MatchOutput>>,
)
    requires
        addrs.len() == 0,
        indices_valid(addrs, cands),
        search.wf(),
        search.measured@.len() == 0,
        forall|k: int| 0 <= k < stage1.len() ==> (#[trigger] stage1[k])@.len() == 0,
        forall|k: int| 0 <= k < stage2.len() ==> (#[trigger] stage2[k]).is_none(),
        forall|k: int| 0 <= k < stage3.len() ==> (#[trigger] stage3[k]).is_none(),
    ensures
        linked_addresses(addrs, pid).len() == 0,
        inside_ids(strict, addrs, cands).len() == 0,
        search.best.is_none(),
        (joined(stage1) + present(stage2) + present(stage3)).len() == 0,
{
    if cands.len() > 0 {
        assert(cands[0].index < addrs.len());
    }
    lemma_joined_empty(stage1);
    lemma_present_empty(stage2);
    lemma_present_empty(stage3);
}

} // verus!
