//! Decision logic of the three-stage matcher.
//!
//! The geometry layer (point-to-polygon distances, envelope queries) runs
//! outside this module and hands in what it measured, as whole millimetres;
//! every choice about which records to emit is taken here.
use vstd::prelude::*;
use crate::links::AddressInput;
use crate::records::{
    INSIDE_EPS_MM, MatchConfig, MatchOutput, MatchType, is_record,
};
use crate::text::{seq_less, str_eq, str_less};
use std::collections::HashSet;

verus! {

broadcast use vstd::std_specs::hash::group_hash_axioms;

/// An address found in a parcel's envelope, with its distance to the parcel;
/// `None` when the distance is not a finite number.
pub struct Candidate {
    pub index: usize,
    pub distance_mm: Option<u64>,
}

/// Whether a measured distance places the address inside the parcel or on its
/// border.
pub open spec fn is_inside(d: Option<u64>) -> bool {
    match d {
        Some(x) => x <= INSIDE_EPS_MM,
        None => false,
    }
}

/// Address ids that the inside test admits, in candidate order, leaving out
/// the addresses of `strict` (those already linked by a pre-declared record).
pub open spec fn inside_ids(
    strict: Seq<Seq<char>>,
    addrs: Seq<AddressInput>,
    cands: Seq<Candidate>,
) -> Seq<Seq<char>>
    decreases cands.len(),
{
    if cands.len() == 0 {
        Seq::empty()
    } else {
        let c = cands.last();
        let rest = inside_ids(strict, addrs, cands.drop_last());
        if is_inside(c.distance_mm) && !strict.contains(addrs[c.index as int].id@) {
            rest.push(addrs[c.index as int].id@)
        } else {
            rest
        }
    }
}

/// The address ids of records.
pub open spec fn ban_ids(rs: Seq<MatchOutput>) -> Seq<Seq<char>> {
    rs.map_values(|m: MatchOutput| m.id_ban@)
}

/// Whether every candidate names an address of `addrs`.
pub open spec fn indices_valid(addrs: Seq<AddressInput>, cands: Seq<Candidate>) -> bool {
    forall|k: int| 0 <= k < cands.len() ==> (#[trigger] cands[k]).index < addrs.len()
}

proof fn lemma_inside_ids_measured(
    strict: Seq<Seq<char>>,
    addrs: Seq<AddressInput>,
    cands: Seq<Candidate>,
    k: int,
)
    requires
        indices_valid(addrs, cands),
        0 <= k < inside_ids(strict, addrs, cands).len(),
    ensures
        exists|c: int|
            0 <= c < cands.len() && is_inside(cands[c].distance_mm) && addrs[cands[c].index as int].id@
                == #[trigger] inside_ids(strict, addrs, cands)[k],
    decreases cands.len(),
{
    let rest = inside_ids(strict, addrs, cands.drop_last());
    if k < rest.len() {
        lemma_inside_ids_measured(strict, addrs, cands.drop_last(), k);
        let c = choose|c: int|
            0 <= c < cands.drop_last().len() && is_inside(cands.drop_last()[c].distance_mm)
                && addrs[cands.drop_last()[c].index as int].id@ == rest[k];
        assert(cands[c] == cands.drop_last()[c]);
    } else {
        assert(cands[cands.len() - 1] == cands.last());
    }
}

/// Records of the first stage for one parcel: its pre-declared records
/// first, then one `Inside` record for each candidate address found inside
/// the parcel or on its border, unless a pre-declared record already links
/// that address.
pub fn inside_matches(
    parcel_id: &String,
    pre: &Vec<MatchOutput>,
    addresses: &Vec<AddressInput>,
    candidates: &Vec<Candidate>,
) -> (r: Vec<MatchOutput>)
    requires
        indices_valid(addresses@, candidates@),
    ensures
        r@.len() == pre@.len() + inside_ids(ban_ids(pre@), addresses@, candidates@).len(),
        forall|k: int| 0 <= k < pre@.len() ==> (#[trigger] r@[k]).same(pre@[k]),
        forall|k: int|
            0 <= k < inside_ids(ban_ids(pre@), addresses@, candidates@).len() ==> is_record(
                #[trigger] r@[pre@.len() + k],
                inside_ids(ban_ids(pre@), addresses@, candidates@)[k],
                Some(parcel_id@),
                0,
                MatchType::Inside,
            ),
        forall|k: int|
            pre@.len() <= k < r@.len() ==> exists|c: int|
                0 <= c < candidates@.len() && is_inside(candidates@[c].distance_mm)
                    && addresses@[candidates@[c].index as int].id@ == (#[trigger] r@[k]).id_ban@,
{
    let ghost strict = ban_ids(pre@);
    let np = pre.len();
    let mut out: Vec<MatchOutput> = Vec::new();
    let mut k: usize = 0;
    while k < np
        invariant
            np == pre@.len(),
            k <= np,
            out@.len() == k,
            forall|q: int| 0 <= q < k ==> (#[trigger] out@[q]).same(pre@[q]),
        decreases np - k,
    {
        out.push(pre[k].duplicate());
        k = k + 1;
    }
    let nc = candidates.len();
    let mut c: usize = 0;
    assert(candidates@.take(0) =~= Seq::<Candidate>::empty());
    while c < nc
        invariant
            np == pre@.len(),
            nc == candidates@.len(),
            indices_valid(addresses@, candidates@),
            strict == ban_ids(pre@),
            c <= nc,
            out@.len() == np + inside_ids(strict, addresses@, candidates@.take(c as int)).len(),
            forall|q: int| 0 <= q < np ==> (#[trigger] out@[q]).same(pre@[q]),
            forall|q: int|
                0 <= q < inside_ids(strict, addresses@, candidates@.take(c as int)).len()
                    ==> is_record(
                    #[trigger] out@[np + q],
                    inside_ids(strict, addresses@, candidates@.take(c as int))[q],
                    Some(parcel_id@),
                    0,
                    MatchType::Inside,
                ),
        decreases nc - c,
    {
        let cand = &candidates[c];
        assert(candidates@.take(c + 1).drop_last() =~= candidates@.take(c as int));
        assert(candidates@.take(c + 1).last() == *cand);
        let a = &addresses[cand.index];
        let inside = match cand.distance_mm {
            Some(d) => d <= INSIDE_EPS_MM,
            None => false,
        };
        if inside {
            let mut linked = false;
            let mut k: usize = 0;
            while k < np
                invariant
                    np == pre@.len(),
                    strict == ban_ids(pre@),
                    k <= np,
                    linked == exists|q: int| 0 <= q < k && strict[q] == a.id@,
                decreases np - k,
            {
                assert(strict[k as int] == pre@[k as int].id_ban@);
                if str_eq(pre[k].id_ban.as_str(), a.id.as_str()) {
                    linked = true;
                }
                k = k + 1;
            }
            if !linked {
                let ghost old_out = out@;
                out.push(MatchOutput::new(a.id.clone(), Some(parcel_id.clone()), 0, MatchType::Inside));
                assert forall|q: int| 0 <= q < np implies (#[trigger] out@[q]).same(pre@[q]) by {
                    assert(out@[q] == old_out[q]);
                }
            }
        }
        c = c + 1;
    }
    assert(candidates@.take(nc as int) =~= candidates@);
    proof {
        let ids = inside_ids(strict, addresses@, candidates@);
        assert forall|k: int| np <= k < out@.len() implies exists|c: int|
            0 <= c < candidates@.len() && is_inside(candidates@[c].distance_mm)
                && addresses@[candidates@[c].index as int].id@ == (#[trigger] out@[k]).id_ban@ by {
            assert(is_record(out@[np + (k - np)], ids[k - np], Some(parcel_id@), 0, MatchType::Inside));
            lemma_inside_ids_measured(strict, addresses@, candidates@, k - np);
        }
    }
    out
}

/// Whether a measured distance makes a border match under threshold `thr`:
/// finite, beyond the inside tolerance and at most `thr`.
pub open spec fn is_border(d: Option<u64>, thr: u64) -> bool {
    match d {
        Some(x) => INSIDE_EPS_MM < x && x <= thr,
        None => false,
    }
}

/// The second stage for one address: parcels come in increasing envelope
/// distance, each with its measured distance, and the search keeps the first
/// parcel at the strictly smallest qualifying distance.
pub struct BorderSearch {
    pub threshold_mm: u64,
    /// Chosen parcel (by index) and its distance.
    pub best: Option<(usize, u64)>,
    /// The parcels offered so far, with their distances.
    pub offered: Ghost<Seq<(usize, Option<u64>)>>,
    /// Position of the chosen parcel among those offered.
    pub at: Ghost<int>,
}

impl BorderSearch {
    /// The choice is the first offered parcel at the smallest qualifying
    /// distance, or there is none when no offered parcel qualifies.
    pub open spec fn wf(&self) -> bool {
        let offered = self.offered@;
        match self.best {
            Some((p, d)) => {
                &&& 0 <= self.at@ < offered.len()
                &&& offered[self.at@] == (p, Some(d))
                &&& is_border(Some(d), self.threshold_mm)
                &&& forall|k: int|
                    0 <= k < offered.len() && is_border(#[trigger] offered[k].1, self.threshold_mm)
                        ==> d <= offered[k].1.unwrap()
                &&& forall|k: int|
                    0 <= k < self.at@ && is_border(#[trigger] offered[k].1, self.threshold_mm)
                        ==> d < offered[k].1.unwrap()
            },
            None => forall|k: int|
                0 <= k < offered.len() ==> !is_border(#[trigger] offered[k].1, self.threshold_mm),
        }
    }

    /// A search with nothing offered yet.
    pub fn new(threshold_mm: u64) -> (r: Self)
        ensures
            r.wf(),
            r.threshold_mm == threshold_mm,
            r.best.is_none(),
            r.offered@ == Seq::<(usize, Option<u64>)>::empty(),
    {
        BorderSearch { threshold_mm, best: None, offered: Ghost(Seq::empty()), at: Ghost(0) }
    }

    /// Whether a parcel whose envelope lies at squared distance
    /// `envelope_sq_mm2` from the address can still qualify; the search ends
    /// at the first parcel that cannot.
    pub fn within_reach(&self, envelope_sq_mm2: u128) -> (r: bool)
        ensures
            r == (envelope_sq_mm2 <= self.threshold_mm * self.threshold_mm),
    {
        let t = self.threshold_mm as u128;
        assert(t * t <= 0xffff_ffff_ffff_ffff_ffff_ffff_ffff_ffff) by (nonlinear_arith)
            requires
                t <= 0xffff_ffff_ffff_ffff,
        ;
        envelope_sq_mm2 <= t * t
    }

    /// Offers parcel `parcel` at measured distance `distance_mm`; it becomes
    /// the choice when it qualifies and is strictly closer than the choice.
    pub fn offer(&mut self, parcel: usize, distance_mm: Option<u64>)
        requires
            old(self).wf(),
        ensures
            final(self).wf(),
            final(self).threshold_mm == old(self).threshold_mm,
            final(self).offered@ == old(self).offered@.push((parcel, distance_mm)),
            final(self).best == (if is_border(distance_mm, old(self).threshold_mm) && (match old(
                self,
            ).best {
                Some((p, d)) => distance_mm.unwrap() < d,
                None => true,
            }) {
                Some((parcel, distance_mm.unwrap()))
            } else {
                old(self).best
            }),
    {
        let ghost before = self.offered@;
        self.offered = Ghost(self.offered@.push((parcel, distance_mm)));
        assert(forall|k: int| 0 <= k < before.len() ==> self.offered@[k] == before[k]);
        if let Some(d) = distance_mm {
            if INSIDE_EPS_MM < d && d <= self.threshold_mm {
                let better = match self.best {
                    Some((_, bd)) => d < bd,
                    None => true,
                };
                if better {
                    self.best = Some((parcel, d));
                    self.at = Ghost(before.len() as int);
                }
            }
        }
    }

    /// The border record of address `address_id`, if a parcel was chosen.
    pub fn into_record(&self, address_id: &String, parcel_ids: &Vec<String>) -> (r: Option<
        MatchOutput,
    >)
        requires
            match self.best {
                Some((p, d)) => p < parcel_ids@.len(),
                None => true,
            },
        ensures
            match self.best {
                Some((p, d)) => r.is_some() && is_record(
                    r.unwrap(),
                    address_id@,
                    Some(parcel_ids@[p as int]@),
                    d,
                    MatchType::BorderNear,
                ),
                None => r.is_none(),
            },
    {
        match self.best {
            Some((p, d)) => Some(
                MatchOutput::new(address_id.clone(), Some(parcel_ids[p].clone()), d, MatchType::BorderNear),
            ),
            None => None,
        }
    }
}

/// What the fallback search makes of an address in its window.
#[derive(Clone, Copy, Debug, PartialEq, Eq, Structural)]
pub enum Visit {
    /// Met in an earlier window: nothing to do.
    Seen,
    /// Its lower bound is beyond the current best: it can neither beat nor
    /// tie it, so there is no need to measure it.
    Pruned,
    /// Measure its distance and offer it.
    Measure,
}

/// The radius after a round, or `None` when the search stops.
pub open spec fn next_radius(r: u64, max: u64, any_new: bool, best: Option<(usize, u64)>) -> Option<u64> {
    if best.is_some() && best.unwrap().1 <= r {
        None
    } else if !any_new && r >= max {
        None
    } else {
        let doubled = if r > max / 2 { max } else { (2 * r) as u64 };
        let next = match best {
            Some((_, d)) => if d > r {
                if d < max { d } else { max }
            } else {
                doubled
            },
            None => doubled,
        };
        if next <= r {
            None
        } else {
            Some(next)
        }
    }
}

/// The third stage for one parcel without a match: windows around the
/// parcel's envelope grow round by round, and the search keeps the nearest
/// address within the fallback ceiling, the smallest id first among equals.
pub struct FallbackSearch {
    pub max_mm: u64,
    pub radius_mm: u64,
    /// Addresses met so far, by index.
    pub seen: HashSet<usize>,
    /// Whether the current round met an address not seen before.
    pub any_new: bool,
    pub stopped: bool,
    /// Chosen address (by index) and its distance.
    pub best: Option<(usize, u64)>,
    /// Id of the chosen address.
    pub best_id: String,
    /// Ids and distances of the addresses measured within the ceiling.
    pub measured: Ghost<Seq<(Seq<char>, u64)>>,
    /// Lower bounds of the addresses that were not measured.
    pub pruned: Ghost<Seq<u64>>,
}

impl FallbackSearch {
    /// The choice is the nearest measured address, the smallest id among
    /// equals, and no address that went unmeasured could have been nearer.
    pub open spec fn wf(&self) -> bool {
        let measured = self.measured@;
        let pruned = self.pruned@;
        match self.best {
            Some((i, d)) => {
                &&& d <= self.max_mm
                &&& measured.contains((self.best_id@, d))
                &&& forall|k: int| 0 <= k < measured.len() ==> d <= (#[trigger] measured[k]).1
                &&& forall|k: int|
                    0 <= k < measured.len() && (#[trigger] measured[k]).1 == d ==> !seq_less(
                        measured[k].0,
                        self.best_id@,
                    )
                &&& forall|k: int| 0 <= k < pruned.len() ==> d < #[trigger] pruned[k]
            },
            None => measured.len() == 0 && pruned.len() == 0,
        }
    }

    /// A search for a parcel under `config`, at its initial radius.
    pub fn new(config: &MatchConfig) -> (r: Self)
        ensures
            r.wf(),
            r.max_mm == config.fallback_max_distance_mm,
            r.radius_mm == config.start_radius(),
            r.seen@ == Set::<usize>::empty(),
            !r.any_new,
            !r.stopped,
            r.best.is_none(),
    {
        FallbackSearch {
            max_mm: config.fallback_max_distance_mm,
            radius_mm: config.initial_radius(),
            seen: HashSet::new(),
            any_new: false,
            stopped: false,
            best: None,
            best_id: String::new(),
            measured: Ghost(Seq::empty()),
            pruned: Ghost(Seq::empty()),
        }
    }

    /// Whether another round is due: the search has not stopped and the
    /// radius is within the ceiling.
    pub fn active(&self) -> (r: bool)
        ensures
            r == (!self.stopped && self.radius_mm <= self.max_mm),
    {
        !self.stopped && self.radius_mm <= self.max_mm
    }

    /// Meets address `index` in the current window, at lower bound
    /// `lower_bound_mm` (its distance to the parcel's envelope).
    pub fn visit(&mut self, index: usize, lower_bound_mm: u64) -> (r: Visit)
        requires
            old(self).wf(),
        ensures
            final(self).wf(),
            final(self).max_mm == old(self).max_mm,
            final(self).radius_mm == old(self).radius_mm,
            final(self).stopped == old(self).stopped,
            final(self).best == old(self).best,
            final(self).best_id == old(self).best_id,
            final(self).measured == old(self).measured,
            old(self).seen@.contains(index) ==> r == Visit::Seen && final(self).seen@ == old(self).seen@
                && final(self).any_new == old(self).any_new && final(self).pruned == old(self).pruned,
            !old(self).seen@.contains(index) ==> {
                &&& final(self).seen@ == old(self).seen@.insert(index)
                &&& final(self).any_new
                &&& r == (if old(self).best.is_some() && lower_bound_mm > old(self).best.unwrap().1 {
                    Visit::Pruned
                } else {
                    Visit::Measure
                })
                &&& final(self).pruned@ == (if r == Visit::Pruned {
                    old(self).pruned@.push(lower_bound_mm)
                } else {
                    old(self).pruned@
                })
            },
    {
        if !self.seen.insert(index) {
            assert(self.seen@ =~= old(self).seen@.insert(index));
            return Visit::Seen;
        }
        self.any_new = true;
        match self.best {
            Some((_, bd)) => {
                if lower_bound_mm > bd {
                    self.pruned = Ghost(self.pruned@.push(lower_bound_mm));
                    proof {
                        let pruned = self.pruned@;
                        assert forall|k: int| 0 <= k < pruned.len() implies bd < #[trigger] pruned[k] by {
                            if k < pruned.len() - 1 {
                                assert(pruned[k] == old(self).pruned@[k]);
                            }
                        }
                    }
                    Visit::Pruned
                } else {
                    Visit::Measure
                }
            },
            None => Visit::Measure,
        }
    }

    /// Offers address `index`, with id `id`, at measured distance
    /// `distance_mm`; within the ceiling it becomes the choice when it is
    /// strictly nearer, or as near with a smaller id.
    pub fn offer(&mut self, index: usize, id: &String, distance_mm: Option<u64>)
        requires
            old(self).wf(),
        ensures
            final(self).wf(),
            final(self).max_mm == old(self).max_mm,
            final(self).radius_mm == old(self).radius_mm,
            final(self).stopped == old(self).stopped,
            final(self).any_new == old(self).any_new,
            final(self).seen == old(self).seen,
            final(self).pruned == old(self).pruned,
            match distance_mm {
                Some(d) if d <= old(self).max_mm => {
                    &&& final(self).measured@ == old(self).measured@.push((id@, d))
                    &&& if (match old(self).best {
                        Some((_, bd)) => d < bd || (d == bd && seq_less(id@, old(self).best_id@)),
                        None => true,
                    }) {
                        final(self).best == Some((index, d)) && final(self).best_id@ == id@
                    } else {
                        final(self).best == old(self).best && final(self).best_id == old(
                            self,
                        ).best_id
                    }
                },
                _ => final(self).measured == old(self).measured && final(self).best == old(self).best
                    && final(self).best_id == old(self).best_id,
            },
    {
        if let Some(d) = distance_mm {
            if d <= self.max_mm {
                let ghost before = self.measured@;
                let ghost old_id = self.best_id@;
                self.measured = Ghost(self.measured@.push((id@, d)));
                let better = match self.best {
                    Some((_, bd)) => d < bd || (d == bd && str_less(id.as_str(), self.best_id.as_str())),
                    None => true,
                };
                if better {
                    self.best = Some((index, d));
                    self.best_id = id.clone();
                    proof {
                        let m = self.measured@;
                        assert(m[m.len() - 1] == (id@, d));
                        assert forall|k: int| 0 <= k < m.len() implies d <= (#[trigger] m[k]).1 by {
                            if k < m.len() - 1 {
                                assert(m[k] == before[k]);
                            }
                        }
                        assert forall|k: int|
                            0 <= k < m.len() && (#[trigger] m[k]).1 == d implies !seq_less(
                            m[k].0,
                            id@,
                        ) by {
                            if k < m.len() - 1 {
                                assert(m[k] == before[k]);
                                if seq_less(m[k].0, id@) {
                                    crate::text::lemma_seq_less_transitive(m[k].0, id@, old_id);
                                }
                            } else {
                                crate::text::lemma_seq_less_irreflexive(id@);
                            }
                        }
                        match old(self).best {
                            Some((_, bd)) => {
                                assert forall|k: int| 0 <= k < self.pruned@.len() implies d
                                    < #[trigger] self.pruned@[k] by {
                                    assert(bd < self.pruned@[k]);
                                }
                            },
                            None => {},
                        }
                    }
                } else {
                    proof {
                        let m = self.measured@;
                        let bd = self.best.unwrap().1;
                        assert(before.contains((self.best_id@, bd)));
                        let w = choose|w: int| 0 <= w < before.len() && before[w] == (self.best_id@, bd);
                        assert(m[w] == before[w]);
                        assert forall|k: int| 0 <= k < m.len() implies bd <= (#[trigger] m[k]).1 by {
                            if k < m.len() - 1 {
                                assert(m[k] == before[k]);
                            }
                        }
                        assert forall|k: int|
                            0 <= k < m.len() && (#[trigger] m[k]).1 == bd implies !seq_less(
                            m[k].0,
                            self.best_id@,
                        ) by {
                            if k < m.len() - 1 {
                                assert(m[k] == before[k]);
                            }
                        }
                    }
                }
            }
        }
    }

    /// Ends a round. The search stops once the choice lies within the radius,
    /// or when the round met nothing new at the ceiling; otherwise the radius
    /// doubles (capped at the ceiling), or jumps to the choice's distance when
    /// there is a choice beyond the radius. Returns whether a round follows.
    pub fn end_round(&mut self) -> (r: bool)
        requires
            old(self).wf(),
        ensures
            final(self).wf(),
            final(self).max_mm == old(self).max_mm,
            final(self).best == old(self).best,
            final(self).best_id == old(self).best_id,
            final(self).measured == old(self).measured,
            final(self).pruned == old(self).pruned,
            final(self).seen == old(self).seen,
            match next_radius(old(self).radius_mm, old(self).max_mm, old(self).any_new, old(self).best) {
                Some(n) => r && final(self).radius_mm == n && !final(self).any_new && final(self).stopped
                    == old(self).stopped,
                None => !r && final(self).stopped && final(self).radius_mm == old(self).radius_mm,
            },
    {
        let r = self.radius_mm;
        let max = self.max_mm;
        let stop = match self.best {
            Some((_, bd)) => bd <= r,
            None => false,
        };
        if stop || (!self.any_new && r >= max) {
            self.stopped = true;
            return false;
        }
        let doubled = if r > max / 2 { max } else { 2 * r };
        let next = match self.best {
            Some((_, d)) => if d > r {
                if d < max { d } else { max }
            } else {
                doubled
            },
            None => doubled,
        };
        if next <= r {
            self.stopped = true;
            return false;
        }
        self.radius_mm = next;
        self.any_new = false;
        true
    }

    /// The record of the search for parcel `parcel_id`: `Inside` at distance
    /// zero when the chosen address is within the inside tolerance, else
    /// `FallbackNearest` at its distance; none without a choice.
    pub fn into_record(&self, parcel_id: &String) -> (r: Option<MatchOutput>)
        ensures
            match self.best {
                Some((_, d)) => r.is_some() && (if d <= INSIDE_EPS_MM {
                    is_record(r.unwrap(), self.best_id@, Some(parcel_id@), 0, MatchType::Inside)
                } else {
                    is_record(
                        r.unwrap(),
                        self.best_id@,
                        Some(parcel_id@),
                        d,
                        MatchType::FallbackNearest,
                    )
                }),
                None => r.is_none(),
            },
    {
        match self.best {
            Some((_, d)) => {
                if d <= INSIDE_EPS_MM {
                    Some(MatchOutput::new(self.best_id.clone(), Some(parcel_id.clone()), 0, MatchType::Inside))
                } else {
                    Some(
                        MatchOutput::new(
                            self.best_id.clone(),
                            Some(parcel_id.clone()),
                            d,
                            MatchType::FallbackNearest,
                        ),
                    )
                }
            },
            None => None,
        }
    }
}

/// Whether parcel `i` has a record after the first two stages: one of its
/// own from the first stage, or the choice of some address in the second.
pub open spec fn has_match(stage1: Seq<Vec<MatchOutput>>, chosen: Seq<Option<usize>>, i: int) -> bool {
    stage1[i]@.len() > 0 || exists|a: int| 0 <= a < chosen.len() && chosen[a] == Some(i as usize)
}

/// The parcels (by index, ascending) that have no record after the first two
/// stages; `chosen` holds, for each address, the parcel it chose in the
/// second stage.
pub fn unmatched_parcels(stage1: &Vec<Vec<MatchOutput>>, chosen: &Vec<Option<usize>>) -> (r: Vec<usize>)
    ensures
        forall|k: int, q: int| 0 <= k < q < r@.len() ==> r@[k] < r@[q],
        forall|k: int| 0 <= k < r@.len() ==> (#[trigger] r@[k]) < stage1@.len(),
        forall|i: int|
            0 <= i < stage1@.len() ==> (r@.contains(i as usize) <==> !has_match(stage1@, chosen@, i)),
{
    let n = stage1.len();
    let mut marks: Vec<bool> = vec![false; n];
    let na = chosen.len();
    let mut a: usize = 0;
    while a < na
        invariant
            n == stage1@.len(),
            na == chosen@.len(),
            a <= na,
            marks@.len() == n,
            forall|i: int|
                0 <= i < n ==> (marks@[i] <==> exists|b: int| 0 <= b < a && chosen@[b] == Some(i as usize)),
        decreases na - a,
    {
        if let Some(p) = chosen[a] {
            if p < n {
                marks[p] = true;
            }
        }
        proof {
            assert forall|i: int| 0 <= i < n implies (marks@[i] <==> exists|b: int|
                0 <= b < a + 1 && chosen@[b] == Some(i as usize)) by {
                if chosen@[a as int] == Some(i as usize) {
                    assert(0 <= a < a + 1);
                }
            }
        }
        a = a + 1;
    }
    let mut out: Vec<usize> = Vec::new();
    let mut i: usize = 0;
    while i < n
        invariant
            n == stage1@.len(),
            na == chosen@.len(),
            i <= n,
            marks@.len() == n,
            forall|j: int|
                0 <= j < n ==> (marks@[j] <==> exists|b: int| 0 <= b < na && chosen@[b] == Some(j as usize)),
            forall|k: int, q: int| 0 <= k < q < out@.len() ==> out@[k] < out@[q],
            forall|k: int| 0 <= k < out@.len() ==> (#[trigger] out@[k]) < i,
            forall|j: int|
                0 <= j < i ==> (out@.contains(j as usize) <==> !has_match(stage1@, chosen@, j)),
        decreases n - i,
    {
        let ghost before = out@;
        if stage1[i].len() == 0 && !marks[i] {
            out.push(i);
            assert(out@[out@.len() - 1] == i);
        }
        proof {
            assert forall|j: int| 0 <= j < i + 1 implies (out@.contains(j as usize) <==> !has_match(
                stage1@,
                chosen@,
                j,
            )) by {
                if j < i {
                    if before.contains(j as usize) {
                        let w = choose|w: int| 0 <= w < before.len() && before[w] == j as usize;
                        assert(out@[w] == j as usize);
                    }
                    if out@.contains(j as usize) {
                        let w = choose|w: int| 0 <= w < out@.len() && out@[w] == j as usize;
                        if w < before.len() {
                            assert(before[w] == j as usize);
                        }
                    }
                } else {
                    if out@.contains(j as usize) {
                        let w = choose|w: int| 0 <= w < out@.len() && out@[w] == j as usize;
                        if w < before.len() {
                            assert(before[w] < i);
                        }
                    }
                }
            }
        }
        i = i + 1;
    }
    out
}

/// The records of the first stage, unit after unit.
pub open spec fn joined(s: Seq<Vec<MatchOutput>>) -> Seq<MatchOutput>
    decreases s.len(),
{
    if s.len() == 0 {
        Seq::empty()
    } else {
        joined(s.drop_last()) + s.last()@
    }
}

/// The records present, in order.
pub open spec fn present(s: Seq<Option<MatchOutput>>) -> Seq<MatchOutput>
    decreases s.len(),
{
    if s.len() == 0 {
        Seq::empty()
    } else {
        match s.last() {
            Some(m) => present(s.drop_last()).push(m),
            None => present(s.drop_last()),
        }
    }
}

/// Appends copies of the records present in `s` to `out`.
fn append_present(out: &mut Vec<MatchOutput>, s: &Vec<Option<MatchOutput>>)
    ensures
        final(out)@ == old(out)@ + present(s@),
{
    let n = s.len();
    let mut i: usize = 0;
    let ghost start = out@;
    assert(s@.take(0) =~= Seq::<Option<MatchOutput>>::empty());
    assert(start =~= start + present(s@.take(0)));
    while i < n
        invariant
            n == s@.len(),
            i <= n,
            out@ == start + present(s@.take(i as int)),
        decreases n - i,
    {
        assert(s@.take(i + 1).drop_last() =~= s@.take(i as int));
        match &s[i] {
            Some(m) => {
                out.push(m.duplicate());
                assert(out@ =~= start + present(s@.take(i + 1)));
            },
            None => {},
        }
        i = i + 1;
    }
    assert(s@.take(n as int) =~= s@);
}

/// All records in stage order: the first stage unit by unit, then the second
/// stage's and the third stage's records in unit order.
pub fn concat_stages(
    stage1: &Vec<Vec<MatchOutput>>,
    stage2: &Vec<Option<MatchOutput>>,
    stage3: &Vec<Option<MatchOutput>>,
) -> (r: Vec<MatchOutput>)
    ensures
        r@ == joined(stage1@) + present(stage2@) + present(stage3@),
{
    let mut out: Vec<MatchOutput> = Vec::new();
    let n = stage1.len();
    let mut i: usize = 0;
    assert(stage1@.take(0) =~= Seq::<Vec<MatchOutput>>::empty());
    while i < n
        invariant
            n == stage1@.len(),
            i <= n,
            out@ == joined(stage1@.take(i as int)),
        decreases n - i,
    {
        assert(stage1@.take(i + 1).drop_last() =~= stage1@.take(i as int));
        let unit = &stage1[i];
        let m = unit.len();
        let mut k: usize = 0;
        let ghost start = out@;
        while k < m
            invariant
                m == unit@.len(),
                k <= m,
                out@ == start + unit@.take(k as int),
            decreases m - k,
        {
            out.push(unit[k].duplicate());
            assert(out@ =~= start + unit@.take(k + 1));
            k = k + 1;
        }
        assert(unit@.take(m as int) =~= unit@);
        assert(out@ =~= joined(stage1@.take(i + 1)));
        i = i + 1;
    }
    assert(stage1@.take(n as int) =~= stage1@);
    append_present(&mut out, stage2);
    append_present(&mut out, stage3);
    out
}

} // verus!
