//! Quality tallies over match records: distance tiers, precision bins, the
//! best record of a parcel or of an address, and coverage order of communes.
use vstd::prelude::*;
use crate::records::{MatchOutput, MatchType, ranks_before, ranks_first, lemma_ranks_transitive};

verus! {

/// Largest distance of an accepted match (1500 m).
pub const ACCEPT_MAX_MM: u64 = 1_500_000;

/// Number of distance tiers.
pub const TIER_COUNT: usize = 7;

/// Number of precision bins.
pub const PRECISION_BINS: usize = 13;

/// Whether record `m` counts at threshold `t`: pre-declared or inside, or at
/// most `t` away.
pub open spec fn within(m: MatchOutput, t: u64) -> bool {
    m.match_type.is_strict() || m.distance_mm <= t
}

/// Whether some record of `g` counts at threshold `t`.
pub open spec fn any_within(g: Seq<MatchOutput>, t: u64) -> bool {
    exists|k: int| 0 <= k < g.len() && within(#[trigger] g[k], t)
}

/// Whether some record of `g` counts at threshold `t`.
pub fn has_record_within(g: &Vec<MatchOutput>, t: u64) -> (r: bool)
    ensures
        r == any_within(g@, t),
{
    let n = g.len();
    let mut k: usize = 0;
    while k < n
        invariant
            n == g@.len(),
            k <= n,
            forall|q: int| 0 <= q < k ==> !within(#[trigger] g@[q], t),
        decreases n - k,
    {
        let m = &g[k];
        if m.match_type == MatchType::PreExisting || m.match_type == MatchType::Inside || m.distance_mm <= t {
            return true;
        }
        k = k + 1;
    }
    false
}

/// Whether a record belongs in the parcel-address link table: a match (not
/// `None`) that names a parcel.
pub fn is_exported(m: &MatchOutput) -> (r: bool)
    ensures
        r == (m.match_type != MatchType::NoMatch && m.id_parcelle.is_some()),
{
    m.match_type != MatchType::NoMatch && m.id_parcelle.is_some()
}

/// Threshold of tier `k`, in millimetres: 5, 50, 100, 250, 500, 1000 and
/// 1500 m.
pub open spec fn tier_of(k: int) -> u64 {
    if k == 0 {
        5_000
    } else if k == 1 {
        50_000
    } else if k == 2 {
        100_000
    } else if k == 3 {
        250_000
    } else if k == 4 {
        500_000
    } else if k == 5 {
        1_000_000
    } else {
        1_500_000
    }
}

/// Threshold of tier `k`, in millimetres.
pub fn tier_threshold(k: usize) -> (r: u64)
    requires
        k < TIER_COUNT,
    ensures
        r == tier_of(k as int),
{
    if k == 0 {
        5_000
    } else if k == 1 {
        50_000
    } else if k == 2 {
        100_000
    } else if k == 3 {
        250_000
    } else if k == 4 {
        500_000
    } else if k == 5 {
        1_000_000
    } else {
        1_500_000
    }
}

/// Whether `g[b]` is a best record of `g`: no record ranks before it.
pub open spec fn is_best(g: Seq<MatchOutput>, b: int) -> bool {
    &&& 0 <= b < g.len()
    &&& forall|k: int| 0 <= k < g.len() ==> !ranks_before(#[trigger] g[k], g[b])
}

/// Position of a best record of `g` (by kind, then distance, then address
/// id), or `None` when `g` is empty.
pub fn best_record(g: &Vec<MatchOutput>) -> (r: Option<usize>)
    ensures
        match r {
            Some(b) => is_best(g@, b as int),
            None => g@.len() == 0,
        },
{
    let n = g.len();
    if n == 0 {
        return None;
    }
    let mut best: usize = 0;
    let mut k: usize = 1;
    proof {
        crate::text::lemma_seq_less_irreflexive(g@[0].id_ban@);
    }
    while k < n
        invariant
            n == g@.len(),
            1 <= k <= n,
            best < k,
            forall|q: int| 0 <= q < k ==> !ranks_before(#[trigger] g@[q], g@[best as int]),
        decreases n - k,
    {
        if ranks_first(&g[k], &g[best]) {
            proof {
                assert forall|q: int| 0 <= q < k + 1 implies !ranks_before(#[trigger] g@[q], g@[k as int]) by {
                    if q < k && ranks_before(g@[q], g@[k as int]) {
                        lemma_ranks_transitive(g@[q], g@[k as int], g@[best as int]);
                    }
                    if q == k {
                        crate::text::lemma_seq_less_irreflexive(g@[q].id_ban@);
                    }
                }
            }
            best = k;
        }
        k = k + 1;
    }
    Some(best)
}

/// Precision bin of a distance: 1 for up to 1 m, then 2 m, 5 m, 10 m, 15 m,
/// 25 m, 50 m, 100 m, 250 m, 500 m, 1000 m, 1500 m, and 13 beyond.
pub open spec fn precision_bin_of(d: u64) -> u32 {
    if d <= 1_000 {
        1
    } else if d <= 2_000 {
        2
    } else if d <= 5_000 {
        3
    } else if d <= 10_000 {
        4
    } else if d <= 15_000 {
        5
    } else if d <= 25_000 {
        6
    } else if d <= 50_000 {
        7
    } else if d <= 100_000 {
        8
    } else if d <= 250_000 {
        9
    } else if d <= 500_000 {
        10
    } else if d <= 1_000_000 {
        11
    } else if d <= 1_500_000 {
        12
    } else {
        13
    }
}

/// Precision bin of a distance (1 to 13).
pub fn precision_bin(d: u64) -> (r: u32)
    ensures
        r == precision_bin_of(d),
        1 <= r <= 13,
{
    if d <= 1_000 {
        1
    } else if d <= 2_000 {
        2
    } else if d <= 5_000 {
        3
    } else if d <= 10_000 {
        4
    } else if d <= 15_000 {
        5
    } else if d <= 25_000 {
        6
    } else if d <= 50_000 {
        7
    } else if d <= 100_000 {
        8
    } else if d <= 250_000 {
        9
    } else if d <= 500_000 {
        10
    } else if d <= 1_000_000 {
        11
    } else if d <= 1_500_000 {
        12
    } else {
        13
    }
}

/// Label of a precision bin, in metres.
pub open spec fn precision_label_of(bin: u32) -> Seq<char> {
    if bin == 1 {
        "0-1"@
    } else if bin == 2 {
        "1-2"@
    } else if bin == 3 {
        "2-5"@
    } else if bin == 4 {
        "5-10"@
    } else if bin == 5 {
        "10-15"@
    } else if bin == 6 {
        "15-25"@
    } else if bin == 7 {
        "25-50"@
    } else if bin == 8 {
        "50-100"@
    } else if bin == 9 {
        "100-250"@
    } else if bin == 10 {
        "250-500"@
    } else if bin == 11 {
        "500-1000"@
    } else if bin == 12 {
        "1000-1500"@
    } else {
        ">1500"@
    }
}

/// Label of a precision bin, in metres.
pub fn precision_label(bin: u32) -> (r: &'static str)
    ensures
        r@ == precision_label_of(bin),
{
    if bin == 1 {
        "0-1"
    } else if bin == 2 {
        "1-2"
    } else if bin == 3 {
        "2-5"
    } else if bin == 4 {
        "5-10"
    } else if bin == 5 {
        "10-15"
    } else if bin == 6 {
        "15-25"
    } else if bin == 7 {
        "25-50"
    } else if bin == 8 {
        "50-100"
    } else if bin == 9 {
        "100-250"
    } else if bin == 10 {
        "250-500"
    } else if bin == 11 {
        "500-1000"
    } else if bin == 12 {
        "1000-1500"
    } else {
        ">1500"
    }
}

/// Distance bin of an address's best match: 1 up to 5 m, 2 up to 15 m, 3 up
/// to 50 m, 4 beyond.
pub open spec fn address_bin_of(d: u64) -> u32 {
    if d <= 5_000 {
        1
    } else if d <= 15_000 {
        2
    } else if d <= 50_000 {
        3
    } else {
        4
    }
}

/// Distance bin of an address's best match (1 to 4).
pub fn address_bin(d: u64) -> (r: u32)
    ensures
        r == address_bin_of(d),
{
    if d <= 5_000 {
        1
    } else if d <= 15_000 {
        2
    } else if d <= 50_000 {
        3
    } else {
        4
    }
}

/// Whether a commune with `m1` of `t1` parcels matched sorts before one with
/// `m2` of `t2`: lower coverage first, then more parcels first.
pub open spec fn worse_coverage_spec(m1: u64, t1: u64, m2: u64, t2: u64) -> bool {
    (m1 as int) * (t2 as int) < (m2 as int) * (t1 as int) || ((m1 as int) * (t2 as int) == (m2 as int)
        * (t1 as int) && t1 > t2)
}

/// Whether a commune with `m1` of `t1` parcels matched sorts before one with
/// `m2` of `t2`: lower coverage first, then more parcels first. Both totals
/// are positive.
pub fn worse_coverage(m1: u64, t1: u64, m2: u64, t2: u64) -> (r: bool)
    ensures
        r == worse_coverage_spec(m1, t1, m2, t2),
{
    let (x1, y2, x2, y1) = (m1 as u128, t2 as u128, m2 as u128, t1 as u128);
    assert(x1 * y2 <= 0xffff_ffff_ffff_ffff_ffff_ffff_ffff_ffff) by (nonlinear_arith)
        requires
            x1 <= 0xffff_ffff_ffff_ffff,
            y2 <= 0xffff_ffff_ffff_ffff,
    ;
    assert(x2 * y1 <= 0xffff_ffff_ffff_ffff_ffff_ffff_ffff_ffff) by (nonlinear_arith)
        requires
            x2 <= 0xffff_ffff_ffff_ffff,
            y1 <= 0xffff_ffff_ffff_ffff,
    ;
    let a = x1 * y2;
    let b = x2 * y1;
    a < b || (a == b && t1 > t2)
}

/// Bound on the number of groups a tally takes, which keeps every sum within
/// range.
pub const TALLY_LIMIT: u64 = 1_000_000_000_000;

/// Position of a kind in per-kind counts, in priority order.
pub open spec fn kind_slot(t: MatchType) -> int {
    match t {
        MatchType::PreExisting => 0,
        MatchType::Inside => 1,
        MatchType::BorderNear => 2,
        MatchType::FallbackNearest => 3,
        MatchType::NoMatch => 4,
    }
}

fn slot_of(t: MatchType) -> (r: usize)
    ensures
        r as int == kind_slot(t),
        r < 5,
{
    match t {
        MatchType::PreExisting => 0,
        MatchType::Inside => 1,
        MatchType::BorderNear => 2,
        MatchType::FallbackNearest => 3,
        MatchType::NoMatch => 4,
    }
}

/// `v` with one more at position `k`.
pub open spec fn bump(v: Seq<u64>, k: int) -> Seq<u64> {
    v.update(k, (v[k] + 1) as u64)
}

fn bump_at(v: &mut Vec<u64>, k: usize, limit: u64)
    requires
        k < old(v)@.len(),
        old(v)@[k as int] < limit,
    ensures
        final(v)@ == bump(old(v)@, k as int),
{
    let x = v[k];
    v.set(k, x + 1);
}

/// Per-parcel quality tally of a department: each group holds the records of
/// one parcel.
pub struct ParcelQa {
    /// Parcels tallied.
    pub groups: u64,
    /// Per tier, parcels with some record that counts at its threshold.
    pub tier_matched: Vec<u64>,
    /// Per precision bin, parcels whose best record is a border or fallback
    /// match in that bin.
    pub precision: Vec<u64>,
    /// Parcels whose best record is a match (of any kind but `None`).
    pub best_any: u64,
    /// Parcels whose best record is accepted (counts at 1500 m).
    pub best_accepted: u64,
    /// Sum of the confidences of the best records that are matches.
    pub confidence_any: u64,
    /// Sum of the confidences of the best records that are accepted.
    pub confidence_accepted: u64,
    /// Per kind, parcels whose best record has that kind.
    pub by_kind: Vec<u64>,
}

impl ParcelQa {
    /// Every count is bounded by the number of groups.
    pub open spec fn wf(&self) -> bool {
        &&& self.groups <= TALLY_LIMIT
        &&& self.tier_matched@.len() == TIER_COUNT
        &&& self.precision@.len() == PRECISION_BINS
        &&& self.by_kind@.len() == 5
        &&& forall|k: int| 0 <= k < TIER_COUNT ==> #[trigger] self.tier_matched@[k] <= self.groups
        &&& forall|k: int| 0 <= k < PRECISION_BINS ==> #[trigger] self.precision@[k] <= self.groups
        &&& forall|k: int| 0 <= k < 5 ==> #[trigger] self.by_kind@[k] <= self.groups
        &&& self.best_any <= self.groups
        &&& self.best_accepted <= self.groups
        &&& self.confidence_any <= 100 * self.groups
        &&& self.confidence_accepted <= 100 * self.groups
    }

    /// An empty tally.
    pub fn new() -> (r: Self)
        ensures
            r.wf(),
            r.groups == 0,
            r.tier_matched@ == Seq::new(TIER_COUNT as nat, |k: int| 0u64),
            r.precision@ == Seq::new(PRECISION_BINS as nat, |k: int| 0u64),
            r.by_kind@ == Seq::new(5, |k: int| 0u64),
            r.best_any == 0 && r.best_accepted == 0,
            r.confidence_any == 0 && r.confidence_accepted == 0,
    {
        let r = ParcelQa {
            groups: 0,
            tier_matched: vec![0u64; TIER_COUNT],
            precision: vec![0u64; PRECISION_BINS],
            best_any: 0,
            best_accepted: 0,
            confidence_any: 0,
            confidence_accepted: 0,
            by_kind: vec![0u64; 5],
        };
        assert(r.tier_matched@ =~= Seq::new(TIER_COUNT as nat, |k: int| 0u64));
        assert(r.precision@ =~= Seq::new(PRECISION_BINS as nat, |k: int| 0u64));
        assert(r.by_kind@ =~= Seq::new(5, |k: int| 0u64));
        r
    }

    /// Tallies the records `g` of one parcel.
    pub fn add_group(&mut self, g: &Vec<MatchOutput>)
        requires
            old(self).wf(),
            old(self).groups < TALLY_LIMIT,
            g@.len() > 0,
            forall|k: int| 0 <= k < g@.len() ==> (#[trigger] g@[k]).confidence <= 100,
        ensures
            final(self).wf(),
            final(self).groups == old(self).groups + 1,
            forall|k: int|
                0 <= k < TIER_COUNT ==> #[trigger] final(self).tier_matched@[k] == old(self).tier_matched@[k]
                    + if any_within(g@, tier_of(k)) {
                    1int
                } else {
                    0int
                },
            exists|b: int|
                #![trigger g@[b]]
                is_best(g@, b) && {
                    let m = g@[b];
                    let is_match = m.match_type != MatchType::NoMatch;
                    let accepted = is_match && within(m, ACCEPT_MAX_MM);
                    &&& final(self).by_kind@ == bump(old(self).by_kind@, kind_slot(m.match_type))
                    &&& final(self).precision@ == (if is_match && !m.match_type.is_strict() {
                        bump(old(self).precision@, precision_bin_of(m.distance_mm) - 1)
                    } else {
                        old(self).precision@
                    })
                    &&& final(self).best_any == old(self).best_any + if is_match {
                        1int
                    } else {
                        0int
                    }
                    &&& final(self).confidence_any == old(self).confidence_any + if is_match {
                        m.confidence as int
                    } else {
                        0int
                    }
                    &&& final(self).best_accepted == old(self).best_accepted + if accepted {
                        1int
                    } else {
                        0int
                    }
                    &&& final(self).confidence_accepted == old(self).confidence_accepted
                        + if accepted {
                        m.confidence as int
                    } else {
                        0int
                    }
                },
    {
        let limit = self.groups + 1;
        let mut k: usize = 0;
        let ghost start = self.tier_matched@;
        while k < TIER_COUNT
            invariant
                self.groups == old(self).groups,
                self.by_kind@ == old(self).by_kind@,
                self.precision@ == old(self).precision@,
                self.best_any == old(self).best_any,
                self.best_accepted == old(self).best_accepted,
                self.confidence_any == old(self).confidence_any,
                self.confidence_accepted == old(self).confidence_accepted,
                limit == self.groups + 1,
                start == old(self).tier_matched@,
                self.tier_matched@.len() == TIER_COUNT,
                k <= TIER_COUNT,
                forall|q: int|
                    0 <= q < k ==> #[trigger] self.tier_matched@[q] == start[q] + if any_within(
                        g@,
                        tier_of(q),
                    ) {
                        1int
                    } else {
                        0int
                    },
                forall|q: int| k <= q < TIER_COUNT ==> #[trigger] self.tier_matched@[q] == start[q],
                forall|q: int| 0 <= q < TIER_COUNT ==> #[trigger] start[q] <= self.groups,
            decreases TIER_COUNT - k,
        {
            let t = tier_threshold(k);
            if has_record_within(g, t) {
                bump_at(&mut self.tier_matched, k, limit);
            }
            k = k + 1;
        }
        let b = best_record(g).unwrap();
        let m = &g[b];
        let kind = m.match_type;
        bump_at(&mut self.by_kind, slot_of(kind), limit);
        let is_match = kind != MatchType::NoMatch;
        if is_match && kind != MatchType::PreExisting && kind != MatchType::Inside {
            let bin = precision_bin(m.distance_mm);
            bump_at(&mut self.precision, (bin - 1) as usize, limit);
        }
        if is_match {
            self.best_any = self.best_any + 1;
            self.confidence_any = self.confidence_any + m.confidence as u64;
            if kind == MatchType::PreExisting || kind == MatchType::Inside || m.distance_mm <= ACCEPT_MAX_MM {
                self.best_accepted = self.best_accepted + 1;
                self.confidence_accepted = self.confidence_accepted + m.confidence as u64;
            }
        }
        self.groups = self.groups + 1;
        assert(is_best(g@, b as int));
    }
}

/// Per-address quality tally of a department: each group holds the records
/// of one address, and an address without records counts as unmatched.
pub struct AddressQa {
    /// Addresses tallied.
    pub addresses: u64,
    /// Per kind of the best record (unmatched addresses under `None`).
    pub by_kind: Vec<u64>,
    /// Per distance bin of the best record, for matched addresses.
    pub by_bin: Vec<u64>,
    /// Matched addresses.
    pub matched: u64,
    /// Sum of the confidences of the best records of matched addresses.
    pub confidence: u64,
}

impl AddressQa {
    /// Every count is bounded by the number of addresses.
    pub open spec fn wf(&self) -> bool {
        &&& self.addresses <= TALLY_LIMIT
        &&& self.by_kind@.len() == 5
        &&& self.by_bin@.len() == 4
        &&& forall|k: int| 0 <= k < 5 ==> #[trigger] self.by_kind@[k] <= self.addresses
        &&& forall|k: int| 0 <= k < 4 ==> #[trigger] self.by_bin@[k] <= self.addresses
        &&& self.matched <= self.addresses
        &&& self.confidence <= 100 * self.addresses
    }

    /// An empty tally.
    pub fn new() -> (r: Self)
        ensures
            r.wf(),
            r.addresses == 0 && r.matched == 0 && r.confidence == 0,
            r.by_kind@ == Seq::new(5, |k: int| 0u64),
            r.by_bin@ == Seq::new(4, |k: int| 0u64),
    {
        let r = AddressQa {
            addresses: 0,
            by_kind: vec![0u64; 5],
            by_bin: vec![0u64; 4],
            matched: 0,
            confidence: 0,
        };
        assert(r.by_kind@ =~= Seq::new(5, |k: int| 0u64));
        assert(r.by_bin@ =~= Seq::new(4, |k: int| 0u64));
        r
    }

    /// Tallies the records `g` of one address (none when it is unmatched).
    pub fn add_address(&mut self, g: &Vec<MatchOutput>)
        requires
            old(self).wf(),
            old(self).addresses < TALLY_LIMIT,
            forall|k: int| 0 <= k < g@.len() ==> (#[trigger] g@[k]).confidence <= 100,
        ensures
            final(self).wf(),
            final(self).addresses == old(self).addresses + 1,
            g@.len() == 0 ==> {
                &&& final(self).by_kind@ == bump(old(self).by_kind@, 4)
                &&& final(self).by_bin@ == old(self).by_bin@
                &&& final(self).matched == old(self).matched
                &&& final(self).confidence == old(self).confidence
            },
            g@.len() > 0 ==> exists|b: int|
                #![trigger g@[b]]
                is_best(g@, b) && {
                    let m = g@[b];
                    let is_match = m.match_type != MatchType::NoMatch;
                    &&& final(self).by_kind@ == bump(old(self).by_kind@, kind_slot(m.match_type))
                    &&& final(self).by_bin@ == (if is_match {
                        bump(old(self).by_bin@, address_bin_of(m.distance_mm) - 1)
                    } else {
                        old(self).by_bin@
                    })
                    &&& final(self).matched == old(self).matched + if is_match {
                        1int
                    } else {
                        0int
                    }
                    &&& final(self).confidence == old(self).confidence + if is_match {
                        m.confidence as int
                    } else {
                        0int
                    }
                },
    {
        let limit = self.addresses + 1;
        match best_record(g) {
            None => {
                bump_at(&mut self.by_kind, 4, limit);
            },
            Some(b) => {
                let m = &g[b];
                bump_at(&mut self.by_kind, slot_of(m.match_type), limit);
                if m.match_type != MatchType::NoMatch {
                    let bin = address_bin(m.distance_mm);
                    bump_at(&mut self.by_bin, (bin - 1) as usize, limit);
                    self.matched = self.matched + 1;
                    self.confidence = self.confidence + m.confidence as u64;
                }
                assert(is_best(g@, b as int));
            },
        }
        self.addresses = self.addresses + 1;
    }
}

} // verus!
