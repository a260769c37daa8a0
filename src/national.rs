//! National roll-up of per-department QA tables: distance tiers summed per
//! threshold, precision counts summed per bin, and the communes with the
//! lowest coverage.
use vstd::prelude::*;
use crate::quality::{worse_coverage, worse_coverage_spec};

verus! {

/// One row of a distance-tier table.
#[derive(Clone, Copy, Debug, PartialEq, Eq, Structural)]
pub struct TierRow {
    pub threshold_mm: u64,
    pub total_parcels: u64,
    pub matched_parcels: u64,
}

/// Sum of the parcel totals of the rows at threshold `t`.
pub open spec fn tier_total(rows: Seq<TierRow>, t: u64) -> int
    decreases rows.len(),
{
    if rows.len() == 0 {
        0
    } else {
        tier_total(rows.drop_last(), t) + if rows.last().threshold_mm == t {
            rows.last().total_parcels as int
        } else {
            0int
        }
    }
}

/// Sum of the matched counts of the rows at threshold `t`.
pub open spec fn tier_matched(rows: Seq<TierRow>, t: u64) -> int
    decreases rows.len(),
{
    if rows.len() == 0 {
        0
    } else {
        tier_matched(rows.drop_last(), t) + if rows.last().threshold_mm == t {
            rows.last().matched_parcels as int
        } else {
            0int
        }
    }
}

/// Whether some row has threshold `t`.
pub open spec fn has_threshold(rows: Seq<TierRow>, t: u64) -> bool {
    exists|j: int| 0 <= j < rows.len() && rows[j].threshold_mm == t
}

/// Whether every per-threshold sum stays within `u64`.
pub open spec fn tiers_fit(rows: Seq<TierRow>) -> bool {
    forall|t: u64| tier_total(rows, t) <= u64::MAX && tier_matched(rows, t) <= u64::MAX
}

proof fn lemma_tier_sums_grow(rows: Seq<TierRow>, m: int, t: u64)
    requires
        0 <= m <= rows.len(),
    ensures
        tier_total(rows.take(m), t) <= tier_total(rows, t),
        tier_matched(rows.take(m), t) <= tier_matched(rows, t),
        tier_total(rows.take(m), t) >= 0,
        tier_matched(rows.take(m), t) >= 0,
    decreases rows.len(),
{
    if m == rows.len() {
        assert(rows.take(m) =~= rows);
        lemma_tier_sums_nonneg(rows, t);
    } else {
        assert(rows.drop_last().take(m) =~= rows.take(m));
        lemma_tier_sums_grow(rows.drop_last(), m, t);
    }
}

proof fn lemma_tier_sums_nonneg(rows: Seq<TierRow>, t: u64)
    ensures
        tier_total(rows, t) >= 0,
        tier_matched(rows, t) >= 0,
    decreases rows.len(),
{
    if rows.len() > 0 {
        lemma_tier_sums_nonneg(rows.drop_last(), t);
    }
}

proof fn lemma_tier_absent(rows: Seq<TierRow>, t: u64)
    requires
        !has_threshold(rows, t),
    ensures
        tier_total(rows, t) == 0,
        tier_matched(rows, t) == 0,
    decreases rows.len(),
{
    if rows.len() > 0 {
        assert(rows[rows.len() - 1].threshold_mm != t);
        assert(!has_threshold(rows.drop_last(), t)) by {
            if has_threshold(rows.drop_last(), t) {
                let j = choose|j: int|
                    0 <= j < rows.drop_last().len() && rows.drop_last()[j].threshold_mm == t;
                assert(rows[j].threshold_mm == t);
            }
        }
        lemma_tier_absent(rows.drop_last(), t);
    }
}

/// The national tier table: one row per threshold that occurs in `rows`, in
/// ascending threshold order, with the totals and matched counts summed over
/// the rows at that threshold; `None` when some sum does not fit in `u64`.
pub fn national_tiers(rows: &Vec<TierRow>) -> (r: Option<Vec<TierRow>>)
    ensures
        match r {
            None => !tiers_fit(rows@),
            Some(out) => {
                &&& tiers_fit(rows@)
                &&& forall|k: int, l: int|
                    0 <= k < l < out@.len() ==> out@[k].threshold_mm < out@[l].threshold_mm
                &&& forall|k: int|
                    0 <= k < out@.len() ==> {
                        &&& has_threshold(rows@, (#[trigger] out@[k]).threshold_mm)
                        &&& out@[k].total_parcels == tier_total(rows@, out@[k].threshold_mm)
                        &&& out@[k].matched_parcels == tier_matched(rows@, out@[k].threshold_mm)
                    }
                &&& forall|j: int|
                    0 <= j < rows@.len() ==> has_threshold(out@, rows@[j].threshold_mm)
            },
        },
{
    let n = rows.len();
    let mut out: Vec<TierRow> = Vec::new();
    let mut i: usize = 0;
    while i < n
        invariant
            n == rows@.len(),
            i <= n,
            forall|k: int, l: int| 0 <= k < l < out@.len() ==> out@[k].threshold_mm < out@[l].threshold_mm,
            forall|k: int|
                0 <= k < out@.len() ==> {
                    &&& has_threshold(rows@.take(i as int), (#[trigger] out@[k]).threshold_mm)
                    &&& out@[k].total_parcels == tier_total(rows@.take(i as int), out@[k].threshold_mm)
                    &&& out@[k].matched_parcels == tier_matched(
                        rows@.take(i as int),
                        out@[k].threshold_mm,
                    )
                },
            forall|j: int|
                0 <= j < i ==> has_threshold(out@, rows@[j].threshold_mm),
        decreases n - i,
    {
        let x = rows[i];
        let ghost pre = rows@.take(i as int);
        let ghost post = rows@.take(i + 1);
        assert(post.drop_last() =~= pre);
        assert(post.last() == x);
        assert(forall|j: int| 0 <= j < i ==> post[j] == pre[j] && pre[j] == rows@[j]);
        // sums at every threshold after this row
        assert(forall|t: u64|
            tier_total(post, t) == tier_total(pre, t) + if x.threshold_mm == t {
                x.total_parcels as int
            } else {
                0int
            });
        assert(forall|t: u64|
            tier_matched(post, t) == tier_matched(pre, t) + if x.threshold_mm == t {
                x.matched_parcels as int
            } else {
                0int
            });
        assert forall|t: u64| has_threshold(pre, t) implies has_threshold(post, t) by {
            let j = choose|j: int| 0 <= j < pre.len() && pre[j].threshold_mm == t;
            assert(post[j] == pre[j]);
        }
        let len = out.len();
        let mut p: usize = 0;
        while p < len && out[p].threshold_mm < x.threshold_mm
            invariant
                len == out@.len(),
                p <= len,
                forall|k: int| 0 <= k < p ==> out@[k].threshold_mm < x.threshold_mm,
            decreases len - p,
        {
            p = p + 1;
        }
        if p < len && out[p].threshold_mm == x.threshold_mm {
            let cur = out[p];
            if x.total_parcels > u64::MAX - cur.total_parcels || x.matched_parcels > u64::MAX
                - cur.matched_parcels {
                proof {
                    lemma_tier_sums_grow(rows@, i + 1, x.threshold_mm);
                }
                return None;
            }
            let ghost old_out = out@;
            out.set(
                p,
                TierRow {
                    threshold_mm: x.threshold_mm,
                    total_parcels: cur.total_parcels + x.total_parcels,
                    matched_parcels: cur.matched_parcels + x.matched_parcels,
                },
            );
            proof {
                assert forall|k: int| 0 <= k < out@.len() && k != p implies out@[k] == old_out[k] by {}
                assert forall|j: int| 0 <= j < i + 1 implies has_threshold(out@, rows@[j].threshold_mm) by {
                    if j < i {
                        let k = choose|k: int| 0 <= k < old_out.len() && old_out[k].threshold_mm == rows@[j].threshold_mm;
                        assert(out@[k].threshold_mm == old_out[k].threshold_mm);
                    } else {
                        assert(out@[p as int].threshold_mm == rows@[j].threshold_mm);
                    }
                }
            }
        } else {
            proof {
                assert(!has_threshold(pre, x.threshold_mm)) by {
                    if has_threshold(pre, x.threshold_mm) {
                        let j = choose|j: int| 0 <= j < pre.len() && pre[j].threshold_mm == x.threshold_mm;
                        let k = choose|k: int| 0 <= k < out@.len() && out@[k].threshold_mm == rows@[j].threshold_mm;
                        if k < p {
                        } else if k == p {
                        } else {
                            assert(out@[p as int].threshold_mm < out@[k].threshold_mm);
                        }
                    }
                }
                lemma_tier_absent(pre, x.threshold_mm);
            }
            let ghost old_out = out@;
            out.insert(p, x);
            proof {
                old_out.insert_ensures(p as int, x);
                assert forall|k: int| 0 <= k < out@.len() implies out@[k] == (if k < p {
                    old_out[k]
                } else if k == p {
                    x
                } else {
                    old_out[k - 1]
                }) by {}
                assert forall|k: int, l: int|
                    0 <= k < l < out@.len() implies out@[k].threshold_mm < out@[l].threshold_mm by {
                    if k < p && l == p {
                    } else if k == p && l > p {
                        assert(l - 1 >= p);
                        if l - 1 > p {
                            assert(old_out[p as int].threshold_mm < old_out[l - 1].threshold_mm);
                        }
                    } else if k < p && l > p {
                        assert(old_out[k].threshold_mm < x.threshold_mm);
                    }
                }
                assert forall|j: int| 0 <= j < i + 1 implies has_threshold(out@, rows@[j].threshold_mm) by {
                    if j < i {
                        let k = choose|k: int| 0 <= k < old_out.len() && old_out[k].threshold_mm == rows@[j].threshold_mm;
                        if k < p {
                            assert(out@[k] == old_out[k]);
                        } else {
                            assert(out@[k + 1] == old_out[k]);
                        }
                    } else {
                        assert(out@[p as int] == x);
                    }
                }
                assert(has_threshold(post, x.threshold_mm)) by {
                    assert(post[i as int] == x);
                }
            }
        }
        i = i + 1;
    }
    proof {
        assert(rows@.take(n as int) =~= rows@);
        assert forall|t: u64| tier_total(rows@, t) <= u64::MAX && tier_matched(rows@, t) <= u64::MAX by {
            if has_threshold(rows@, t) {
                let j = choose|j: int| 0 <= j < rows@.len() && rows@[j].threshold_mm == t;
                let k = choose|k: int| 0 <= k < out@.len() && out@[k].threshold_mm == rows@[j].threshold_mm;
                assert(out@[k].total_parcels == tier_total(rows@, t));
            } else {
                lemma_tier_absent(rows@, t);
            }
        }
    }
    Some(out)
}

/// Sum of the counts of the rows of precision bin `b`.
pub open spec fn bin_count(rows: Seq<(u32, u64)>, b: u32) -> int
    decreases rows.len(),
{
    if rows.len() == 0 {
        0
    } else {
        bin_count(rows.drop_last(), b) + if rows.last().0 == b {
            rows.last().1 as int
        } else {
            0int
        }
    }
}

/// Whether some row has bin `b`.
pub open spec fn has_bin(rows: Seq<(u32, u64)>, b: u32) -> bool {
    exists|j: int| 0 <= j < rows.len() && rows[j].0 == b
}

/// Whether every per-bin sum stays within `u64`.
pub open spec fn bins_fit(rows: Seq<(u32, u64)>) -> bool {
    forall|b: u32| bin_count(rows, b) <= u64::MAX
}

/// Precision rows as tier rows: the bin as threshold, the count as total.
pub open spec fn as_tiers(rows: Seq<(u32, u64)>) -> Seq<TierRow> {
    rows.map_values(
        |r: (u32, u64)| TierRow { threshold_mm: r.0 as u64, total_parcels: r.1, matched_parcels: 0 },
    )
}

proof fn lemma_as_tiers(rows: Seq<(u32, u64)>, t: u64)
    ensures
        tier_total(as_tiers(rows), t) == if t <= u32::MAX {
            bin_count(rows, t as u32)
        } else {
            0
        },
        tier_matched(as_tiers(rows), t) == 0,
        has_threshold(as_tiers(rows), t) <==> t <= u32::MAX && has_bin(rows, t as u32),
    decreases rows.len(),
{
    if rows.len() > 0 {
        assert(as_tiers(rows).drop_last() =~= as_tiers(rows.drop_last()));
        lemma_as_tiers(rows.drop_last(), t);
        let m = as_tiers(rows);
        if has_threshold(m, t) {
            let j = choose|j: int| 0 <= j < m.len() && m[j].threshold_mm == t;
            assert(rows[j].0 as u64 == t);
        }
        if t <= u32::MAX && has_bin(rows, t as u32) {
            let j = choose|j: int| 0 <= j < rows.len() && rows[j].0 == t as u32;
            assert(m[j].threshold_mm == t);
        }
    } else {
        assert(!has_threshold(as_tiers(rows), t));
    }
}

/// The national precision table: one row per bin that occurs in `rows`, with
/// the counts summed over the rows of that bin, ordered by descending count
/// (ascending bin among equal counts); `None` when some sum does not fit in
/// `u64`.
pub fn national_precision(rows: &Vec<(u32, u64)>) -> (r: Option<Vec<(u32, u64)>>)
    ensures
        match r {
            None => !bins_fit(rows@),
            Some(out) => {
                &&& bins_fit(rows@)
                &&& forall|k: int, l: int| 0 <= k < l < out@.len() ==> out@[k].1 >= out@[l].1
                &&& forall|k: int, l: int| 0 <= k < out@.len() && 0 <= l < out@.len() && k != l ==> out@[k].0 != out@[l].0
                &&& forall|k: int|
                    0 <= k < out@.len() ==> has_bin(rows@, (#[trigger] out@[k]).0) && out@[k].1
                        == bin_count(rows@, out@[k].0)
                &&& forall|j: int| 0 <= j < rows@.len() ==> has_bin(out@, rows@[j].0)
            },
        },
{
    let n = rows.len();
    let mut tiers: Vec<TierRow> = Vec::new();
    let mut i: usize = 0;
    while i < n
        invariant
            n == rows@.len(),
            i <= n,
            tiers@ == as_tiers(rows@.take(i as int)),
        decreases n - i,
    {
        let (b, c) = rows[i];
        tiers.push(TierRow { threshold_mm: b as u64, total_parcels: c, matched_parcels: 0 });
        assert(tiers@ =~= as_tiers(rows@.take(i + 1)));
        i = i + 1;
    }
    assert(rows@.take(n as int) =~= rows@);
    let grouped = match national_tiers(&tiers) {
        None => {
            proof {
                let t = choose|t: u64|
                    !(tier_total(tiers@, t) <= u64::MAX && tier_matched(tiers@, t) <= u64::MAX);
                lemma_as_tiers(rows@, t);
            }
            return None;
        },
        Some(g) => g,
    };
    proof {
        assert forall|b: u32| bin_count(rows@, b) <= u64::MAX by {
            lemma_as_tiers(rows@, b as u64);
        }
        assert forall|k: int| 0 <= k < grouped@.len() implies {
            &&& (#[trigger] grouped@[k]).threshold_mm <= u32::MAX
            &&& has_bin(rows@, grouped@[k].threshold_mm as u32)
            &&& grouped@[k].total_parcels == bin_count(rows@, grouped@[k].threshold_mm as u32)
        } by {
            lemma_as_tiers(rows@, grouped@[k].threshold_mm);
        }
    }
    let m = grouped.len();
    let mut out: Vec<(u32, u64)> = Vec::new();
    let mut q: usize = 0;
    while q < m
        invariant
            m == grouped@.len(),
            q <= m,
            out@.len() == q,
            forall|k: int, l: int|
                0 <= k < l < grouped@.len() ==> grouped@[k].threshold_mm < grouped@[l].threshold_mm,
            forall|k: int|
                0 <= k < grouped@.len() ==> (#[trigger] grouped@[k]).threshold_mm <= u32::MAX,
            forall|k: int, l: int| 0 <= k < l < out@.len() ==> out@[k].1 >= out@[l].1,
            forall|k: int|
                0 <= k < out@.len() ==> exists|x: int|
                    0 <= x < q && (#[trigger] out@[k]) == (
                        grouped@[x].threshold_mm as u32,
                        grouped@[x].total_parcels,
                    ),
            forall|x: int|
                0 <= x < q ==> exists|k: int|
                    0 <= k < out@.len() && out@[k] == (
                        (#[trigger] grouped@[x]).threshold_mm as u32,
                        grouped@[x].total_parcels,
                    ),
            forall|k: int, l: int| 0 <= k < out@.len() && 0 <= l < out@.len() && k != l ==> out@[k].0 != out@[l].0,
        decreases m - q,
    {
        let g = grouped[q];
        let e: (u32, u64) = (g.threshold_mm as u32, g.total_parcels);
        let len = out.len();
        let mut p: usize = 0;
        while p < len && out[p].1 >= e.1
            invariant
                len == out@.len(),
                p <= len,
                forall|k: int| 0 <= k < p ==> out@[k].1 >= e.1,
            decreases len - p,
        {
            p = p + 1;
        }
        let ghost old_out = out@;
        out.insert(p, e);
        proof {
            old_out.insert_ensures(p as int, e);
            assert forall|k: int| 0 <= k < out@.len() implies out@[k] == (if k < p {
                old_out[k]
            } else if k == p {
                e
            } else {
                old_out[k - 1]
            }) by {}
            assert forall|k: int, l: int| 0 <= k < l < out@.len() implies out@[k].1 >= out@[l].1 by {
                if k == p && l > p {
                    assert(old_out[l - 1].1 <= old_out[p as int].1);
                }
            }
            // the new bin differs from every bin already placed
            assert forall|k: int| 0 <= k < old_out.len() implies old_out[k].0 != e.0 by {
                let x = choose|x: int|
                    0 <= x < q && (#[trigger] old_out[k]) == (grouped@[x].threshold_mm as u32, grouped@[x].total_parcels);
                assert(grouped@[x].threshold_mm < grouped@[q as int].threshold_mm);
            }
            assert forall|k: int, l: int|
                0 <= k < out@.len() && 0 <= l < out@.len() && k != l implies out@[k].0 != out@[l].0 by {
                if k != p && l != p {
                    let k0 = if k < p { k } else { k - 1 };
                    let l0 = if l < p { l } else { l - 1 };
                    assert(old_out[k0].0 != old_out[l0].0);
                }
            }
            assert forall|k: int| 0 <= k < out@.len() implies exists|x: int|
                0 <= x < q + 1 && (#[trigger] out@[k]) == (grouped@[x].threshold_mm as u32, grouped@[x].total_parcels) by {
                if k == p {
                    assert(out@[k] == (grouped@[q as int].threshold_mm as u32, grouped@[q as int].total_parcels));
                } else {
                    let k0 = if k < p { k } else { k - 1 };
                    let x = choose|x: int|
                        0 <= x < q && (#[trigger] old_out[k0]) == (grouped@[x].threshold_mm as u32, grouped@[x].total_parcels);
                    assert(out@[k] == old_out[k0]);
                }
            }
            assert forall|x: int| 0 <= x < q + 1 implies exists|k: int|
                0 <= k < out@.len() && out@[k] == ((#[trigger] grouped@[x]).threshold_mm as u32, grouped@[x].total_parcels) by {
                if x == q {
                    assert(out@[p as int] == e);
                } else {
                    let k = choose|k: int|
                        0 <= k < old_out.len() && old_out[k] == (grouped@[x].threshold_mm as u32, grouped@[x].total_parcels);
                    if k < p {
                        assert(out@[k] == old_out[k]);
                    } else {
                        assert(out@[k + 1] == old_out[k]);
                    }
                }
            }
        }
        q = q + 1;
    }
    proof {
        assert forall|k: int| 0 <= k < out@.len() implies has_bin(rows@, (#[trigger] out@[k]).0) && out@[k].1
            == bin_count(rows@, out@[k].0) by {
            let x = choose|x: int|
                0 <= x < m && (#[trigger] out@[k]) == (grouped@[x].threshold_mm as u32, grouped@[x].total_parcels);
            assert(grouped@[x].threshold_mm <= u32::MAX);
        }
        assert forall|j: int| 0 <= j < rows@.len() implies has_bin(out@, rows@[j].0) by {
            assert(tiers@[j].threshold_mm == rows@[j].0 as u64);
            assert(has_threshold(grouped@, tiers@[j].threshold_mm));
            let x = choose|x: int| 0 <= x < grouped@.len() && grouped@[x].threshold_mm == tiers@[j].threshold_mm;
            let k = choose|k: int|
                0 <= k < out@.len() && out@[k] == ((#[trigger] grouped@[x]).threshold_mm as u32, grouped@[x].total_parcels);
            assert(out@[k].0 == rows@[j].0);
        }
    }
    Some(out)
}

/// One row of a per-commune coverage table.
pub struct CommuneRow {
    pub code_insee: String,
    pub total_parcels: u64,
    pub matched_parcels: u64,
}

/// Whether commune row `a` sorts strictly before `b`: lower coverage first,
/// then more parcels first.
pub open spec fn ranks_worse(a: CommuneRow, b: CommuneRow) -> bool {
    worse_coverage_spec(a.matched_parcels, a.total_parcels, b.matched_parcels, b.total_parcels)
}

proof fn lemma_worse_transitive(a: CommuneRow, b: CommuneRow, c: CommuneRow)
    requires
        a.total_parcels > 0,
        b.total_parcels > 0,
        c.total_parcels > 0,
        ranks_worse(a, b),
        ranks_worse(b, c),
    ensures
        ranks_worse(a, c),
{
    let (m1, t1, m2, t2, m3, t3) = (
        a.matched_parcels as int,
        a.total_parcels as int,
        b.matched_parcels as int,
        b.total_parcels as int,
        c.matched_parcels as int,
        c.total_parcels as int,
    );
    assert(m1 * t2 <= m2 * t1 && m2 * t3 <= m3 * t2);
    assert(t3 * (m1 * t2) <= t3 * (m2 * t1)) by (nonlinear_arith)
        requires
            m1 * t2 <= m2 * t1,
            t3 > 0,
    ;
    assert(t1 * (m2 * t3) <= t1 * (m3 * t2)) by (nonlinear_arith)
        requires
            m2 * t3 <= m3 * t2,
            t1 > 0,
    ;
    assert(t2 * (m1 * t3) <= t2 * (m3 * t1)) by (nonlinear_arith)
        requires
            t3 * (m1 * t2) <= t3 * (m2 * t1),
            t1 * (m2 * t3) <= t1 * (m3 * t2),
    ;
    assert(m1 * t3 <= m3 * t1) by (nonlinear_arith)
        requires
            t2 * (m1 * t3) <= t2 * (m3 * t1),
            t2 > 0,
    ;
    if m1 * t2 < m2 * t1 {
        assert(t3 * (m1 * t2) < t3 * (m2 * t1)) by (nonlinear_arith)
            requires
                m1 * t2 < m2 * t1,
                t3 > 0,
        ;
        assert(t2 * (m1 * t3) < t2 * (m3 * t1)) by (nonlinear_arith)
            requires
                t3 * (m1 * t2) < t3 * (m2 * t1),
                t1 * (m2 * t3) <= t1 * (m3 * t2),
        ;
        assert(m1 * t3 < m3 * t1) by (nonlinear_arith)
            requires
                t2 * (m1 * t3) < t2 * (m3 * t1),
                t2 > 0,
        ;
    } else if m2 * t3 < m3 * t2 {
        assert(t1 * (m2 * t3) < t1 * (m3 * t2)) by (nonlinear_arith)
            requires
                m2 * t3 < m3 * t2,
                t1 > 0,
        ;
        assert(t2 * (m1 * t3) < t2 * (m3 * t1)) by (nonlinear_arith)
            requires
                t3 * (m1 * t2) <= t3 * (m2 * t1),
                t1 * (m2 * t3) < t1 * (m3 * t2),
        ;
        assert(m1 * t3 < m3 * t1) by (nonlinear_arith)
            requires
                t2 * (m1 * t3) < t2 * (m3 * t1),
                t2 > 0,
        ;
    }
}

/// Whether `kept` lists positions of `rows` in worst-first order.
pub open spec fn worst_first(rows: Seq<CommuneRow>, kept: Seq<usize>) -> bool {
    forall|k: int, l: int|
        0 <= k < l < kept.len() ==> !ranks_worse(rows[kept[l] as int], rows[kept[k] as int])
}

/// Whether row `x` ranks before none of the rows at positions `kept`.
pub open spec fn outranked_by_none(rows: Seq<CommuneRow>, kept: Seq<usize>, x: int) -> bool {
    forall|k: int| 0 <= k < kept.len() ==> !ranks_worse(rows[x], rows[kept[k] as int])
}

/// Positions of the `limit` communes of lowest coverage (more parcels first
/// among equals), worst first: as many as `limit` allows, each position at
/// most once, and no position left out ranks before one kept. Every total
/// must be positive, so that coverage is defined.
pub fn worst_commune_positions(rows: &Vec<CommuneRow>, limit: usize) -> (r: Vec<usize>)
    requires
        forall|j: int| 0 <= j < rows@.len() ==> (#[trigger] rows@[j]).total_parcels > 0,
    ensures
        r@.len() == if limit < rows@.len() {
            limit as int
        } else {
            rows@.len() as int
        },
        r@.no_duplicates(),
        forall|k: int| 0 <= k < r@.len() ==> (#[trigger] r@[k]) < rows@.len(),
        worst_first(rows@, r@),
        forall|x: int|
            0 <= x < rows@.len() && !r@.contains(x as usize) ==> #[trigger] outranked_by_none(rows@, r@, x),
{
    let n = rows.len();
    let mut kept: Vec<usize> = Vec::new();
    if limit == 0 {
        return kept;
    }
    let mut j: usize = 0;
    while j < n
        invariant
            n == rows@.len(),
            limit > 0,
            j <= n,
            forall|q: int| 0 <= q < rows@.len() ==> (#[trigger] rows@[q]).total_parcels > 0,
            kept@.len() == if limit < j {
                limit as int
            } else {
                j as int
            },
            kept@.no_duplicates(),
            forall|k: int| 0 <= k < kept@.len() ==> (#[trigger] kept@[k]) < j,
            worst_first(rows@, kept@),
            kept@.len() < limit ==> forall|x: int| 0 <= x < j ==> #[trigger] kept@.contains(x as usize),
            forall|x: int|
                0 <= x < j && !kept@.contains(x as usize) ==> #[trigger] outranked_by_none(rows@, kept@, x),
        decreases n - j,
    {
        let len = kept.len();
        let mut p: usize = 0;
        while p < len && !worse_coverage(
            rows[j].matched_parcels,
            rows[j].total_parcels,
            rows[kept[p]].matched_parcels,
            rows[kept[p]].total_parcels,
        )
            invariant
                len == kept@.len(),
                j < n,
                n == rows@.len(),
                p <= len,
                forall|k: int| 0 <= k < kept@.len() ==> (#[trigger] kept@[k]) < j,
                forall|k: int| 0 <= k < p ==> !ranks_worse(rows@[j as int], rows@[kept@[k] as int]),
            decreases len - p,
        {
            p = p + 1;
        }
        let ghost x = rows@[j as int];
        let ghost old_k = kept@;
        assert(!old_k.contains(j)) by {
            if old_k.contains(j) {
                let w = choose|w: int| 0 <= w < old_k.len() && old_k[w] == j;
                assert(old_k[w] < j);
            }
        }
        if p == len && len == limit {
            // it ranks before none of those kept, and the list is full
            proof {
                assert forall|y: int| 0 <= y < j + 1 && !kept@.contains(y as usize) implies outranked_by_none(rows@, kept@, y) by {}
            }
        } else {
            kept.insert(p, j);
            let ghost full = kept@;
            proof {
                old_k.insert_ensures(p as int, j);
                assert forall|k: int| 0 <= k < full.len() implies full[k] == (if k < p {
                    old_k[k]
                } else if k == p {
                    j
                } else {
                    old_k[k - 1]
                }) by {}
                if p < len {
                    assert(ranks_worse(x, rows@[old_k[p as int] as int]));
                }
                assert forall|k: int, l: int| 0 <= k < l < full.len() implies !ranks_worse(
                    rows@[full[l] as int],
                    rows@[full[k] as int],
                ) by {
                    if k == p {
                        let y = rows@[old_k[l - 1] as int];
                        let z = rows@[old_k[p as int] as int];
                        if ranks_worse(y, x) && l - 1 != p {
                            lemma_worse_transitive(y, x, z);
                        }
                    }
                }
                assert forall|k: int| 0 <= k < full.len() implies (#[trigger] full[k]) < j + 1 by {}
                assert forall|k: int, l: int| 0 <= k < full.len() && 0 <= l < full.len() && k != l
                    implies full[k] != full[l] by {
                    if k != p && l != p {
                        let k0 = if k < p { k } else { k - 1 };
                        let l0 = if l < p { l } else { l - 1 };
                        assert(old_k[k0] != old_k[l0]);
                    }
                }
                assert forall|y: int| 0 <= y < j && old_k.contains(y as usize) implies #[trigger] full.contains(y as usize) by {
                    let w = choose|w: int| 0 <= w < old_k.len() && old_k[w] == y as usize;
                    if w < p {
                        assert(full[w] == y as usize);
                    } else {
                        assert(full[w + 1] == y as usize);
                    }
                }
                assert(full[p as int] == j);
            }
            if kept.len() > limit {
                let e = kept.pop().unwrap();
                proof {
                    let ks = kept@;
                    assert(full =~= ks.push(e));
                    assert(len == limit && p < len);
                    assert forall|k: int| 0 <= k < ks.len() implies ks[k] == full[k] by {}
                    assert forall|y: int| 0 <= y < j + 1 && !ks.contains(y as usize) implies outranked_by_none(rows@, ks, y) by {
                        if y as usize == e {
                            assert forall|k: int| 0 <= k < ks.len() implies !ranks_worse(rows@[y], rows@[ks[k] as int]) by {
                                assert(full[full.len() - 1] == e);
                            }
                        } else {
                            assert(!full.contains(y as usize)) by {
                                if full.contains(y as usize) {
                                    let w = choose|w: int| 0 <= w < full.len() && full[w] == y as usize;
                                    assert(w < ks.len());
                                    assert(ks[w] == y as usize);
                                }
                            }
                            assert(y != j);
                            assert(!old_k.contains(y as usize));
                            assert(outranked_by_none(rows@, old_k, y));
                            assert forall|k: int| 0 <= k < ks.len() implies !ranks_worse(rows@[y], rows@[ks[k] as int]) by {
                                if k == p {
                                    assert(!ranks_worse(rows@[y], rows@[old_k[p as int] as int]));
                                    let z = rows@[old_k[p as int] as int];
                                    if ranks_worse(rows@[y], x) {
                                        lemma_worse_transitive(rows@[y], x, z);
                                    }
                                } else {
                                    let k0 = if k < p { k } else { k - 1 };
                                    assert(ks[k] == old_k[k0]);
                                    assert(!ranks_worse(rows@[y], rows@[old_k[k0] as int]));
                                }
                            }
                        }
                    }
                    assert forall|k: int, l: int| 0 <= k < ks.len() && 0 <= l < ks.len() && k != l
                        implies ks[k] != ks[l] by {
                        assert(full[k] != full[l]);
                    }
                }
            } else {
                proof {
                    assert(len < limit);
                    assert forall|y: int| 0 <= y < j + 1 implies #[trigger] kept@.contains(y as usize) by {
                        if y < j {
                            assert(old_k.contains(y as usize));
                        }
                    }
                }
            }
        }
        j = j + 1;
    }
    kept
}

/// Whether `r` holds the rows of `rows` at positions `idx`, as
/// `worst_commune_positions` picks them under `limit`.
pub open spec fn worst_pick(rows: Seq<CommuneRow>, r: Seq<CommuneRow>, idx: Seq<usize>, limit: usize) -> bool {
    &&& idx.len() == r.len()
    &&& r.len() == if limit < rows.len() {
        limit as int
    } else {
        rows.len() as int
    }
    &&& idx.no_duplicates()
    &&& forall|k: int| 0 <= k < idx.len() ==> (#[trigger] idx[k]) < rows.len() && r[k] == rows[idx[k] as int]
    &&& forall|k: int, l: int| 0 <= k < l < r.len() ==> !ranks_worse(r[l], r[k])
    &&& forall|x: int|
        0 <= x < rows.len() && !idx.contains(x as usize) ==> #[trigger] outranked_by_none(rows, idx, x)
}

/// The `limit` communes of lowest coverage (more parcels first among
/// equals), worst first: a selection of the rows, each at most once, such
/// that no row left out ranks before one kept. Every total must be positive,
/// so that coverage is defined.
pub fn worst_communes(rows: &Vec<CommuneRow>, limit: usize) -> (r: Vec<CommuneRow>)
    requires
        forall|j: int| 0 <= j < rows@.len() ==> (#[trigger] rows@[j]).total_parcels > 0,
    ensures
        exists|idx: Seq<usize>| worst_pick(rows@, r@, idx, limit),
{
    let pos = worst_commune_positions(rows, limit);
    let mut out: Vec<CommuneRow> = Vec::new();
    let n = pos.len();
    let mut k: usize = 0;
    while k < n
        invariant
            n == pos@.len(),
            k <= n,
            out@.len() == k,
            forall|q: int| 0 <= q < n ==> (#[trigger] pos@[q]) < rows@.len(),
            forall|q: int| 0 <= q < k ==> (#[trigger] out@[q]) == rows@[pos@[q] as int],
        decreases n - k,
    {
        let row = &rows[pos[k]];
        out.push(
            CommuneRow {
                code_insee: row.code_insee.clone(),
                total_parcels: row.total_parcels,
                matched_parcels: row.matched_parcels,
            },
        );
        k = k + 1;
    }
    proof {
        assert forall|a: int, b: int| 0 <= a < b < out@.len() implies !ranks_worse(out@[b], out@[a]) by {
            assert(out@[a] == rows@[pos@[a] as int]);
            assert(out@[b] == rows@[pos@[b] as int]);
        }
        assert(worst_pick(rows@, out@, pos@, limit));
    }
    out
}

/// How many of `flags` are set.
pub open spec fn count_set(flags: Seq<bool>) -> int
    decreases flags.len(),
{
    if flags.len() == 0 {
        0
    } else {
        count_set(flags.drop_last()) + if flags.last() {
            1int
        } else {
            0int
        }
    }
}

proof fn lemma_count_set_bound(flags: Seq<bool>)
    ensures
        0 <= count_set(flags) <= flags.len(),
    decreases flags.len(),
{
    if flags.len() > 0 {
        lemma_count_set_bound(flags.drop_last());
    }
}

/// The coverage row of commune `code`, from one flag per parcel of the
/// commune telling whether the parcel has an accepted match.
pub fn commune_row(code: String, accepted: &Vec<bool>) -> (r: CommuneRow)
    ensures
        r.code_insee == code,
        r.total_parcels == accepted@.len(),
        r.matched_parcels == count_set(accepted@),
{
    let n = accepted.len();
    let mut matched: u64 = 0;
    let mut i: usize = 0;
    assert(accepted@.take(0) =~= Seq::<bool>::empty());
    while i < n
        invariant
            n == accepted@.len(),
            i <= n,
            matched == count_set(accepted@.take(i as int)),
        decreases n - i,
    {
        assert(accepted@.take(i + 1).drop_last() =~= accepted@.take(i as int));
        proof {
            lemma_count_set_bound(accepted@.take(i as int));
        }
        if accepted[i] {
            matched = matched + 1;
        }
        i = i + 1;
    }
    assert(accepted@.take(n as int) =~= accepted@);
    CommuneRow { code_insee: code, total_parcels: n as u64, matched_parcels: matched }
}

} // verus!
