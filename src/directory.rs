//! Lookup of parcel positions by id: ids are bucketed by a hash of their
//! characters, and each lookup compares the ids of one bucket exactly.
use vstd::prelude::*;
use std::collections::HashMap;

verus! {

broadcast use vstd::std_specs::hash::group_hash_axioms;

/// Modulus of the id hash (a prime below 2^57).
pub const HASH_MODULUS: u64 = 0x1ff_ffff_ffff_ffff;

/// Hash of an id: polynomial in its characters, modulo `HASH_MODULUS`.
pub open spec fn id_hash(s: Seq<char>) -> u64
    decreases s.len(),
{
    if s.len() == 0 {
        0
    } else {
        ((id_hash(s.drop_last()) as int * 31 + (s.last() as int)) % (HASH_MODULUS as int)) as u64
    }
}

proof fn lemma_hash_bound(s: Seq<char>)
    ensures
        id_hash(s) < HASH_MODULUS,
    decreases s.len(),
{
    if s.len() > 0 {
        lemma_hash_bound(s.drop_last());
    }
}

/// Hash of an id.
pub fn hash_of(s: &str) -> (r: u64)
    ensures
        r == id_hash(s@),
{
    let n = s.unicode_len();
    let mut h: u64 = 0;
    let mut i: usize = 0;
    assert(s@.take(0) =~= Seq::<char>::empty());
    while i < n
        invariant
            n == s@.len(),
            i <= n,
            h == id_hash(s@.take(i as int)),
        decreases n - i,
    {
        proof {
            lemma_hash_bound(s@.take(i as int));
        }
        let c = s.get_char(i);
        assert(s@.take(i + 1).drop_last() =~= s@.take(i as int));
        assert(s@.take(i + 1).last() == c);
        assert((c as u32) <= 0x10ffff);
        h = (h * 31 + (c as u32) as u64) % HASH_MODULUS;
        i = i + 1;
    }
    assert(s@.take(n as int) =~= s@);
    h
}

/// Parcel positions bucketed by the hash of their ids.
pub struct ParcelDirectory {
    pub slots: HashMap<u64, usize>,
    pub buckets: Vec<Vec<usize>>,
}

impl ParcelDirectory {
    /// Every position of `ids` sits, once, in the bucket of its hash, and
    /// every bucket holds only positions with that hash.
    pub open spec fn wf(&self, ids: Seq<Seq<char>>) -> bool {
        &&& forall|h: u64| #[trigger] self.slots@.contains_key(h) ==> self.slots@[h] < self.buckets@.len()
        &&& forall|b: int, k: int|
            0 <= b < self.buckets@.len() && 0 <= k < self.buckets@[b]@.len() ==> {
                let j = #[trigger] self.buckets@[b]@[k];
                &&& j < ids.len()
                &&& self.slots@.contains_key(id_hash(ids[j as int]))
                &&& self.slots@[id_hash(ids[j as int])] == b
            }
        &&& forall|j: int|
            0 <= j < ids.len() ==> {
                &&& self.slots@.contains_key(id_hash(#[trigger] ids[j]))
                &&& self.buckets@[self.slots@[id_hash(ids[j])] as int]@.contains(j as usize)
            }
        &&& forall|b: int| 0 <= b < self.buckets@.len() ==> (#[trigger] self.buckets@[b])@.no_duplicates()
    }

    /// The directory of `ids`.
    pub fn build(ids: &Vec<String>) -> (r: Self)
        ensures
            r.wf(ids@.map_values(|s: String| s@)),
    {
        let ghost v = ids@.map_values(|s: String| s@);
        let mut d = ParcelDirectory { slots: HashMap::new(), buckets: Vec::new() };
        let n = ids.len();
        let mut j: usize = 0;
        while j < n
            invariant
                n == ids@.len(),
                v == ids@.map_values(|s: String| s@),
                j <= n,
                d.wf(v.take(j as int)),
                forall|b: int, k: int|
                    0 <= b < d.buckets@.len() && 0 <= k < d.buckets@[b]@.len() ==> #[trigger] d.buckets@[b]@[k] < j,
            decreases n - j,
        {
            let h = hash_of(ids[j].as_str());
            let ghost vj = v.take(j as int);
            let ghost vn = v.take(j + 1);
            assert(forall|q: int| 0 <= q < j ==> vn[q] == vj[q]);
            assert(vn[j as int] == ids@[j as int]@);
            let ghost old_b = d.buckets@;
            let ghost old_s = d.slots@;
            match d.slots.get(&h) {
                Some(b) => {
                    let b = *b;
                    d.buckets[b].push(j);
                    proof {
                        assert forall|bb: int| 0 <= bb < d.buckets@.len() && bb != b implies d.buckets@[bb] == old_b[bb] by {}
                        assert(d.buckets@[b as int]@ == old_b[b as int]@.push(j));
                        assert forall|bb: int, k: int|
                            0 <= bb < d.buckets@.len() && 0 <= k < d.buckets@[bb]@.len() implies {
                                let x = #[trigger] d.buckets@[bb]@[k];
                                &&& x < vn.len()
                                &&& d.slots@.contains_key(id_hash(vn[x as int]))
                                &&& d.slots@[id_hash(vn[x as int])] == bb
                            } && d.buckets@[bb]@[k] < j + 1 by {
                            if bb == b && k == old_b[bb]@.len() {
                            } else {
                                assert(d.buckets@[bb]@[k] == old_b[bb]@[k]);
                            }
                        }
                        assert forall|q: int| 0 <= q < vn.len() implies {
                            &&& d.slots@.contains_key(id_hash(#[trigger] vn[q]))
                            &&& d.buckets@[d.slots@[id_hash(vn[q])] as int]@.contains(q as usize)
                        } by {
                            if q < j {
                                let bq = old_s[id_hash(vj[q])] as int;
                                let w = choose|w: int| 0 <= w < old_b[bq]@.len() && old_b[bq]@[w] == q as usize;
                                assert(d.buckets@[bq]@[w] == q as usize);
                            } else {
                                assert(d.buckets@[b as int]@[old_b[b as int]@.len() as int] == j);
                            }
                        }
                        assert forall|bb: int| 0 <= bb < d.buckets@.len() implies (#[trigger] d.buckets@[bb])@.no_duplicates() by {
                            if bb == b {
                                let s = d.buckets@[bb]@;
                                assert forall|x: int, y: int| 0 <= x < s.len() && 0 <= y < s.len() && x != y implies s[x] != s[y] by {
                                    if x < s.len() - 1 && y < s.len() - 1 {
                                        assert(old_b[bb]@.no_duplicates());
                                        assert(s[x] == old_b[bb]@[x]);
                                        assert(s[y] == old_b[bb]@[y]);
                                    } else if x < s.len() - 1 {
                                        assert(s[x] == old_b[bb]@[x]);
                                        assert(old_b[bb]@[x] < j);
                                    } else {
                                        assert(s[y] == old_b[bb]@[y]);
                                        assert(old_b[bb]@[y] < j);
                                    }
                                }
                            }
                        }
                    }
                },
                None => {
                    let b = d.buckets.len();
                    d.slots.insert(h, b);
                    let mut fresh: Vec<usize> = Vec::new();
                    fresh.push(j);
                    d.buckets.push(fresh);
                    proof {
                        assert(!old_s.contains_key(h));
                        assert forall|bb: int| 0 <= bb < old_b.len() implies d.buckets@[bb] == old_b[bb] by {}
                        assert(d.buckets@[b as int]@ =~= seq![j]);
                        assert forall|hh: u64| #[trigger] d.slots@.contains_key(hh) implies d.slots@[hh] < d.buckets@.len() by {
                            if hh != h {
                                assert(old_s.contains_key(hh));
                            }
                        }
                        assert forall|bb: int, k: int|
                            0 <= bb < d.buckets@.len() && 0 <= k < d.buckets@[bb]@.len() implies {
                                let x = #[trigger] d.buckets@[bb]@[k];
                                &&& x < vn.len()
                                &&& d.slots@.contains_key(id_hash(vn[x as int]))
                                &&& d.slots@[id_hash(vn[x as int])] == bb
                            } && d.buckets@[bb]@[k] < j + 1 by {
                            if bb < old_b.len() {
                                let x = old_b[bb]@[k];
                                assert(d.buckets@[bb]@[k] == x);
                                assert(old_s.contains_key(id_hash(vj[x as int])));
                                assert(id_hash(vj[x as int]) != h);
                            }
                        }
                        assert forall|q: int| 0 <= q < vn.len() implies {
                            &&& d.slots@.contains_key(id_hash(#[trigger] vn[q]))
                            &&& d.buckets@[d.slots@[id_hash(vn[q])] as int]@.contains(q as usize)
                        } by {
                            if q < j {
                                let bq = old_s[id_hash(vj[q])] as int;
                                assert(id_hash(vj[q]) != h);
                                let w = choose|w: int| 0 <= w < old_b[bq]@.len() && old_b[bq]@[w] == q as usize;
                                assert(d.buckets@[bq]@[w] == q as usize);
                            } else {
                                assert(d.buckets@[b as int]@[0] == j);
                            }
                        }
                        assert forall|bb: int| 0 <= bb < d.buckets@.len() implies (#[trigger] d.buckets@[bb])@.no_duplicates() by {
                            if bb < old_b.len() {
                                assert(old_b[bb]@.no_duplicates());
                            }
                        }
                    }
                },
            }
            j = j + 1;
        }
        assert(v.take(n as int) =~= v);
        d
    }
}

/// The key of group `g`: that of its first member.
pub open spec fn group_key(keys: Seq<Seq<char>>, gs: Seq<Vec<usize>>, g: int) -> Seq<char> {
    keys[gs[g]@[0] as int]
}

/// Whether `gs` splits the positions of `keys` by key: every position sits
/// in exactly one group, the members of a group share its key, and no two
/// groups have the same key.
pub open spec fn is_grouping(keys: Seq<Seq<char>>, gs: Seq<Vec<usize>>) -> bool {
    &&& forall|g: int| 0 <= g < gs.len() ==> (#[trigger] gs[g])@.len() > 0 && gs[g]@.no_duplicates()
    &&& forall|g: int, k: int|
        0 <= g < gs.len() && 0 <= k < gs[g]@.len() ==> {
            &&& (#[trigger] gs[g]@[k]) < keys.len()
            &&& keys[gs[g]@[k] as int] == group_key(keys, gs, g)
        }
    &&& forall|g1: int, g2: int|
        #![trigger group_key(keys, gs, g1), group_key(keys, gs, g2)]
        0 <= g1 < gs.len() && 0 <= g2 < gs.len() && g1 != g2 ==> group_key(keys, gs, g1)
            != group_key(keys, gs, g2)
    &&& forall|j: int| 0 <= j < keys.len() ==> #[trigger] placed(gs, j)
}

/// Whether position `j` sits in some group of `gs`.
pub open spec fn placed(gs: Seq<Vec<usize>>, j: int) -> bool {
    exists|g: int, k: int| 0 <= g < gs.len() && 0 <= k < gs[g]@.len() && #[trigger] gs[g]@[k] == j as usize
}

/// Positions of `keys` grouped by equal key.
pub fn group_by_key(keys: &Vec<String>) -> (r: Vec<Vec<usize>>)
    ensures
        is_grouping(keys@.map_values(|s: String| s@), r@),
{
    let ghost v = keys@.map_values(|s: String| s@);
    let mut slots: HashMap<u64, usize> = HashMap::new();
    let mut chains: Vec<Vec<usize>> = Vec::new();
    let mut groups: Vec<Vec<usize>> = Vec::new();
    let n = keys.len();
    let mut j: usize = 0;
    while j < n
        invariant
            n == keys@.len(),
            v == keys@.map_values(|s: String| s@),
            j <= n,
            is_grouping(v.take(j as int), groups@),
            forall|g: int, k: int|
                0 <= g < groups@.len() && 0 <= k < groups@[g]@.len() ==> #[trigger] groups@[g]@[k] < j,
            forall|h: u64| #[trigger] slots@.contains_key(h) ==> slots@[h] < chains@.len(),
            forall|c: int, k: int|
                0 <= c < chains@.len() && 0 <= k < chains@[c]@.len() ==> (#[trigger] chains@[c]@[k])
                    < groups@.len(),
            forall|g: int|
                #![trigger group_key(v, groups@, g)]
                0 <= g < groups@.len() ==> {
                    let h = id_hash(group_key(v, groups@, g));
                    &&& slots@.contains_key(h)
                    &&& chains@[slots@[h] as int]@.contains(g as usize)
                },
            forall|c: int, k: int|
                0 <= c < chains@.len() && 0 <= k < chains@[c]@.len() ==> {
                    let g = #[trigger] chains@[c]@[k];
                    slots@.contains_key(id_hash(group_key(v, groups@, g as int)))
                        && slots@[id_hash(group_key(v, groups@, g as int))] == c
                },
        decreases n - j,
    {
        let key = &keys[j];
        let h = hash_of(key.as_str());
        let ghost vj = v.take(j as int);
        let ghost vn = v.take(j + 1);
        assert(forall|q: int| 0 <= q < j ==> vn[q] == vj[q]);
        assert(vn[j as int] == key@);
        let ghost old_g = groups@;
        let ghost old_c = chains@;
        let ghost old_s = slots@;
        // the group of this key, if one exists
        let mut found: Option<usize> = None;
        let mut chain_slot: Option<usize> = None;
        match slots.get(&h) {
            Some(c) => {
                let c = *c;
                chain_slot = Some(c);
                let nc = chains[c].len();
                let mut k: usize = 0;
                while k < nc
                    invariant
                        c < chains@.len(),
                        nc == chains@[c as int]@.len(),
                        k <= nc,
                        groups@ == old_g,
                        chains@ == old_c,
                        forall|cc: int, kk: int|
                            0 <= cc < chains@.len() && 0 <= kk < chains@[cc]@.len() ==> (#[trigger] chains@[cc]@[kk])
                                < groups@.len(),
                        forall|g: int| 0 <= g < groups@.len() ==> (#[trigger] groups@[g])@.len() > 0,
                        forall|g: int, kk: int|
                            0 <= g < groups@.len() && 0 <= kk < groups@[g]@.len() ==> #[trigger] groups@[g]@[kk] < j,
                        j < n,
                        n == keys@.len(),
                        v == keys@.map_values(|s: String| s@),
                        key == keys@[j as int],
                        match found {
                            Some(g) => g < groups@.len() && group_key(v, groups@, g as int) == key@,
                            None => forall|kk: int|
                                0 <= kk < k ==> group_key(v, groups@, chains@[c as int]@[kk] as int)
                                    != key@,
                        },
                    decreases nc - k,
                {
                    if found.is_none() {
                        let g = chains[c][k];
                        let first = groups[g][0];
                        assert(first < j);
                        if crate::text::str_eq(keys[first].as_str(), key.as_str()) {
                            found = Some(g);
                        }
                    }
                    k = k + 1;
                }
            },
            None => {},
        }
        match found {
            Some(g) => {
                groups[g].push(j);
                proof {
                    assert forall|gg: int| 0 <= gg < groups@.len() && gg != g implies #[trigger] groups@[gg] == old_g[gg] by {}
                    assert(groups@[g as int]@ == old_g[g as int]@.push(j));
                    assert forall|gg: int| 0 <= gg < groups@.len() implies group_key(vn, groups@, gg) == group_key(vj, old_g, gg) by {
                        assert(groups@[gg]@[0] == old_g[gg]@[0]);
                    }
                    assert forall|gg: int| 0 <= gg < groups@.len() implies group_key(v, groups@, gg) == group_key(v, old_g, gg) by {
                        assert(groups@[gg]@[0] == old_g[gg]@[0]);
                    }
                    assert forall|gg: int| 0 <= gg < groups@.len() implies (#[trigger] groups@[gg])@.len() > 0 && groups@[gg]@.no_duplicates() by {
                        if gg == g {
                            let s = groups@[gg]@;
                            assert forall|x: int, y: int| 0 <= x < s.len() && 0 <= y < s.len() && x != y implies s[x] != s[y] by {
                                if x < s.len() - 1 && y < s.len() - 1 {
                                    assert(old_g[gg]@.no_duplicates());
                                    assert(s[x] == old_g[gg]@[x]);
                                    assert(s[y] == old_g[gg]@[y]);
                                } else if x < s.len() - 1 {
                                    assert(s[x] == old_g[gg]@[x]);
                                    assert(old_g[gg]@[x] < j);
                                } else {
                                    assert(s[y] == old_g[gg]@[y]);
                                    assert(old_g[gg]@[y] < j);
                                }
                            }
                        }
                    }
                    assert forall|gg: int, k: int|
                        0 <= gg < groups@.len() && 0 <= k < groups@[gg]@.len() implies {
                            &&& (#[trigger] groups@[gg]@[k]) < vn.len()
                            &&& vn[groups@[gg]@[k] as int] == group_key(vn, groups@, gg)
                        } && groups@[gg]@[k] < j + 1 by {
                        if gg == g && k == old_g[gg]@.len() {
                            assert(group_key(v, old_g, gg) == key@);
                            assert(vn[old_g[gg]@[0] as int] == v[old_g[gg]@[0] as int]);
                        } else {
                            assert(groups@[gg]@[k] == old_g[gg]@[k]);
                            let x = old_g[gg]@[k];
                            assert(vn[x as int] == vj[x as int]);
                            assert(vn[old_g[gg]@[0] as int] == vj[old_g[gg]@[0] as int]);
                        }
                    }
                    assert forall|q: int| 0 <= q < vn.len() implies #[trigger] placed(groups@, q) by {
                        if q < j {
                            assert(placed(old_g, q));
                            let (gg, k) = choose|gg: int, k: int|
                                0 <= gg < old_g.len() && 0 <= k < old_g[gg]@.len() && #[trigger] old_g[gg]@[k] == q as usize;
                            assert(groups@[gg]@[k] == q as usize);
                        } else {
                            assert(groups@[g as int]@[old_g[g as int]@.len() as int] == j);
                        }
                    }
                    assert forall|g1: int, g2: int|
                        #![trigger group_key(vn, groups@, g1), group_key(vn, groups@, g2)]
                        0 <= g1 < groups@.len() && 0 <= g2 < groups@.len() && g1 != g2 implies group_key(vn, groups@, g1)
                            != group_key(vn, groups@, g2) by {
                        assert(group_key(vj, old_g, g1) != group_key(vj, old_g, g2));
                    }
                    assert forall|c: int, k: int|
                        0 <= c < chains@.len() && 0 <= k < chains@[c]@.len() implies {
                            let gg = #[trigger] chains@[c]@[k];
                            slots@.contains_key(id_hash(group_key(v, groups@, gg as int)))
                                && slots@[id_hash(group_key(v, groups@, gg as int))] == c
                        } by {
                        let gg = chains@[c]@[k];
                        assert(group_key(v, groups@, gg as int) == group_key(v, old_g, gg as int));
                    }
                    assert forall|gg: int|
                        #![trigger group_key(v, groups@, gg)]
                        0 <= gg < groups@.len() implies {
                        let hh = id_hash(group_key(v, groups@, gg));
                        &&& slots@.contains_key(hh)
                        &&& chains@[slots@[hh] as int]@.contains(gg as usize)
                    } by {
                        assert(group_key(v, groups@, gg) == group_key(v, old_g, gg));
                    }
                }
            },
            None => {
                let g = groups.len();
                let mut fresh: Vec<usize> = Vec::new();
                fresh.push(j);
                groups.push(fresh);
                let ghost mid_c = chains@;
                match chain_slot {
                    Some(c) => {
                        chains[c].push(g);
                    },
                    None => {
                        let c = chains.len();
                        let mut chain: Vec<usize> = Vec::new();
                        chain.push(g);
                        chains.push(chain);
                        slots.insert(h, c);
                    },
                }
                proof {
                    assert(groups@[g as int]@ =~= seq![j]);
                    assert forall|gg: int| 0 <= gg < old_g.len() implies #[trigger] groups@[gg] == old_g[gg] by {}
                    assert forall|gg: int| 0 <= gg < groups@.len() implies group_key(v, groups@, gg) == (if gg
                        < old_g.len() {
                        group_key(v, old_g, gg)
                    } else {
                        key@
                    }) by {}
                    // the key of this position differs from that of every earlier group
                    assert forall|gg: int| 0 <= gg < old_g.len() implies group_key(v, old_g, gg) != key@ by {
                        let hh = id_hash(group_key(v, old_g, gg));
                        if group_key(v, old_g, gg) == key@ {
                            assert(hh == h);
                            assert(old_s.contains_key(h));
                            let c = old_s[h];
                            assert(chain_slot == Some(c));
                            let w = choose|w: int| 0 <= w < old_c[c as int]@.len() && old_c[c as int]@[w] == gg as usize;
                            assert(group_key(v, old_g, old_c[c as int]@[w] as int) != key@);
                        }
                    }
                    assert forall|gg: int, k: int|
                        0 <= gg < groups@.len() && 0 <= k < groups@[gg]@.len() implies {
                            &&& (#[trigger] groups@[gg]@[k]) < vn.len()
                            &&& vn[groups@[gg]@[k] as int] == group_key(vn, groups@, gg)
                        } && groups@[gg]@[k] < j + 1 by {
                        if gg < old_g.len() {
                            let x = old_g[gg]@[k];
                            assert(groups@[gg]@[k] == x);
                            assert(vn[x as int] == vj[x as int]);
                            assert(vn[old_g[gg]@[0] as int] == vj[old_g[gg]@[0] as int]);
                        } else {
                            assert(groups@[gg]@[k] == j);
                        }
                    }
                    assert forall|gg: int| 0 <= gg < groups@.len() implies (#[trigger] groups@[gg])@.len() > 0 && groups@[gg]@.no_duplicates() by {
                        if gg < old_g.len() {
                            assert(old_g[gg]@.no_duplicates());
                        }
                    }
                    assert forall|g1: int, g2: int|
                        #![trigger group_key(vn, groups@, g1), group_key(vn, groups@, g2)]
                        0 <= g1 < groups@.len() && 0 <= g2 < groups@.len() && g1 != g2 implies group_key(vn, groups@, g1)
                            != group_key(vn, groups@, g2) by {
                        if g1 < old_g.len() && g2 < old_g.len() {
                            assert(group_key(vj, old_g, g1) != group_key(vj, old_g, g2));
                            assert(vn[old_g[g1]@[0] as int] == vj[old_g[g1]@[0] as int]);
                            assert(vn[old_g[g2]@[0] as int] == vj[old_g[g2]@[0] as int]);
                        } else if g1 < old_g.len() {
                            assert(groups@[g2]@[0] == j);
                            assert(group_key(vn, groups@, g2) == key@);
                            assert(groups@[g1] == old_g[g1]);
                            assert(vn[old_g[g1]@[0] as int] == v[old_g[g1]@[0] as int]);
                            assert(group_key(v, old_g, g1) != key@);
                        } else {
                            assert(groups@[g1]@[0] == j);
                            assert(group_key(vn, groups@, g1) == key@);
                            assert(groups@[g2] == old_g[g2]);
                            assert(vn[old_g[g2]@[0] as int] == v[old_g[g2]@[0] as int]);
                            assert(group_key(v, old_g, g2) != key@);
                        }
                    }
                    assert forall|q: int| 0 <= q < vn.len() implies #[trigger] placed(groups@, q) by {
                        if q < j {
                            assert(placed(old_g, q));
                            let (gg, k) = choose|gg: int, k: int|
                                0 <= gg < old_g.len() && 0 <= k < old_g[gg]@.len() && #[trigger] old_g[gg]@[k] == q as usize;
                            assert(groups@[gg]@[k] == q as usize);
                        } else {
                            assert(groups@[g as int]@[0] == j);
                        }
                    }
                    assert forall|hh: u64| #[trigger] slots@.contains_key(hh) implies slots@[hh] < chains@.len() by {
                        if hh != h {
                            assert(old_s.contains_key(hh));
                        }
                    }
                    assert forall|c: int, k: int|
                        0 <= c < chains@.len() && 0 <= k < chains@[c]@.len() implies (#[trigger] chains@[c]@[k]) < groups@.len() by {
                        if c < old_c.len() && k < old_c[c]@.len() {
                            assert(chains@[c]@[k] == old_c[c]@[k]);
                        }
                    }
                    assert forall|c: int, k: int|
                        0 <= c < chains@.len() && 0 <= k < chains@[c]@.len() implies {
                            let gg = #[trigger] chains@[c]@[k];
                            slots@.contains_key(id_hash(group_key(v, groups@, gg as int)))
                                && slots@[id_hash(group_key(v, groups@, gg as int))] == c
                        } by {
                        if c < old_c.len() && k < old_c[c]@.len() {
                            let gg = old_c[c]@[k];
                            assert(chains@[c]@[k] == gg);
                            assert(old_s.contains_key(id_hash(group_key(v, old_g, gg as int))));
                            if chain_slot.is_none() {
                                assert(id_hash(group_key(v, old_g, gg as int)) != h);
                            }
                        } else {
                            assert(chains@[c]@[k] == g);
                        }
                    }
                    assert forall|gg: int|
                        #![trigger group_key(v, groups@, gg)]
                        0 <= gg < groups@.len() implies {
                        let hh = id_hash(group_key(v, groups@, gg));
                        &&& slots@.contains_key(hh)
                        &&& chains@[slots@[hh] as int]@.contains(gg as usize)
                    } by {
                        if gg < old_g.len() {
                            let hh = id_hash(group_key(v, old_g, gg));
                            let c = old_s[hh] as int;
                            if chain_slot.is_none() {
                                assert(hh != h);
                            }
                            let w = choose|w: int| 0 <= w < old_c[c]@.len() && old_c[c]@[w] == gg as usize;
                            assert(chains@[c]@[w] == gg as usize);
                        } else {
                            let c = slots@[h] as int;
                            assert(chains@[c]@[chains@[c]@.len() - 1] == g);
                        }
                    }
                }
            },
        }
        j = j + 1;
    }
    assert(v.take(n as int) =~= v);
    groups
}

} // verus!
