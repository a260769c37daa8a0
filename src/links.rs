//! Pre-declared address-to-parcel links: the link list of an address and the
//! records it yields for the parcels of a department.
use vstd::prelude::*;
use crate::records::{MatchOutput, MatchType, is_record};
use crate::text::{trim, trimmed_bounds, str_eq};
use crate::directory::{ParcelDirectory, hash_of, id_hash};

verus! {

/// An address as the matcher sees it; its point stays with the geometry layer.
pub struct AddressInput {
    pub id: String,
    pub code_insee: String,
    /// Parcel ids the address declares, separated by `;`, `|` or `,`.
    pub existing_link: Option<String>,
}

/// Whether `c` separates two items: a comma, or with `commas_only` off also
/// `;` and `|` (the separators of a link list).
pub open spec fn is_sep(c: char, commas_only: bool) -> bool {
    c == ',' || (!commas_only && (c == ';' || c == '|'))
}

/// The pieces of `s` between separators, in order; there is always at least one.
pub open spec fn pieces(s: Seq<char>, commas_only: bool) -> Seq<Seq<char>>
    decreases s.len(),
{
    if s.len() == 0 {
        seq![Seq::empty()]
    } else {
        let p = pieces(s.drop_last(), commas_only);
        if is_sep(s.last(), commas_only) {
            p.push(Seq::empty())
        } else {
            p.update(p.len() - 1, p.last().push(s.last()))
        }
    }
}

/// The trimmed pieces that are not empty, in order.
pub open spec fn kept(ps: Seq<Seq<char>>) -> Seq<Seq<char>>
    decreases ps.len(),
{
    if ps.len() == 0 {
        Seq::empty()
    } else {
        let rest = kept(ps.drop_last());
        let t = trim(ps.last());
        if t.len() > 0 {
            rest.push(t)
        } else {
            rest
        }
    }
}

/// The parcel ids that a link list names, in order, repeats included.
pub open spec fn link_tokens(s: Seq<char>) -> Seq<Seq<char>> {
    kept(pieces(s, false))
}

/// The department codes of a comma-separated list, in order.
pub open spec fn list_items(s: Seq<char>) -> Seq<Seq<char>> {
    kept(pieces(s, true))
}

/// The characters of each string.
pub open spec fn views(v: Seq<String>) -> Seq<Seq<char>> {
    v.map_values(|t: String| t@)
}

proof fn lemma_pieces_nonempty(s: Seq<char>, commas_only: bool)
    ensures
        pieces(s, commas_only).len() >= 1,
    decreases s.len(),
{
    if s.len() > 0 {
        lemma_pieces_nonempty(s.drop_last(), commas_only);
    }
}

/// Appends the trimmed `s[from..to]` to `out` unless it is empty.
fn push_trimmed(s: &str, from: usize, to: usize, out: &mut Vec<String>)
    requires
        from <= to <= s@.len(),
    ensures
        views(final(out)@) == (if trim(s@.subrange(from as int, to as int)).len() > 0 {
            views(old(out)@).push(trim(s@.subrange(from as int, to as int)))
        } else {
            views(old(out)@)
        }),
{
    let (lo, hi) = trimmed_bounds(s, from, to);
    if lo < hi {
        let t = s.substring_char(lo, hi).to_owned();
        out.push(t);
        assert(views(final(out)@) =~= views(old(out)@).push(t@));
    }
}

/// Splits a link list on `;`, `|` and `,`, trims each piece and drops the
/// empty ones.
pub fn split_links(s: &str) -> (r: Vec<String>)
    ensures
        views(r@) == link_tokens(s@),
{
    split_trimmed(s, false)
}

/// Splits a comma-separated list of department codes, trims each piece and
/// drops the empty ones.
pub fn split_list(s: &str) -> (r: Vec<String>)
    ensures
        views(r@) == list_items(s@),
{
    split_trimmed(s, true)
}

/// Splits `s` on separators, trims each piece and drops the empty ones.
fn split_trimmed(s: &str, commas_only: bool) -> (r: Vec<String>)
    ensures
        views(r@) == kept(pieces(s@, commas_only)),
{
    let n = s.unicode_len();
    let mut out: Vec<String> = Vec::new();
    let mut start: usize = 0;
    let mut i: usize = 0;
    let ghost mut done: Seq<Seq<char>> = Seq::empty();
    assert(s@.take(0) =~= Seq::<char>::empty());
    assert(pieces(s@.take(0), commas_only) =~= done.push(s@.subrange(0, 0)));
    while i < n
        invariant
            n == s@.len(),
            start <= i <= n,
            pieces(s@.take(i as int), commas_only) == done.push(s@.subrange(start as int, i as int)),
            views(out@) == kept(done),
        decreases n - i,
    {
        let c = s.get_char(i);
        assert(s@.take(i + 1).drop_last() =~= s@.take(i as int));
        assert(s@.take(i + 1).last() == c);
        proof { lemma_pieces_nonempty(s@.take(i as int), commas_only); }
        if c == ',' || (!commas_only && (c == ';' || c == '|')) {
            proof {
                let piece = s@.subrange(start as int, i as int);
                assert(done.push(piece).drop_last() =~= done);
                done = done.push(piece);
            }
            push_trimmed(s, start, i, &mut out);
            start = i + 1;
            assert(pieces(s@.take(i + 1), commas_only) == pieces(s@.take(i as int), commas_only).push(Seq::empty()));
            assert(s@.subrange(start as int, i + 1) =~= Seq::<char>::empty());
            assert(pieces(s@.take(i + 1), commas_only) =~= done.push(s@.subrange(start as int, i + 1)));
        } else {
            let ghost p = done.push(s@.subrange(start as int, i as int));
            assert(pieces(s@.take(i + 1), commas_only) == p.update(p.len() - 1, p.last().push(c)));
            assert(s@.subrange(start as int, i as int).push(c) =~= s@.subrange(start as int, i + 1));
            assert(p.update(p.len() - 1, p.last().push(c)) =~= done.push(
                s@.subrange(start as int, i + 1),
            ));
        }
        i = i + 1;
    }
    assert(s@.take(n as int) =~= s@);
    let ghost last = s@.subrange(start as int, n as int);
    assert(done.push(last).drop_last() =~= done);
    push_trimmed(s, start, n, &mut out);
    out
}

/// How many times `x` occurs in `ts`.
pub open spec fn occurrences(ts: Seq<Seq<char>>, x: Seq<char>) -> nat
    decreases ts.len(),
{
    if ts.len() == 0 {
        0
    } else {
        occurrences(ts.drop_last(), x) + if ts.last() == x {
            1nat
        } else {
            0nat
        }
    }
}

/// The parcel ids an address declares.
pub open spec fn declared(a: AddressInput) -> Seq<Seq<char>> {
    match a.existing_link {
        Some(l) => link_tokens(l@),
        None => Seq::empty(),
    }
}

/// 1 when `x` occurs in `ts`, else 0.
pub open spec fn named(ts: Seq<Seq<char>>, x: Seq<char>) -> nat {
    if occurrences(ts, x) > 0 {
        1
    } else {
        0
    }
}

/// `x` occurs in `ts` exactly when some position holds it.
pub proof fn lemma_occurrences_positive(ts: Seq<Seq<char>>, x: Seq<char>)
    ensures
        occurrences(ts, x) > 0 <==> exists|i: int| 0 <= i < ts.len() && ts[i] == x,
    decreases ts.len(),
{
    if ts.len() > 0 {
        lemma_occurrences_positive(ts.drop_last(), x);
        if exists|i: int| 0 <= i < ts.len() && ts[i] == x {
            let i = choose|i: int| 0 <= i < ts.len() && ts[i] == x;
            if i < ts.len() - 1 {
                assert(ts.drop_last()[i] == x);
            }
        }
        if exists|i: int| 0 <= i < ts.drop_last().len() && ts.drop_last()[i] == x {
            let i = choose|i: int| 0 <= i < ts.drop_last().len() && ts.drop_last()[i] == x;
            assert(ts[i] == x);
        }
    }
}

/// Address ids of the pre-declared links to parcel id `pid`, in address
/// order: one per address whose link list names `pid`, however often.
pub open spec fn linked_addresses(addrs: Seq<AddressInput>, pid: Seq<char>) -> Seq<Seq<char>>
    decreases addrs.len(),
{
    if addrs.len() == 0 {
        Seq::empty()
    } else {
        let a = addrs.last();
        linked_addresses(addrs.drop_last(), pid) + Seq::new(
            named(declared(a), pid),
            |k: int| a.id@,
        )
    }
}

/// Whether `rs` are the pre-declared records of parcel id `pid`, one for each
/// address id of `ids`, in order.
pub open spec fn pre_records(rs: Seq<MatchOutput>, ids: Seq<Seq<char>>, pid: Seq<char>) -> bool {
    &&& rs.len() == ids.len()
    &&& forall|k: int|
        0 <= k < rs.len() ==> #[trigger] is_record(rs[k], ids[k], Some(pid), 0, MatchType::PreExisting)
}

/// For each parcel id (by position), the pre-declared records that name it:
/// one per address whose link list names the id (once, however often the
/// list repeats it), in address order.
///
/// Parcel ids are looked up through a hash directory, so the work grows
/// with the number of links rather than with links times parcels.
pub fn build_preexisting_map(addresses: &Vec<AddressInput>, parcel_ids: &Vec<String>) -> (r: Vec<
    Vec<MatchOutput>,
>)
    ensures
        r@.len() == parcel_ids@.len(),
        forall|j: int|
            0 <= j < r@.len() ==> pre_records(
                #[trigger] r@[j]@,
                linked_addresses(addresses@, parcel_ids@[j]@),
                parcel_ids@[j]@,
            ),
{
    let np = parcel_ids.len();
    let mut r: Vec<Vec<MatchOutput>> = Vec::new();
    let mut j: usize = 0;
    while j < np
        invariant
            np == parcel_ids@.len(),
            j <= np,
            r@.len() == j,
            forall|q: int| 0 <= q < j ==> (#[trigger] r@[q])@.len() == 0,
        decreases np - j,
    {
        r.push(Vec::new());
        j = j + 1;
    }
    let dir = ParcelDirectory::build(parcel_ids);
    let ghost ids = parcel_ids@.map_values(|x: String| x@);
    let na = addresses.len();
    let mut i: usize = 0;
    while i < na
        invariant
            ids == parcel_ids@.map_values(|x: String| x@),
            dir.wf(ids),
            na == addresses@.len(),
            np == parcel_ids@.len(),
            i <= na,
            r@.len() == np,
            forall|q: int|
                0 <= q < np ==> pre_records(
                    #[trigger] r@[q]@,
                    linked_addresses(addresses@.take(i as int), parcel_ids@[q]@),
                    parcel_ids@[q]@,
                ),
        decreases na - i,
    {
        let a = &addresses[i];
        assert(addresses@.take(i + 1).drop_last() =~= addresses@.take(i as int));
        let tokens = match &a.existing_link {
            Some(l) => split_links(l.as_str()),
            None => Vec::new(),
        };
        assert(views(tokens@) == declared(*a));
        let nt = tokens.len();
        let mut k: usize = 0;
        assert(views(tokens@).take(0) =~= Seq::<Seq<char>>::empty());
        while k < nt
            invariant
                ids == parcel_ids@.map_values(|x: String| x@),
                dir.wf(ids),
                na == addresses@.len(),
                np == parcel_ids@.len(),
                i < na,
                a == addresses@[i as int],
                nt == tokens@.len(),
                views(tokens@) == declared(*a),
                k <= nt,
                r@.len() == np,
                forall|q: int|
                    0 <= q < np ==> pre_records(
                        #[trigger] r@[q]@,
                        linked_addresses(addresses@.take(i as int), parcel_ids@[q]@) + Seq::new(
                            named(views(tokens@).take(k as int), parcel_ids@[q]@),
                            |m: int| a.id@,
                        ),
                        parcel_ids@[q]@,
                    ),
            decreases nt - k,
        {
            let t = &tokens[k];
            assert(views(tokens@).take(k + 1).drop_last() =~= views(tokens@).take(k as int));
            assert(views(tokens@).take(k + 1).last() == t@);
            // a parcel id that this list already named yields no second record
            let mut repeated = false;
            let mut e: usize = 0;
            while e < k
                invariant
                    k < nt,
                    nt == tokens@.len(),
                    e <= k,
                    t == tokens@[k as int],
                    repeated == exists|x: int| 0 <= x < e && tokens@[x]@ == t@,
                decreases k - e,
            {
                if str_eq(tokens[e].as_str(), t.as_str()) {
                    repeated = true;
                }
                e = e + 1;
            }
            proof {
                let prev = views(tokens@).take(k as int);
                lemma_occurrences_positive(prev, t@);
                if repeated {
                    let x = choose|x: int| 0 <= x < k && tokens@[x]@ == t@;
                    assert(prev[x] == t@);
                } else {
                    assert forall|x: int| 0 <= x < prev.len() implies prev[x] != t@ by {
                        assert(prev[x] == tokens@[x]@);
                    }
                }
            }
            if repeated {
                proof {
                    assert forall|p: int| 0 <= p < np implies pre_records(
                        #[trigger] r@[p]@,
                        linked_addresses(addresses@.take(i as int), parcel_ids@[p]@) + Seq::new(
                            named(views(tokens@).take(k + 1), parcel_ids@[p]@),
                            |m: int| a.id@,
                        ),
                        parcel_ids@[p]@,
                    ) by {
                        assert(named(views(tokens@).take(k + 1), parcel_ids@[p]@) == named(
                            views(tokens@).take(k as int),
                            parcel_ids@[p]@,
                        ));
                    }
                }
            } else {
                let h = hash_of(t.as_str());
                match dir.slots.get(&h) {
                    None => {
                        proof {
                            assert forall|p: int| 0 <= p < np implies parcel_ids@[p]@ != t@ by {
                                assert(ids[p] == parcel_ids@[p]@);
                                assert(dir.slots@.contains_key(id_hash(ids[p])));
                            }
                            assert forall|p: int| 0 <= p < np implies pre_records(
                                #[trigger] r@[p]@,
                                linked_addresses(addresses@.take(i as int), parcel_ids@[p]@) + Seq::new(
                                    named(views(tokens@).take(k + 1), parcel_ids@[p]@),
                                    |m: int| a.id@,
                                ),
                                parcel_ids@[p]@,
                            ) by {
                                assert(Seq::new(
                                    named(views(tokens@).take(k + 1), parcel_ids@[p]@),
                                    |m: int| a.id@,
                                ) =~= Seq::new(
                                    named(views(tokens@).take(k as int), parcel_ids@[p]@),
                                    |m: int| a.id@,
                                ));
                            }
                        }
                    },
                    Some(b) => {
                        let bucket = &dir.buckets[*b];
                        let nb = bucket.len();
                        let mut m: usize = 0;
                        while m < nb
                            invariant
                                na == addresses@.len(),
                                np == parcel_ids@.len(),
                                ids == parcel_ids@.map_values(|x: String| x@),
                                dir.wf(ids),
                                i < na,
                                a == addresses@[i as int],
                                nt == tokens@.len(),
                                k < nt,
                                t == tokens@[k as int],
                                views(tokens@).take(k + 1).drop_last() == views(tokens@).take(k as int),
                                views(tokens@).take(k + 1).last() == t@,
                                (*b as int) < dir.buckets@.len(),
                                bucket == dir.buckets@[*b as int],
                                nb == bucket@.len(),
                                m <= nb,
                                occurrences(views(tokens@).take(k as int), t@) == 0,
                                r@.len() == np,
                                forall|p: int|
                                    0 <= p < np ==> pre_records(
                                        #[trigger] r@[p]@,
                                        linked_addresses(addresses@.take(i as int), parcel_ids@[p]@)
                                            + Seq::new(
                                            named(
                                                views(tokens@).take(
                                                    if bucket@.take(m as int).contains(p as usize) {
                                                        k + 1
                                                    } else {
                                                        k as int
                                                    },
                                                ),
                                                parcel_ids@[p]@,
                                            ),
                                            |w: int| a.id@,
                                        ),
                                        parcel_ids@[p]@,
                                    ),
                            decreases nb - m,
                        {
                            let q = bucket[m];
                            assert(bucket@.no_duplicates());
                            assert(q < np);
                            assert(bucket@.take(m + 1) =~= bucket@.take(m as int).push(q));
                            assert(!bucket@.take(m as int).contains(q)) by {
                                if bucket@.take(m as int).contains(q) {
                                    let w = choose|w: int| 0 <= w < m && #[trigger] bucket@.take(m as int)[w] == q;
                                    assert(bucket@[w] == bucket@[m as int]);
                                }
                            }
                            let pid = &parcel_ids[q];
                            let ghost before = linked_addresses(addresses@.take(i as int), pid@) + Seq::new(
                                named(views(tokens@).take(k as int), pid@),
                                |w: int| a.id@,
                            );
                            let ghost after = linked_addresses(addresses@.take(i as int), pid@) + Seq::new(
                                named(views(tokens@).take(k + 1), pid@),
                                |w: int| a.id@,
                            );
                            let ghost old_r = r@;
                            if str_eq(t.as_str(), pid.as_str()) {
                                let rec = MatchOutput::new(
                                    a.id.clone(),
                                    Some(pid.clone()),
                                    0,
                                    MatchType::PreExisting,
                                );
                                let ghost old_rq = r@[q as int]@;
                                r[q].push(rec);
                                assert(occurrences(views(tokens@).take(k + 1), t@) == 1);
                                assert(after =~= before.push(a.id@));
                                assert(r@[q as int]@ =~= old_rq.push(rec));
                                assert forall|x: int| 0 <= x < r@[q as int]@.len() implies #[trigger] is_record(
                                    r@[q as int]@[x],
                                    after[x],
                                    Some(pid@),
                                    0,
                                    MatchType::PreExisting,
                                ) by {
                                    if x < old_rq.len() {
                                        assert(r@[q as int]@[x] == old_rq[x]);
                                        assert(is_record(old_rq[x], before[x], Some(pid@), 0, MatchType::PreExisting));
                                    }
                                }
                            } else {
                                assert(after =~= before);
                            }
                            proof {
                                assert forall|p: int| 0 <= p < np && p != q implies #[trigger] r@[p] == old_r[p] by {}
                                assert forall|p: int| 0 <= p < np && p != q implies (#[trigger] bucket@.take(m + 1).contains(p as usize)
                                    == bucket@.take(m as int).contains(p as usize)) by {
                                    if bucket@.take(m + 1).contains(p as usize) {
                                        let w = choose|w: int| 0 <= w < m + 1 && #[trigger] bucket@.take(m + 1)[w] == p as usize;
                                        assert(w < m);
                                        assert(bucket@.take(m as int)[w] == p as usize);
                                    }
                                    if bucket@.take(m as int).contains(p as usize) {
                                        let w = choose|w: int| 0 <= w < m && #[trigger] bucket@.take(m as int)[w] == p as usize;
                                        assert(bucket@.take(m + 1)[w] == p as usize);
                                    }
                                }
                                assert(bucket@.take(m + 1)[m as int] == q);
                            }
                            m = m + 1;
                        }
                        proof {
                            assert(bucket@.take(nb as int) =~= bucket@);
                            assert forall|p: int| 0 <= p < np && !bucket@.contains(p as usize) implies parcel_ids@[p]@ != t@ by {
                                assert(ids[p] == parcel_ids@[p]@);
                                if parcel_ids@[p]@ == t@ {
                                    assert(dir.buckets@[dir.slots@[id_hash(ids[p])] as int]@.contains(p as usize));
                                }
                            }
                            assert forall|p: int| 0 <= p < np implies pre_records(
                                #[trigger] r@[p]@,
                                linked_addresses(addresses@.take(i as int), parcel_ids@[p]@) + Seq::new(
                                    named(views(tokens@).take(k + 1), parcel_ids@[p]@),
                                    |w: int| a.id@,
                                ),
                                parcel_ids@[p]@,
                            ) by {
                                if !bucket@.contains(p as usize) {
                                    assert(Seq::new(
                                        named(views(tokens@).take(k + 1), parcel_ids@[p]@),
                                        |w: int| a.id@,
                                    ) =~= Seq::new(
                                        named(views(tokens@).take(k as int), parcel_ids@[p]@),
                                        |w: int| a.id@,
                                    ));
                                }
                            }
                        }
                    },
                }
            }
            k = k + 1;
        }
        assert(views(tokens@).take(nt as int) =~= views(tokens@));
        i = i + 1;
    }
    assert(addresses@.take(na as int) =~= addresses@);
    r
}

/// Whether `s` spells `null` in any ASCII case.
pub open spec fn is_null_word(s: Seq<char>) -> bool {
    &&& s.len() == 4
    &&& (s[0] == 'n' || s[0] == 'N')
    &&& (s[1] == 'u' || s[1] == 'U')
    &&& (s[2] == 'l' || s[2] == 'L')
    &&& (s[3] == 'l' || s[3] == 'L')
}

/// The link list of an address as stored: trimmed, and absent when blank or
/// the word `null`.
pub open spec fn link_value(raw: Option<Seq<char>>) -> Option<Seq<char>> {
    match raw {
        Some(s) => if trim(s).len() == 0 || is_null_word(trim(s)) {
            None
        } else {
            Some(trim(s))
        },
        None => None,
    }
}

/// The link list of an address as stored: trimmed, and absent when blank or
/// the word `null` in any case.
pub fn normalize_link(raw: &Option<String>) -> (r: Option<String>)
    ensures
        crate::records::opt_view(r) == link_value(crate::records::opt_view(*raw)),
{
    match raw {
        Some(s) => {
            let n = s.as_str().unicode_len();
            let (lo, hi) = trimmed_bounds(s.as_str(), 0, n);
            assert(s@.subrange(0, n as int) =~= s@);
            let t = s.as_str().substring_char(lo, hi);
            if lo == hi {
                return None;
            }
            if hi - lo == 4 {
                let (c0, c1, c2, c3) = (t.get_char(0), t.get_char(1), t.get_char(2), t.get_char(3));
                if (c0 == 'n' || c0 == 'N') && (c1 == 'u' || c1 == 'U') && (c2 == 'l' || c2 == 'L') && (c3
                    == 'l' || c3 == 'L') {
                    return None;
                }
            }
            Some(t.to_owned())
        },
        None => None,
    }
}

} // verus!
