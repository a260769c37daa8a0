//! Batch bookkeeping: which departments completed and which failed, and why.
use vstd::prelude::*;
use crate::text::str_eq;

verus! {

/// A department that failed, with the error it failed with.
pub struct FailedDept {
    pub dept: String,
    pub error: String,
}

/// Progress of a batch over departments.
pub struct BatchState {
    /// Departments that completed, each once.
    pub completed: Vec<String>,
    /// Departments that failed, each once, in the order they first failed.
    pub failed: Vec<FailedDept>,
    pub started_at: String,
}

/// Relies on `chrono::Utc::now` and `DateTime::to_rfc3339`: the current time
/// as RFC 3339 text. Nothing is promised of the value.
#[verifier::external_body]
fn now_rfc3339() -> (r: String) {
    chrono::Utc::now().to_rfc3339()
}

/// The department codes of failure entries.
pub open spec fn failed_depts(fs: Seq<FailedDept>) -> Seq<Seq<char>> {
    fs.map_values(|f: FailedDept| f.dept@)
}

/// The failure entries as (department, error) pairs.
pub open spec fn failed_view(fs: Seq<FailedDept>) -> Seq<(Seq<char>, Seq<char>)> {
    fs.map_values(|f: FailedDept| (f.dept@, f.error@))
}

/// The failure entries without the one of department `d`.
pub open spec fn without_dept(fs: Seq<(Seq<char>, Seq<char>)>, d: Seq<char>) -> Seq<
    (Seq<char>, Seq<char>),
> {
    if exists|k: int| 0 <= k < fs.len() && fs[k].0 == d {
        fs.remove(choose|k: int| 0 <= k < fs.len() && fs[k].0 == d)
    } else {
        fs
    }
}

/// The failure entries after department `d` failed with error `e`: the entry
/// of `d` takes the new error, or a new entry comes last.
pub open spec fn with_failure(fs: Seq<(Seq<char>, Seq<char>)>, d: Seq<char>, e: Seq<char>) -> Seq<
    (Seq<char>, Seq<char>),
> {
    if exists|k: int| 0 <= k < fs.len() && fs[k].0 == d {
        fs.map_values(|x: (Seq<char>, Seq<char>)| if x.0 == d { (d, e) } else { x })
    } else {
        fs.push((d, e))
    }
}

impl BatchState {
    /// The completed departments.
    pub open spec fn done(&self) -> Set<Seq<char>> {
        self.completed@.map_values(|s: String| s@).to_set()
    }

    /// Each department appears at most once in each list.
    pub open spec fn wf(&self) -> bool {
        &&& self.completed@.map_values(|s: String| s@).no_duplicates()
        &&& failed_depts(self.failed@).no_duplicates()
    }

    /// A fresh state with nothing done, stamped with the current time.
    pub fn new() -> (r: Self)
        ensures
            r.wf(),
            r.completed@.len() == 0,
            r.failed@.len() == 0,
    {
        let r = BatchState { completed: Vec::new(), failed: Vec::new(), started_at: now_rfc3339() };
        assert(r.completed@.map_values(|s: String| s@) =~= Seq::<Seq<char>>::empty());
        assert(failed_depts(r.failed@) =~= Seq::<Seq<char>>::empty());
        r
    }

    /// Position of department `dept` among the completed ones.
    fn completed_position(&self, dept: &str) -> (r: Option<usize>)
        ensures
            match r {
                Some(k) => k < self.completed@.len() && self.completed@[k as int]@ == dept@,
                None => forall|k: int|
                    0 <= k < self.completed@.len() ==> self.completed@[k]@ != dept@,
            },
    {
        let n = self.completed.len();
        let mut k: usize = 0;
        while k < n
            invariant
                n == self.completed@.len(),
                k <= n,
                forall|q: int| 0 <= q < k ==> self.completed@[q]@ != dept@,
            decreases n - k,
        {
            if str_eq(self.completed[k].as_str(), dept) {
                return Some(k);
            }
            k = k + 1;
        }
        None
    }

    /// Position of department `dept` among the failed ones.
    fn failed_position(&self, dept: &str) -> (r: Option<usize>)
        ensures
            match r {
                Some(k) => k < self.failed@.len() && self.failed@[k as int].dept@ == dept@,
                None => forall|k: int|
                    0 <= k < self.failed@.len() ==> self.failed@[k].dept@ != dept@,
            },
    {
        let n = self.failed.len();
        let mut k: usize = 0;
        while k < n
            invariant
                n == self.failed@.len(),
                k <= n,
                forall|q: int| 0 <= q < k ==> self.failed@[q].dept@ != dept@,
            decreases n - k,
        {
            if str_eq(self.failed[k].dept.as_str(), dept) {
                return Some(k);
            }
            k = k + 1;
        }
        None
    }

    /// Whether department `dept` completed.
    pub fn is_completed(&self, dept: &str) -> (r: bool)
        ensures
            r == self.done().contains(dept@),
    {
        let p = self.completed_position(dept);
        proof {
            let v = self.completed@.map_values(|s: String| s@);
            match p {
                Some(k) => {
                    assert(v[k as int] == dept@);
                },
                None => {
                    if v.contains(dept@) {
                        let k = choose|k: int| 0 <= k < v.len() && v[k] == dept@;
                        assert(self.completed@[k]@ == dept@);
                    }
                },
            }
        }
        p.is_some()
    }

    /// Records that department `dept` completed: it joins the completed ones
    /// and leaves the failed ones.
    pub fn mark_completed(&mut self, dept: &str)
        requires
            old(self).wf(),
        ensures
            final(self).wf(),
            final(self).done() == old(self).done().insert(dept@),
            failed_view(final(self).failed@) == without_dept(failed_view(old(self).failed@), dept@),
            final(self).started_at@ == old(self).started_at@,
    {
        let ghost cv = self.completed@.map_values(|s: String| s@);
        if !self.is_completed(dept) {
            let d = dept.to_owned();
            self.completed.push(d);
            proof {
                let nv = self.completed@.map_values(|s: String| s@);
                assert(nv =~= cv.push(dept@));
                assert(!cv.contains(dept@));
                assert forall|i: int, j: int|
                    0 <= i < nv.len() && 0 <= j < nv.len() && i != j implies nv[i] != nv[j] by {
                    if i < cv.len() && j < cv.len() {
                        assert(cv[i] != cv[j]);
                    } else if i < cv.len() {
                        assert(cv.contains(cv[i]));
                    } else {
                        assert(cv.contains(cv[j]));
                    }
                }
                assert(nv.to_set() =~= cv.to_set().insert(dept@)) by {
                    assert forall|x: Seq<char>| nv.to_set().contains(x) <==> cv.to_set().insert(
                        dept@,
                    ).contains(x) by {
                        if nv.contains(x) && x != dept@ {
                            let k = choose|k: int| 0 <= k < nv.len() && nv[k] == x;
                            assert(k < cv.len());
                            assert(cv.contains(x));
                        }
                        if cv.contains(x) {
                            let k = choose|k: int| 0 <= k < cv.len() && cv[k] == x;
                            assert(nv[k] == x);
                        }
                        if x == dept@ {
                            assert(nv[cv.len() as int] == x);
                        }
                    }
                }
            }
        } else {
            assert(cv.to_set().insert(dept@) =~= cv.to_set());
        }
        let ghost fv = failed_view(self.failed@);
        match self.failed_position(dept) {
            Some(pos) => {
                self.failed.remove(pos);
                proof {
                    assert(fv[pos as int].0 == dept@);
                    let k = choose|k: int| 0 <= k < fv.len() && fv[k].0 == dept@;
                    let fd = failed_depts(old(self).failed@);
                    assert(fd[k] == fv[k].0);
                    assert(fd[pos as int] == fv[pos as int].0);
                    assert(fd[k] == fd[pos as int]);
                    assert(k == pos);
                    assert(failed_view(self.failed@) =~= fv.remove(pos as int));
                    let nd = failed_depts(self.failed@);
                    assert(nd =~= fd.remove(pos as int));
                    assert forall|i: int, j: int|
                        0 <= i < nd.len() && 0 <= j < nd.len() && i != j implies nd[i] != nd[j] by {
                        let i0 = if i < pos { i } else { i + 1 };
                        let j0 = if j < pos { j } else { j + 1 };
                        assert(nd[i] == fd[i0]);
                        assert(nd[j] == fd[j0]);
                    }
                }
            },
            None => {
                assert(!(exists|k: int| 0 <= k < fv.len() && fv[k].0 == dept@));
            },
        }
    }

    /// Records that department `dept` failed with error `err`: it leaves the
    /// completed ones; its failure entry takes the new error, or a new entry
    /// comes last.
    pub fn mark_failed(&mut self, dept: &str, err: String)
        requires
            old(self).wf(),
        ensures
            final(self).wf(),
            final(self).done() == old(self).done().remove(dept@),
            failed_view(final(self).failed@) == with_failure(
                failed_view(old(self).failed@),
                dept@,
                err@,
            ),
            final(self).started_at@ == old(self).started_at@,
    {
        let ghost cv = self.completed@.map_values(|s: String| s@);
        match self.completed_position(dept) {
            Some(pos) => {
                self.completed.remove(pos);
                proof {
                    let nv = self.completed@.map_values(|s: String| s@);
                    assert(nv =~= cv.remove(pos as int));
                    assert forall|i: int, j: int|
                        0 <= i < nv.len() && 0 <= j < nv.len() && i != j implies nv[i] != nv[j] by {
                        let i0 = if i < pos { i } else { i + 1 };
                        let j0 = if j < pos { j } else { j + 1 };
                        assert(nv[i] == cv[i0]);
                        assert(nv[j] == cv[j0]);
                    }
                    assert(nv.to_set() =~= cv.to_set().remove(dept@)) by {
                        assert forall|x: Seq<char>| nv.to_set().contains(x) <==> cv.to_set().remove(
                            dept@,
                        ).contains(x) by {
                            if nv.contains(x) {
                                let k = choose|k: int| 0 <= k < nv.len() && nv[k] == x;
                                let k0 = if k < pos { k } else { k + 1 };
                                assert(cv[k0] == x);
                                assert(k0 != pos);
                                assert(cv[pos as int] == dept@);
                            }
                            if cv.contains(x) && x != dept@ {
                                let k = choose|k: int| 0 <= k < cv.len() && cv[k] == x;
                                assert(k != pos);
                                let k1 = if k < pos { k } else { k - 1 };
                                assert(nv[k1] == x);
                            }
                        }
                    }
                }
            },
            None => {
                assert(cv.to_set().remove(dept@) =~= cv.to_set()) by {
                    if cv.to_set().contains(dept@) {
                        let k = choose|k: int| 0 <= k < cv.len() && cv[k] == dept@;
                        assert(old(self).completed@[k]@ == dept@);
                    }
                }
            },
        }
        let ghost fv = failed_view(self.failed@);
        let ghost fd = failed_depts(self.failed@);
        match self.failed_position(dept) {
            Some(pos) => {
                let ghost before = self.failed@;
                let mut entry = self.failed.remove(pos);
                entry.error = err;
                self.failed.insert(pos, entry);
                proof {
                    let nv = failed_view(self.failed@);
                    let target = fv.map_values(
                        |x: (Seq<char>, Seq<char>)| if x.0 == dept@ { (dept@, err@) } else { x },
                    );
                    assert(fv[pos as int].0 == dept@);
                    assert forall|q: int| 0 <= q < nv.len() implies nv[q] == target[q] by {
                        if q != pos {
                            assert(self.failed@[q] == before[q]);
                            assert(fd[q] != fd[pos as int]);
                        }
                    }
                    assert(nv =~= target);
                    assert(failed_depts(self.failed@) =~= fd);
                }
            },
            None => {
                let ghost before = self.failed@;
                self.failed.push(FailedDept { dept: dept.to_owned(), error: err });
                proof {
                    assert(!(exists|k: int| 0 <= k < fv.len() && fv[k].0 == dept@));
                    assert(failed_view(self.failed@) =~= fv.push((dept@, err@)));
                    let nd = failed_depts(self.failed@);
                    assert(nd =~= fd.push(dept@));
                    assert forall|i: int, j: int|
                        0 <= i < nd.len() && 0 <= j < nd.len() && i != j implies nd[i] != nd[j] by {
                        if i < fd.len() && j < fd.len() {
                            assert(fd[i] != fd[j]);
                        } else if i < fd.len() {
                            assert(before[i].dept@ == fd[i]);
                        } else {
                            assert(before[j].dept@ == fd[j]);
                        }
                    }
                }
            },
        }
    }
}

} // verus!
