//! National roll-up over departments: manifest rows, skipped departments,
//! and coverage totals per region and for the whole country.
use vstd::prelude::*;
use crate::quality::ParcelQa;
use crate::text::{trim, trimmed_bounds, str_eq};

verus! {

/// One row of the department manifest, as read.
pub struct ManifestRow {
    pub dept: Option<String>,
    pub region: Option<String>,
    pub nom: Option<String>,
}

/// A valid manifest row, with its fields trimmed.
pub struct ManifestEntry {
    pub dept: String,
    pub region: String,
    pub nom: String,
}

/// The trimmed value of a manifest field, or `None` when it is missing or
/// blank.
pub open spec fn field_value(f: Option<String>) -> Option<Seq<char>> {
    match f {
        Some(s) => if trim(s@).len() > 0 {
            Some(trim(s@))
        } else {
            None
        },
        None => None,
    }
}

/// The trimmed value of a manifest field, or `None` when it is missing or
/// blank.
pub fn field(f: &Option<String>) -> (r: Option<String>)
    ensures
        match r {
            Some(v) => field_value(*f) == Some(v@),
            None => field_value(*f).is_none(),
        },
{
    match f {
        Some(s) => {
            let n = s.as_str().unicode_len();
            let (lo, hi) = trimmed_bounds(s.as_str(), 0, n);
            assert(s@.subrange(0, n as int) =~= s@);
            if lo < hi {
                Some(s.as_str().substring_char(lo, hi).to_owned())
            } else {
                None
            }
        },
        None => None,
    }
}

/// The entry of a manifest row whose three fields are all present and not
/// blank.
pub fn check_row(row: &ManifestRow) -> (r: Option<ManifestEntry>)
    ensures
        match r {
            Some(e) => field_value(row.dept) == Some(e.dept@) && field_value(row.region) == Some(
                e.region@,
            ) && field_value(row.nom) == Some(e.nom@),
            None => field_value(row.dept).is_none() || field_value(row.region).is_none()
                || field_value(row.nom).is_none(),
        },
{
    let dept = match field(&row.dept) {
        Some(v) => v,
        None => return None,
    };
    let region = match field(&row.region) {
        Some(v) => v,
        None => return None,
    };
    let nom = match field(&row.nom) {
        Some(v) => v,
        None => return None,
    };
    Some(ManifestEntry { dept, region, nom })
}

/// The first comma-separated field of a line.
pub open spec fn first_field(s: Seq<char>) -> Seq<char>
    decreases s.len(),
{
    if s.len() == 0 || s[0] == ',' {
        Seq::empty()
    } else {
        seq![s[0]] + first_field(s.drop_first())
    }
}

/// The department code a manifest line names: its trimmed first field,
/// unless that is empty or a header word.
pub open spec fn line_department(s: Seq<char>) -> Option<Seq<char>> {
    let d = trim(first_field(s));
    if d.len() == 0 || d == "code_insee"@ || d == "dept"@ {
        None
    } else {
        Some(d)
    }
}

/// The department code a manifest line names: its trimmed first field,
/// unless that is empty or the header word `dept` or `code_insee`.
pub fn department_of_line(line: &str) -> (r: Option<String>)
    ensures
        match r {
            Some(d) => line_department(line@) == Some(d@),
            None => line_department(line@).is_none(),
        },
{
    let n = line.unicode_len();
    let mut i: usize = 0;
    assert(line@.skip(0) =~= line@);
    assert(line@.take(0) =~= Seq::<char>::empty());
    while i < n && line.get_char(i) != ','
        invariant
            n == line@.len(),
            i <= n,
            first_field(line@) == line@.take(i as int) + first_field(line@.skip(i as int)),
        decreases n - i,
    {
        let ghost rest = line@.skip(i as int);
        assert(rest.drop_first() =~= line@.skip(i + 1));
        assert(line@.take(i + 1) =~= line@.take(i as int) + seq![rest[0]]);
        assert(first_field(rest) == seq![rest[0]] + first_field(rest.drop_first()));
        assert(line@.take(i as int) + (seq![rest[0]] + first_field(rest.drop_first())) =~= line@.take(
            i + 1,
        ) + first_field(line@.skip(i + 1)));
        i = i + 1;
    }
    assert(first_field(line@.skip(i as int)) =~= Seq::<char>::empty());
    assert(line@.take(i as int) =~= line@.subrange(0, i as int));
    assert(first_field(line@) =~= line@.subrange(0, i as int));
    let (lo, hi) = trimmed_bounds(line, 0, i);
    let d = line.substring_char(lo, hi);
    if lo == hi || str_eq(d, "code_insee") || str_eq(d, "dept") {
        None
    } else {
        Some(d.to_owned())
    }
}

/// Coverage totals over departments.
pub struct Totals {
    pub total_parcels: u64,
    /// Parcels whose best record is accepted.
    pub matched: u64,
    /// Sum of the confidences of those best records.
    pub confidence_sum: u64,
    /// Parcels whose best record is any match.
    pub matched_any: u64,
    /// Sum of the confidences of those best records.
    pub confidence_any_sum: u64,
    /// Per kind, parcels whose best record has that kind.
    pub by_kind: Vec<u64>,
}

/// Whether every total of `a` is at most the matching total of `b`.
pub open spec fn totals_le(a: Totals, b: Totals) -> bool {
    &&& a.total_parcels <= b.total_parcels
    &&& a.matched <= b.matched
    &&& a.confidence_sum <= b.confidence_sum
    &&& a.matched_any <= b.matched_any
    &&& a.confidence_any_sum <= b.confidence_any_sum
    &&& a.by_kind@.len() == 5 && b.by_kind@.len() == 5
    &&& forall|k: int| 0 <= k < 5 ==> #[trigger] a.by_kind@[k] <= b.by_kind@[k]
}

/// Whether `t` can take a department of `parcels` parcels tallied as `qa`
/// without leaving the range of its counters.
pub open spec fn fits(t: Totals, parcels: u64, qa: ParcelQa) -> bool {
    &&& t.total_parcels + parcels <= u64::MAX
    &&& t.matched + qa.best_accepted <= u64::MAX
    &&& t.confidence_sum + qa.confidence_accepted <= u64::MAX
    &&& t.matched_any + qa.best_any <= u64::MAX
    &&& t.confidence_any_sum + qa.confidence_any <= u64::MAX
    &&& t.by_kind@.len() == 5 && qa.by_kind@.len() == 5
    &&& forall|k: int| 0 <= k < 5 ==> #[trigger] t.by_kind@[k] + qa.by_kind@[k] <= u64::MAX
}

/// Whether `after` is `before` with a department of `parcels` parcels
/// tallied as `qa` added.
pub open spec fn totals_added(before: Totals, after: Totals, parcels: u64, qa: ParcelQa) -> bool {
    &&& after.total_parcels == before.total_parcels + parcels
    &&& after.matched == before.matched + qa.best_accepted
    &&& after.confidence_sum == before.confidence_sum + qa.confidence_accepted
    &&& after.matched_any == before.matched_any + qa.best_any
    &&& after.confidence_any_sum == before.confidence_any_sum + qa.confidence_any
    &&& after.by_kind@.len() == 5
    &&& forall|k: int| 0 <= k < 5 ==> #[trigger] after.by_kind@[k] == before.by_kind@[k] + qa.by_kind@[k]
}

/// Whether `t` holds exactly a department of `parcels` parcels tallied as
/// `qa`.
pub open spec fn totals_fresh(t: Totals, parcels: u64, qa: ParcelQa) -> bool {
    &&& t.total_parcels == parcels
    &&& t.matched == qa.best_accepted
    &&& t.confidence_sum == qa.confidence_accepted
    &&& t.matched_any == qa.best_any
    &&& t.confidence_any_sum == qa.confidence_any
    &&& t.by_kind@.len() == 5
    &&& forall|k: int| 0 <= k < 5 ==> #[trigger] t.by_kind@[k] == qa.by_kind@[k]
}

impl Totals {
    /// All totals at zero.
    pub fn new() -> (r: Self)
        ensures
            r.total_parcels == 0 && r.matched == 0 && r.confidence_sum == 0,
            r.matched_any == 0 && r.confidence_any_sum == 0,
            r.by_kind@ == Seq::new(5, |k: int| 0u64),
    {
        let r = Totals {
            total_parcels: 0,
            matched: 0,
            confidence_sum: 0,
            matched_any: 0,
            confidence_any_sum: 0,
            by_kind: vec![0u64; 5],
        };
        assert(r.by_kind@ =~= Seq::new(5, |k: int| 0u64));
        r
    }

    /// Whether a department of `parcels` parcels tallied as `qa` fits.
    pub fn can_take(&self, parcels: u64, qa: &ParcelQa) -> (r: bool)
        requires
            self.by_kind@.len() == 5,
            qa.by_kind@.len() == 5,
        ensures
            r == fits(*self, parcels, *qa),
    {
        let mut ok = parcels <= u64::MAX - self.total_parcels
            && qa.best_accepted <= u64::MAX - self.matched
            && qa.confidence_accepted <= u64::MAX - self.confidence_sum
            && qa.best_any <= u64::MAX - self.matched_any
            && qa.confidence_any <= u64::MAX - self.confidence_any_sum;
        let mut k: usize = 0;
        while k < 5
            invariant
                k <= 5,
                self.by_kind@.len() == 5,
                qa.by_kind@.len() == 5,
                ok == ((self.total_parcels + parcels <= u64::MAX)
                    && (self.matched + qa.best_accepted <= u64::MAX)
                    && (self.confidence_sum + qa.confidence_accepted <= u64::MAX)
                    && (self.matched_any + qa.best_any <= u64::MAX)
                    && (self.confidence_any_sum + qa.confidence_any <= u64::MAX)
                    && forall|q: int| 0 <= q < k ==> #[trigger] self.by_kind@[q] + qa.by_kind@[q] <= u64::MAX),
            decreases 5 - k,
        {
            if qa.by_kind[k] > u64::MAX - self.by_kind[k] {
                ok = false;
            }
            k = k + 1;
        }
        ok
    }

    /// Adds a department of `parcels` parcels tallied as `qa`.
    pub fn add(&mut self, parcels: u64, qa: &ParcelQa)
        requires
            fits(*old(self), parcels, *qa),
        ensures
            totals_added(*old(self), *final(self), parcels, *qa),
    {
        self.total_parcels = self.total_parcels + parcels;
        self.matched = self.matched + qa.best_accepted;
        self.confidence_sum = self.confidence_sum + qa.confidence_accepted;
        self.matched_any = self.matched_any + qa.best_any;
        self.confidence_any_sum = self.confidence_any_sum + qa.confidence_any;
        let mut k: usize = 0;
        while k < 5
            invariant
                k <= 5,
                self.by_kind@.len() == 5,
                qa.by_kind@.len() == 5,
                forall|q: int| 0 <= q < 5 ==> #[trigger] old(self).by_kind@[q] + qa.by_kind@[q] <= u64::MAX,
                forall|q: int| 0 <= q < k ==> #[trigger] self.by_kind@[q] == old(self).by_kind@[q] + qa.by_kind@[q],
                forall|q: int| k <= q < 5 ==> #[trigger] self.by_kind@[q] == old(self).by_kind@[q],
                self.total_parcels == old(self).total_parcels + parcels,
                self.matched == old(self).matched + qa.best_accepted,
                self.confidence_sum == old(self).confidence_sum + qa.confidence_accepted,
                self.matched_any == old(self).matched_any + qa.best_any,
                self.confidence_any_sum == old(self).confidence_any_sum + qa.confidence_any,
            decreases 5 - k,
        {
            let x = self.by_kind[k] + qa.by_kind[k];
            self.by_kind.set(k, x);
            k = k + 1;
        }
    }
}

/// Totals of one region.
pub struct RegionTotals {
    pub name: String,
    pub totals: Totals,
}

/// The roll-up of an analysis run over the manifest.
pub struct AnalysisTally {
    pub manifest_rows_total: u64,
    /// Valid manifest rows.
    pub expected_departments: u64,
    pub analyzed_departments: u64,
    pub invalid_manifest_rows: u64,
    /// Row numbers (from 1) of the invalid rows, in order.
    pub invalid_manifest_row_numbers: Vec<u64>,
    pub skipped_missing_matches: u64,
    pub skipped_missing_parcels: u64,
    pub missing_matches_departments: Vec<String>,
    pub missing_parcels_departments: Vec<String>,
    pub national: Totals,
    /// Per region; names are distinct.
    pub regions: Vec<RegionTotals>,
}

/// Region names, in order.
pub open spec fn region_names(rs: Seq<RegionTotals>) -> Seq<Seq<char>> {
    rs.map_values(|r: RegionTotals| r.name@)
}

impl AnalysisTally {
    /// Counters stay within their range, region names are distinct and no
    /// region exceeds the national totals.
    pub open spec fn wf(&self) -> bool {
        &&& self.national.by_kind@.len() == 5
        &&& region_names(self.regions@).no_duplicates()
        &&& forall|k: int| 0 <= k < self.regions@.len() ==> totals_le(
            (#[trigger] self.regions@[k]).totals,
            self.national,
        )
        &&& self.skipped_missing_matches == self.missing_matches_departments@.len()
        &&& self.skipped_missing_parcels == self.missing_parcels_departments@.len()
        &&& self.invalid_manifest_rows == self.invalid_manifest_row_numbers@.len()
        &&& self.invalid_manifest_rows + self.expected_departments == self.manifest_rows_total
        &&& self.analyzed_departments + self.skipped_missing_matches + self.skipped_missing_parcels
            <= self.expected_departments
    }

    /// Whether the run is partial: some manifest row was invalid, or some
    /// department was skipped for a missing input.
    pub open spec fn is_partial(&self) -> bool {
        self.skipped_missing_matches > 0 || self.skipped_missing_parcels > 0
            || self.invalid_manifest_rows > 0
    }

    /// A roll-up with nothing counted.
    pub fn new() -> (r: Self)
        ensures
            r.wf(),
            r.manifest_rows_total == 0,
            r.expected_departments == 0,
            r.analyzed_departments == 0,
            r.skipped_missing_matches == 0,
            r.skipped_missing_parcels == 0,
            r.regions@.len() == 0,
    {
        let r = AnalysisTally {
            manifest_rows_total: 0,
            expected_departments: 0,
            analyzed_departments: 0,
            invalid_manifest_rows: 0,
            invalid_manifest_row_numbers: Vec::new(),
            skipped_missing_matches: 0,
            skipped_missing_parcels: 0,
            missing_matches_departments: Vec::new(),
            missing_parcels_departments: Vec::new(),
            national: Totals::new(),
            regions: Vec::new(),
        };
        assert(region_names(r.regions@) =~= Seq::<Seq<char>>::empty());
        r
    }

    /// Counts manifest row number `row_number`: a valid row yields its entry
    /// and counts as an expected department; an invalid one is recorded.
    pub fn take_row(&mut self, row_number: u64, row: &ManifestRow) -> (r: Option<ManifestEntry>)
        requires
            old(self).wf(),
            old(self).manifest_rows_total < u64::MAX,
        ensures
            final(self).wf(),
            final(self).manifest_rows_total == old(self).manifest_rows_total + 1,
            final(self).analyzed_departments == old(self).analyzed_departments,
            final(self).skipped_missing_matches == old(self).skipped_missing_matches,
            final(self).skipped_missing_parcels == old(self).skipped_missing_parcels,
            final(self).regions@ == old(self).regions@,
            match r {
                Some(e) => {
                    &&& field_value(row.dept) == Some(e.dept@)
                    &&& field_value(row.region) == Some(e.region@)
                    &&& field_value(row.nom) == Some(e.nom@)
                    &&& final(self).expected_departments == old(self).expected_departments + 1
                    &&& final(self).invalid_manifest_row_numbers@ == old(
                        self,
                    ).invalid_manifest_row_numbers@
                },
                None => {
                    &&& final(self).is_partial()
                    &&& field_value(row.dept).is_none() || field_value(row.region).is_none()
                        || field_value(row.nom).is_none()
                    &&& final(self).expected_departments == old(self).expected_departments
                    &&& final(self).invalid_manifest_row_numbers@ == old(
                        self,
                    ).invalid_manifest_row_numbers@.push(row_number)
                },
            },
    {
        self.manifest_rows_total = self.manifest_rows_total + 1;
        let r = check_row(row);
        match &r {
            Some(_) => {
                self.expected_departments = self.expected_departments + 1;
            },
            None => {
                self.invalid_manifest_rows = self.invalid_manifest_rows + 1;
                self.invalid_manifest_row_numbers.push(row_number);
            },
        }
        r
    }

    /// Records that department `dept` has no match file and is skipped.
    pub fn skip_missing_matches(&mut self, dept: &String)
        requires
            old(self).wf(),
            old(self).analyzed_departments + old(self).skipped_missing_matches
                + old(self).skipped_missing_parcels < old(self).expected_departments,
        ensures
            final(self).wf(),
            final(self).is_partial(),
            final(self).skipped_missing_matches == old(self).skipped_missing_matches + 1,
            final(self).missing_matches_departments@.map_values(|s: String| s@) == old(
                self,
            ).missing_matches_departments@.map_values(|s: String| s@).push(dept@),
            final(self).skipped_missing_parcels == old(self).skipped_missing_parcels,
            final(self).analyzed_departments == old(self).analyzed_departments,
            final(self).expected_departments == old(self).expected_departments,
            final(self).manifest_rows_total == old(self).manifest_rows_total,
    {
        self.skipped_missing_matches = self.skipped_missing_matches + 1;
        self.missing_matches_departments.push(dept.clone());
        assert(self.missing_matches_departments@.map_values(|s: String| s@) =~= old(
            self,
        ).missing_matches_departments@.map_values(|s: String| s@).push(dept@));
    }

    /// Records that department `dept` has no parcel count and is skipped.
    pub fn skip_missing_parcels(&mut self, dept: &String)
        requires
            old(self).wf(),
            old(self).analyzed_departments + old(self).skipped_missing_matches
                + old(self).skipped_missing_parcels < old(self).expected_departments,
        ensures
            final(self).wf(),
            final(self).is_partial(),
            final(self).skipped_missing_parcels == old(self).skipped_missing_parcels + 1,
            final(self).missing_parcels_departments@.map_values(|s: String| s@) == old(
                self,
            ).missing_parcels_departments@.map_values(|s: String| s@).push(dept@),
            final(self).skipped_missing_matches == old(self).skipped_missing_matches,
            final(self).analyzed_departments == old(self).analyzed_departments,
            final(self).expected_departments == old(self).expected_departments,
            final(self).manifest_rows_total == old(self).manifest_rows_total,
    {
        self.skipped_missing_parcels = self.skipped_missing_parcels + 1;
        self.missing_parcels_departments.push(dept.clone());
        assert(self.missing_parcels_departments@.map_values(|s: String| s@) =~= old(
            self,
        ).missing_parcels_departments@.map_values(|s: String| s@).push(dept@));
    }

    /// Position of region `name`.
    fn region_position(&self, name: &String) -> (r: Option<usize>)
        ensures
            match r {
                Some(k) => k < self.regions@.len() && self.regions@[k as int].name@ == name@,
                None => forall|k: int| 0 <= k < self.regions@.len() ==> self.regions@[k].name@ != name@,
            },
    {
        let n = self.regions.len();
        let mut k: usize = 0;
        while k < n
            invariant
                n == self.regions@.len(),
                k <= n,
                forall|q: int| 0 <= q < k ==> self.regions@[q].name@ != name@,
            decreases n - k,
        {
            if str_eq(self.regions[k].name.as_str(), name.as_str()) {
                return Some(k);
            }
            k = k + 1;
        }
        None
    }

    /// Whether a department of `parcels` parcels tallied as `qa` can be added.
    pub fn can_add(&self, parcels: u64, qa: &ParcelQa) -> (r: bool)
        requires
            self.wf(),
            qa.by_kind@.len() == 5,
        ensures
            r == (fits(self.national, parcels, *qa) && self.analyzed_departments + self.skipped_missing_matches
                + self.skipped_missing_parcels < self.expected_departments),
    {
        self.national.can_take(parcels, qa) && self.skipped_missing_parcels
            < self.expected_departments - self.analyzed_departments - self.skipped_missing_matches
    }

    /// Adds department totals: `parcels` parcels of region `region`, tallied
    /// as `qa`, to the national totals and to those of the region, which is
    /// created on first sight.
    pub fn add_department(&mut self, region: &String, parcels: u64, qa: &ParcelQa)
        requires
            old(self).wf(),
            qa.by_kind@.len() == 5,
            fits(old(self).national, parcels, *qa),
            old(self).analyzed_departments + old(self).skipped_missing_matches
                + old(self).skipped_missing_parcels < old(self).expected_departments,
        ensures
            final(self).wf(),
            final(self).analyzed_departments == old(self).analyzed_departments + 1,
            final(self).skipped_missing_matches == old(self).skipped_missing_matches,
            final(self).skipped_missing_parcels == old(self).skipped_missing_parcels,
            final(self).expected_departments == old(self).expected_departments,
            final(self).manifest_rows_total == old(self).manifest_rows_total,
            totals_added(old(self).national, final(self).national, parcels, *qa),
            exists|k: int|
                0 <= k < final(self).regions@.len() && (#[trigger] final(self).regions@[k]).name@
                    == region@,
            forall|k: int|
                0 <= k < final(self).regions@.len() && (#[trigger] final(self).regions@[k]).name@
                    == region@ ==> if k < old(self).regions@.len() {
                    totals_added(old(self).regions@[k].totals, final(self).regions@[k].totals, parcels, *qa)
                } else {
                    totals_fresh(final(self).regions@[k].totals, parcels, *qa)
                },
            forall|k: int|
                0 <= k < old(self).regions@.len() && old(self).regions@[k].name@ != region@
                    ==> #[trigger] final(self).regions@[k] == old(self).regions@[k],
    {
        let ghost old_national = self.national;
        self.national.add(parcels, qa);
        self.analyzed_departments = self.analyzed_departments + 1;
        let ghost before = self.regions@;
        match self.region_position(region) {
            Some(pos) => {
                let mut entry = self.regions.remove(pos);
                assert(totals_le(entry.totals, old_national));
                entry.totals.add(parcels, qa);
                self.regions.insert(pos, entry);
                proof {
                    assert(region_names(self.regions@) =~= region_names(before));
                    assert forall|k: int| 0 <= k < self.regions@.len() implies totals_le(
                        (#[trigger] self.regions@[k]).totals,
                        self.national,
                    ) by {
                        if k != pos {
                            assert(self.regions@[k] == before[k]);
                            assert(totals_le(before[k].totals, old_national));
                        }
                    }
                    assert(self.regions@[pos as int].name@ == region@);
                    assert forall|k: int|
                        0 <= k < self.regions@.len() && (#[trigger] self.regions@[k]).name@ == region@
                        implies k == pos by {
                        if k != pos {
                            assert(region_names(before)[k] == region_names(before)[pos as int]);
                        }
                    }
                }
            },
            None => {
                let mut t = Totals::new();
                t.add(parcels, qa);
                assert(totals_fresh(t, parcels, *qa));
                self.regions.push(RegionTotals { name: region.clone(), totals: t });
                proof {
                    let nm = region_names(self.regions@);
                    let om = region_names(before);
                    assert(nm =~= om.push(region@));
                    assert forall|i: int, j: int|
                        0 <= i < nm.len() && 0 <= j < nm.len() && i != j implies nm[i] != nm[j] by {
                        if i < om.len() && j < om.len() {
                            assert(om[i] != om[j]);
                        } else if i < om.len() {
                            assert(before[i].name@ != region@);
                        } else {
                            assert(before[j].name@ != region@);
                        }
                    }
                    assert forall|k: int| 0 <= k < self.regions@.len() implies totals_le(
                        (#[trigger] self.regions@[k]).totals,
                        self.national,
                    ) by {
                        if k < before.len() {
                            assert(self.regions@[k] == before[k]);
                            assert(totals_le(before[k].totals, old_national));
                        }
                    }
                    assert(self.regions@[before.len() as int].name@ == region@);
                }
            },
        }
    }
}

/// Summary of an analysis run.
pub struct AnalyzeOutcome {
    pub output_dir: String,
    pub partial: bool,
    pub expected_departments: u64,
    pub analyzed_departments: u64,
    pub skipped_missing_matches: u64,
    pub skipped_missing_parcels: u64,
    pub invalid_manifest_rows: u64,
}

impl AnalysisTally {
    /// The outcome of the run, with its output directory.
    pub fn outcome(&self, output_dir: String) -> (r: AnalyzeOutcome)
        ensures
            r.output_dir == output_dir,
            r.partial == self.is_partial(),
            r.expected_departments == self.expected_departments,
            r.analyzed_departments == self.analyzed_departments,
            r.skipped_missing_matches == self.skipped_missing_matches,
            r.skipped_missing_parcels == self.skipped_missing_parcels,
            r.invalid_manifest_rows == self.invalid_manifest_rows,
    {
        AnalyzeOutcome {
            output_dir,
            partial: self.skipped_missing_matches > 0 || self.skipped_missing_parcels > 0
                || self.invalid_manifest_rows > 0,
            expected_departments: self.expected_departments,
            analyzed_departments: self.analyzed_departments,
            skipped_missing_matches: self.skipped_missing_matches,
            skipped_missing_parcels: self.skipped_missing_parcels,
            invalid_manifest_rows: self.invalid_manifest_rows,
        }
    }
}

/// Exit status of a run: 2 when it is partial and strict mode is on, else 0.
pub fn exit_status(partial: bool, strict: bool) -> (r: u8)
    ensures
        r == (if partial && strict {
            2u8
        } else {
            0u8
        }),
{
    if partial && strict {
        2
    } else {
        0
    }
}

} // verus!
