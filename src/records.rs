//! Match records, their priority order and the matcher's configuration.
//!
//! Distances are whole millimetres in the planar reference system.
use vstd::prelude::*;

verus! {

/// Distance at or below which an address counts as inside a parcel (1 cm).
pub const INSIDE_EPS_MM: u64 = 10;

/// Distance below which a border match earns the higher confidence (5 m).
pub const BORDER_CLOSE_MM: u64 = 5000;

/// Smallest initial expansion radius of the fallback search (5 m).
pub const MIN_FALLBACK_EXPAND_MM: u64 = 5000;

/// Kind of a link between an address and a parcel, in priority order.
#[derive(Clone, Copy, Debug, PartialEq, Eq, Hash, Structural)]
pub enum MatchType {
    PreExisting,
    Inside,
    BorderNear,
    FallbackNearest,
    NoMatch,
}

impl MatchType {
    /// Rank of the kind: lower is better.
    pub open spec fn rank(self) -> u32 {
        match self {
            MatchType::PreExisting => 0,
            MatchType::Inside => 1,
            MatchType::BorderNear => 2,
            MatchType::FallbackNearest => 3,
            MatchType::NoMatch => 100,
        }
    }

    /// Name of the kind as it is written in output tables.
    pub open spec fn name(self) -> Seq<char> {
        match self {
            MatchType::PreExisting => "PreExisting"@,
            MatchType::Inside => "Inside"@,
            MatchType::BorderNear => "BorderNear"@,
            MatchType::FallbackNearest => "FallbackNearest"@,
            MatchType::NoMatch => "None"@,
        }
    }

    /// Rank of the kind: lower is better.
    pub fn priority(&self) -> (r: u32)
        ensures
            r == self.rank(),
    {
        match self {
            MatchType::PreExisting => 0,
            MatchType::Inside => 1,
            MatchType::BorderNear => 2,
            MatchType::FallbackNearest => 3,
            MatchType::NoMatch => 100,
        }
    }

    /// Name of the kind as it is written in output tables.
    pub fn as_str(&self) -> (r: &'static str)
        ensures
            r@ == self.name(),
    {
        match self {
            MatchType::PreExisting => "PreExisting",
            MatchType::Inside => "Inside",
            MatchType::BorderNear => "BorderNear",
            MatchType::FallbackNearest => "FallbackNearest",
            MatchType::NoMatch => "None",
        }
    }

    /// The kind with name `s`, if any.
    pub fn from_name(s: &str) -> (r: Option<MatchType>)
        ensures
            match r {
                Some(t) => s@ == t.name(),
                None => forall|t: MatchType| s@ != t.name(),
            },
    {
        if crate::text::str_eq(s, "PreExisting") {
            Some(MatchType::PreExisting)
        } else if crate::text::str_eq(s, "Inside") {
            Some(MatchType::Inside)
        } else if crate::text::str_eq(s, "BorderNear") {
            Some(MatchType::BorderNear)
        } else if crate::text::str_eq(s, "FallbackNearest") {
            Some(MatchType::FallbackNearest)
        } else if crate::text::str_eq(s, "None") {
            Some(MatchType::NoMatch)
        } else {
            assert forall|t: MatchType| s@ != t.name() by {
                match t {
                    MatchType::PreExisting => {},
                    MatchType::Inside => {},
                    MatchType::BorderNear => {},
                    MatchType::FallbackNearest => {},
                    MatchType::NoMatch => {},
                }
            }
            None
        }
    }

    /// Whether the kind holds whatever the distance (pre-declared or inside).
    pub open spec fn is_strict(self) -> bool {
        self == MatchType::PreExisting || self == MatchType::Inside
    }
}

/// Confidence of a match, from its kind and distance.
pub open spec fn confidence_of(kind: MatchType, distance_mm: u64) -> u32 {
    match kind {
        MatchType::PreExisting => 100,
        MatchType::Inside => 90,
        MatchType::BorderNear => if distance_mm < BORDER_CLOSE_MM {
            80
        } else {
            70
        },
        MatchType::FallbackNearest => 50,
        MatchType::NoMatch => 0,
    }
}

/// One link between an address and a parcel.
#[derive(Debug)]
pub struct MatchOutput {
    pub id_ban: String,
    pub id_parcelle: Option<String>,
    pub match_type: MatchType,
    pub distance_mm: u64,
    pub confidence: u32,
}

/// Whether `m` is the record that `MatchOutput::new` makes from these values.
pub open spec fn is_record(
    m: MatchOutput,
    id_ban: Seq<char>,
    id_parcelle: Option<Seq<char>>,
    distance_mm: u64,
    kind: MatchType,
) -> bool {
    &&& m.id_ban@ == id_ban
    &&& opt_view(m.id_parcelle) == id_parcelle
    &&& m.match_type == kind
    &&& m.distance_mm == distance_mm
    &&& m.confidence == confidence_of(kind, distance_mm)
}

/// The characters of an optional string.
pub open spec fn opt_view(s: Option<String>) -> Option<Seq<char>> {
    match s {
        Some(v) => Some(v@),
        None => None,
    }
}

/// Copies an optional string.
pub fn copy_opt(s: &Option<String>) -> (r: Option<String>)
    ensures
        r == *s,
{
    match s {
        Some(v) => Some(v.clone()),
        None => None,
    }
}

impl MatchOutput {
    /// Builds a record; the confidence follows from the kind and the distance.
    pub fn new(id_ban: String, id_parcelle: Option<String>, distance_mm: u64, match_type: MatchType) -> (r: Self)
        ensures
            is_record(r, id_ban@, opt_view(id_parcelle), distance_mm, match_type),
    {
        let confidence: u32 = match match_type {
            MatchType::PreExisting => 100,
            MatchType::Inside => 90,
            MatchType::BorderNear => {
                if distance_mm < BORDER_CLOSE_MM {
                    80
                } else {
                    70
                }
            },
            MatchType::FallbackNearest => 50,
            MatchType::NoMatch => 0,
        };
        MatchOutput { id_ban, id_parcelle, match_type, distance_mm, confidence }
    }

    /// Whether two records hold the same values.
    pub open spec fn same(self, other: MatchOutput) -> bool {
        &&& self.id_ban@ == other.id_ban@
        &&& opt_view(self.id_parcelle) == opt_view(other.id_parcelle)
        &&& self.match_type == other.match_type
        &&& self.distance_mm == other.distance_mm
        &&& self.confidence == other.confidence
    }

    /// A copy of the record.
    pub fn duplicate(&self) -> (r: Self)
        ensures
            r == *self,
    {
        MatchOutput {
            id_ban: self.id_ban.clone(),
            id_parcelle: copy_opt(&self.id_parcelle),
            match_type: self.match_type,
            distance_mm: self.distance_mm,
            confidence: self.confidence,
        }
    }
}

/// Distances that steer the matcher.
#[derive(Clone, Copy, Debug, PartialEq, Eq, Structural)]
pub struct MatchConfig {
    /// Largest distance of a border match.
    pub address_max_distance_mm: u64,
    /// Largest distance of a fallback match.
    pub fallback_max_distance_mm: u64,
    /// First expansion radius of the fallback search.
    pub fallback_envelope_expand_mm: u64,
}

impl Default for MatchConfig {
    fn default() -> (r: Self)
        ensures
            r.address_max_distance_mm == 50_000,
            r.fallback_max_distance_mm == 1_500_000,
            r.fallback_envelope_expand_mm == 50_000,
    {
        MatchConfig {
            address_max_distance_mm: 50_000,
            fallback_max_distance_mm: 1_500_000,
            fallback_envelope_expand_mm: 50_000,
        }
    }
}

impl MatchConfig {
    /// Expansion radius the fallback search starts from.
    pub open spec fn start_radius(self) -> u64 {
        if self.fallback_envelope_expand_mm < MIN_FALLBACK_EXPAND_MM {
            MIN_FALLBACK_EXPAND_MM
        } else {
            self.fallback_envelope_expand_mm
        }
    }

    /// Expansion radius the fallback search starts from: the configured one,
    /// raised to 5 m when smaller.
    pub fn initial_radius(&self) -> (r: u64)
        ensures
            r == self.start_radius(),
            r >= MIN_FALLBACK_EXPAND_MM,
            r >= self.fallback_envelope_expand_mm,
    {
        if self.fallback_envelope_expand_mm < MIN_FALLBACK_EXPAND_MM {
            MIN_FALLBACK_EXPAND_MM
        } else {
            self.fallback_envelope_expand_mm
        }
    }
}

/// Whether record `a` ranks strictly before record `b`: by kind, then distance,
/// then address id.
pub open spec fn ranks_before(a: MatchOutput, b: MatchOutput) -> bool {
    a.match_type.rank() < b.match_type.rank() || (a.match_type.rank() == b.match_type.rank() && (
    a.distance_mm < b.distance_mm || (a.distance_mm == b.distance_mm
        && crate::text::seq_less(a.id_ban@, b.id_ban@))))
}

/// The order of `ranks_before` is transitive.
pub proof fn lemma_ranks_transitive(a: MatchOutput, b: MatchOutput, c: MatchOutput)
    requires
        ranks_before(a, b),
        ranks_before(b, c),
    ensures
        ranks_before(a, c),
{
    if a.match_type.rank() == b.match_type.rank() && b.match_type.rank() == c.match_type.rank()
        && a.distance_mm == b.distance_mm && b.distance_mm == c.distance_mm {
        crate::text::lemma_seq_less_transitive(a.id_ban@, b.id_ban@, c.id_ban@);
    }
}

/// Whether record `a` ranks strictly before record `b`: by kind, then distance,
/// then address id.
pub fn ranks_first(a: &MatchOutput, b: &MatchOutput) -> (r: bool)
    ensures
        r == ranks_before(*a, *b),
{
    let pa = a.match_type.priority();
    let pb = b.match_type.priority();
    if pa != pb {
        pa < pb
    } else if a.distance_mm != b.distance_mm {
        a.distance_mm < b.distance_mm
    } else {
        crate::text::str_less(a.id_ban.as_str(), b.id_ban.as_str())
    }
}

} // verus!
