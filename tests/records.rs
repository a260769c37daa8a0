use ban_cadastre::records::{ranks_first, MatchConfig, MatchOutput, MatchType};
use ban_cadastre::sql::sql_path;
use ban_cadastre::text::{str_eq, str_less, trimmed_bounds};

#[test]
fn confidence_follows_kind_and_distance() {
    let mk = |t: MatchType, d: u64| MatchOutput::new("a".to_string(), None, d, t).confidence;
    assert_eq!(mk(MatchType::PreExisting, 0), 100);
    assert_eq!(mk(MatchType::Inside, 0), 90);
    assert_eq!(mk(MatchType::BorderNear, 4_999), 80);
    assert_eq!(mk(MatchType::BorderNear, 5_000), 70);
    assert_eq!(mk(MatchType::FallbackNearest, 12), 50);
    assert_eq!(mk(MatchType::NoMatch, 12), 0);
}

#[test]
fn kinds_have_names_and_priorities() {
    let all = [
        MatchType::PreExisting,
        MatchType::Inside,
        MatchType::BorderNear,
        MatchType::FallbackNearest,
        MatchType::NoMatch,
    ];
    let names: Vec<&str> = all.iter().map(|t| t.as_str()).collect();
    assert_eq!(names, vec!["PreExisting", "Inside", "BorderNear", "FallbackNearest", "None"]);
    let prios: Vec<u32> = all.iter().map(|t| t.priority()).collect();
    assert_eq!(prios, vec![0, 1, 2, 3, 100]);
    for t in all {
        assert_eq!(MatchType::from_name(t.as_str()), Some(t));
    }
    assert_eq!(MatchType::from_name("inside"), None);
    assert_eq!(MatchType::from_name(""), None);
}

#[test]
fn default_config_and_expansion_floor() {
    let c = MatchConfig::default();
    assert_eq!(c.address_max_distance_mm, 50_000);
    assert_eq!(c.fallback_max_distance_mm, 1_500_000);
    assert_eq!(c.fallback_envelope_expand_mm, 50_000);
    assert_eq!(c.initial_radius(), 50_000);
    let small = MatchConfig { fallback_envelope_expand_mm: 4_999, ..c };
    assert_eq!(small.initial_radius(), 5_000);
    let zero = MatchConfig { fallback_envelope_expand_mm: 0, ..c };
    assert_eq!(zero.initial_radius(), 5_000);
}

#[test]
fn ranking_by_kind_distance_then_id() {
    let a = MatchOutput::new("b".to_string(), None, 10, MatchType::Inside);
    let b = MatchOutput::new("a".to_string(), None, 1, MatchType::BorderNear);
    assert!(ranks_first(&a, &b));
    assert!(!ranks_first(&b, &a));
    let c = MatchOutput::new("z".to_string(), None, 1_000, MatchType::BorderNear);
    assert!(ranks_first(&b, &c));
    let d = MatchOutput::new("y".to_string(), None, 1_000, MatchType::BorderNear);
    assert!(ranks_first(&d, &c));
    assert!(!ranks_first(&c, &c));
}

#[test]
fn string_order_and_equality() {
    assert!(str_less("a1", "a2"));
    assert!(str_less("a", "ab"));
    assert!(!str_less("ab", "a"));
    assert!(!str_less("x", "x"));
    assert!(str_less("", "x"));
    assert!(str_eq("P1", "P1"));
    assert!(!str_eq("P1", "P10"));
    assert_eq!(trimmed_bounds("  ab c ", 0, 7), (2, 6));
    assert_eq!(trimmed_bounds("   ", 0, 3).0, trimmed_bounds("   ", 0, 3).1);
}

#[test]
fn sql_paths_are_quoted() {
    assert_eq!(sql_path("C:\\data\\o'brien.parquet"), "C:/data/o''brien.parquet");
    assert_eq!(sql_path("/tmp/plain"), "/tmp/plain");
    assert_eq!(sql_path(""), "");
}
