use ban_cadastre::directory::{group_by_key, hash_of};
use ban_cadastre::links::{build_preexisting_map, normalize_link, split_links, split_list, AddressInput};
use ban_cadastre::matcher::{
    concat_stages, inside_matches, unmatched_parcels, BorderSearch, Candidate, FallbackSearch, Visit,
};
use ban_cadastre::records::{MatchConfig, MatchOutput, MatchType};

fn address(id: &str, link: Option<&str>) -> AddressInput {
    AddressInput {
        id: id.to_string(),
        code_insee: "75056".to_string(),
        existing_link: link.map(|s| s.to_string()),
    }
}

fn ids(v: &[&str]) -> Vec<String> {
    v.iter().map(|s| s.to_string()).collect()
}

#[test]
fn square_parcel_with_address_inside() {
    let addresses = vec![address("a1", None)];
    let parcels = ids(&["P1"]);
    let pre = build_preexisting_map(&addresses, &parcels);
    assert_eq!(pre.len(), 1);
    assert!(pre[0].is_empty());
    // The address at (5,5) lies inside [(0,0),(10,0),(10,10),(0,10)].
    let cands = vec![Candidate { index: 0, distance_mm: Some(0) }];
    let stage1 = vec![inside_matches(&parcels[0], &pre[0], &addresses, &cands)];
    assert_eq!(stage1[0].len(), 1);
    let m = &stage1[0][0];
    assert_eq!(m.id_ban, "a1");
    assert_eq!(m.id_parcelle.as_deref(), Some("P1"));
    assert_eq!(m.match_type, MatchType::Inside);
    assert_eq!(m.distance_mm, 0);
    assert_eq!(m.confidence, 90);

    let mut border = BorderSearch::new(MatchConfig::default().address_max_distance_mm);
    assert!(border.within_reach(0));
    border.offer(0, Some(0));
    assert!(border.best.is_none());
    let stage2 = vec![border.into_record(&addresses[0].id, &parcels)];
    let chosen: Vec<Option<usize>> = vec![None];
    assert!(unmatched_parcels(&stage1, &chosen).is_empty());
    let all = concat_stages(&stage1, &stage2, &Vec::new());
    assert_eq!(all.len(), 1);
    assert_eq!(all[0].match_type, MatchType::Inside);
}

#[test]
fn address_on_vertex_is_inside() {
    let addresses = vec![address("a1", None)];
    let parcels = ids(&["P1"]);
    let cands = vec![Candidate { index: 0, distance_mm: Some(0) }];
    let out = inside_matches(&parcels[0], &Vec::new(), &addresses, &cands);
    assert_eq!(out.len(), 1);
    assert_eq!(out[0].match_type, MatchType::Inside);
    // one centimetre is still inside, beyond it is not
    let edge = vec![Candidate { index: 0, distance_mm: Some(10) }];
    assert_eq!(inside_matches(&parcels[0], &Vec::new(), &addresses, &edge).len(), 1);
    let outside = vec![Candidate { index: 0, distance_mm: Some(11) }, Candidate { index: 0, distance_mm: None }];
    assert!(inside_matches(&parcels[0], &Vec::new(), &addresses, &outside).is_empty());
}

#[test]
fn border_match_within_threshold() {
    // address at (12,5), two metres from the parcel's right edge
    let addresses = vec![address("a1", None)];
    let parcels = ids(&["P1"]);
    let mut border = BorderSearch::new(5_000);
    assert!(border.within_reach(2_000u128 * 2_000u128));
    border.offer(0, Some(2_000));
    let rec = border.into_record(&addresses[0].id, &parcels).unwrap();
    assert_eq!(rec.match_type, MatchType::BorderNear);
    assert_eq!(rec.distance_mm, 2_000);
    assert_eq!(rec.confidence, 80);
    assert_eq!(rec.id_parcelle.as_deref(), Some("P1"));
    let stage1: Vec<Vec<MatchOutput>> = vec![Vec::new()];
    let chosen = vec![Some(0usize)];
    // the parcel now has a match: the fallback stage skips it
    assert!(unmatched_parcels(&stage1, &chosen).is_empty());
}

#[test]
fn border_confidence_drops_beyond_five_metres() {
    let addresses = vec![address("a1", None)];
    let parcels = ids(&["P1"]);
    let mut border = BorderSearch::new(50_000);
    border.offer(0, Some(7_500));
    let rec = border.into_record(&addresses[0].id, &parcels).unwrap();
    assert_eq!(rec.confidence, 70);
    assert_eq!(rec.distance_mm, 7_500);
}

#[test]
fn fallback_when_border_threshold_too_small() {
    let addresses = vec![address("a1", None)];
    let parcels = ids(&["P1"]);
    let border = BorderSearch::new(1_000);
    assert!(!border.within_reach(2_000u128 * 2_000u128));
    assert!(border.into_record(&addresses[0].id, &parcels).is_none());
    let stage1: Vec<Vec<MatchOutput>> = vec![Vec::new()];
    let chosen: Vec<Option<usize>> = vec![None];
    assert_eq!(unmatched_parcels(&stage1, &chosen), vec![0]);

    let config = MatchConfig { address_max_distance_mm: 1_000, ..MatchConfig::default() };
    let mut search = FallbackSearch::new(&config);
    assert!(search.active());
    assert_eq!(search.radius_mm, 50_000);
    assert_eq!(search.visit(0, 2_000), Visit::Measure);
    search.offer(0, &addresses[0].id, Some(2_000));
    assert!(!search.end_round());
    assert!(!search.active());
    let rec = search.into_record(&parcels[0]).unwrap();
    assert_eq!(rec.id_ban, "a1");
    assert_eq!(rec.match_type, MatchType::FallbackNearest);
    assert_eq!(rec.distance_mm, 2_000);
    assert_eq!(rec.confidence, 50);
}

#[test]
fn preexisting_link_to_known_parcel_only() {
    let addresses = vec![address("a1", Some("P1;P2"))];
    let parcels = ids(&["P1"]);
    let pre = build_preexisting_map(&addresses, &parcels);
    assert_eq!(pre.len(), 1);
    assert_eq!(pre[0].len(), 1);
    let m = &pre[0][0];
    assert_eq!(m.id_ban, "a1");
    assert_eq!(m.id_parcelle.as_deref(), Some("P1"));
    assert_eq!(m.match_type, MatchType::PreExisting);
    assert_eq!(m.distance_mm, 0);
    assert_eq!(m.confidence, 100);
}

#[test]
fn repeated_link_gives_one_record() {
    let addresses = vec![address("a", Some("P1;P1"))];
    let pre = build_preexisting_map(&addresses, &ids(&["P1"]));
    assert_eq!(pre[0].len(), 1);
    assert_eq!(pre[0][0].match_type, MatchType::PreExisting);
}

#[test]
fn preexisting_record_keeps_address_out_of_inside() {
    let addresses = vec![address("a1", Some(" P1 | P9 ,")), address("a2", None)];
    let parcels = ids(&["P1", "P2"]);
    let pre = build_preexisting_map(&addresses, &parcels);
    assert_eq!(pre[0].len(), 1);
    assert!(pre[1].is_empty());
    let cands = vec![
        Candidate { index: 0, distance_mm: Some(0) },
        Candidate { index: 1, distance_mm: Some(3) },
    ];
    let out = inside_matches(&parcels[0], &pre[0], &addresses, &cands);
    assert_eq!(out.len(), 2);
    assert_eq!(out[0].match_type, MatchType::PreExisting);
    assert_eq!(out[1].id_ban, "a2");
    assert_eq!(out[1].match_type, MatchType::Inside);
}

#[test]
fn equidistant_parcels_and_addresses_break_ties() {
    let parcels = ids(&["P1", "P2"]);
    let mut border = BorderSearch::new(50_000);
    border.offer(0, Some(3_000));
    border.offer(1, Some(3_000));
    assert_eq!(border.best, Some((0, 3_000)));
    let rec = border.into_record(&"a1".to_string(), &parcels).unwrap();
    assert_eq!(rec.id_parcelle.as_deref(), Some("P1"));

    let mut search = FallbackSearch::new(&MatchConfig::default());
    assert_eq!(search.visit(7, 3_000), Visit::Measure);
    search.offer(7, &"a2".to_string(), Some(3_000));
    assert_eq!(search.visit(7, 3_000), Visit::Seen);
    assert_eq!(search.visit(4, 3_001), Visit::Pruned);
    assert_eq!(search.visit(5, 2_000), Visit::Measure);
    search.offer(5, &"a1".to_string(), Some(3_000));
    assert_eq!(search.best, Some((5, 3_000)));
    assert_eq!(search.best_id, "a1");
    search.offer(6, &"a3".to_string(), Some(3_000));
    assert_eq!(search.best_id, "a1");
}

#[test]
fn fallback_expansion_grows_then_closes() {
    let config = MatchConfig {
        address_max_distance_mm: 50_000,
        fallback_max_distance_mm: 1_500_000,
        fallback_envelope_expand_mm: 1_000,
    };
    let mut search = FallbackSearch::new(&config);
    // the initial radius is raised to five metres
    assert_eq!(search.radius_mm, 5_000);
    // nothing in the first window: the radius doubles
    assert!(search.end_round());
    assert_eq!(search.radius_mm, 10_000);
    // an address at 30 m: the next round closes at its distance
    assert_eq!(search.visit(0, 25_000), Visit::Measure);
    search.offer(0, &"a1".to_string(), Some(30_000));
    assert!(search.end_round());
    assert_eq!(search.radius_mm, 30_000);
    assert!(!search.end_round());
    // beyond the ceiling nothing is kept
    search.offer(1, &"a0".to_string(), Some(1_600_000));
    assert_eq!(search.best_id, "a1");
}

#[test]
fn fallback_with_no_address_stops_at_ceiling() {
    let config = MatchConfig {
        address_max_distance_mm: 50_000,
        fallback_max_distance_mm: 100_000,
        fallback_envelope_expand_mm: 50_000,
    };
    let mut search = FallbackSearch::new(&config);
    assert!(search.end_round());
    assert_eq!(search.radius_mm, 100_000);
    assert!(!search.end_round());
    assert!(search.into_record(&"P1".to_string()).is_none());
}

#[test]
fn fallback_inside_distance_becomes_inside() {
    let mut search = FallbackSearch::new(&MatchConfig::default());
    assert_eq!(search.visit(3, 0), Visit::Measure);
    search.offer(3, &"a9".to_string(), Some(5));
    let rec = search.into_record(&"P4".to_string()).unwrap();
    assert_eq!(rec.match_type, MatchType::Inside);
    assert_eq!(rec.distance_mm, 0);
    assert_eq!(rec.confidence, 90);
}

#[test]
fn empty_address_slice_gives_no_records() {
    let addresses: Vec<AddressInput> = Vec::new();
    let parcels = ids(&["P1", "P2"]);
    let pre = build_preexisting_map(&addresses, &parcels);
    let stage1: Vec<Vec<MatchOutput>> = parcels
        .iter()
        .enumerate()
        .map(|(j, p)| inside_matches(p, &pre[j], &addresses, &Vec::new()))
        .collect();
    let unmatched = unmatched_parcels(&stage1, &Vec::new());
    assert_eq!(unmatched, vec![0, 1]);
    let stage3: Vec<Option<MatchOutput>> = unmatched
        .iter()
        .map(|&j| {
            let mut s = FallbackSearch::new(&MatchConfig::default());
            while s.active() {
                if !s.end_round() {
                    break;
                }
            }
            s.into_record(&parcels[j])
        })
        .collect();
    let all = concat_stages(&stage1, &Vec::new(), &stage3);
    assert!(all.is_empty());
}

#[test]
fn stages_concatenate_in_order() {
    let pre = MatchOutput::new("a1".to_string(), Some("P1".to_string()), 0, MatchType::PreExisting);
    let b = MatchOutput::new("a2".to_string(), Some("P2".to_string()), 4_000, MatchType::BorderNear);
    let f = MatchOutput::new("a3".to_string(), Some("P3".to_string()), 90_000, MatchType::FallbackNearest);
    let all = concat_stages(&vec![vec![pre], vec![]], &vec![None, Some(b)], &vec![Some(f)]);
    let names: Vec<&str> = all.iter().map(|m| m.id_ban.as_str()).collect();
    assert_eq!(names, vec!["a1", "a2", "a3"]);
}

#[test]
fn unmatched_parcels_ignore_chosen_and_inside() {
    let inside = MatchOutput::new("a1".to_string(), Some("P0".to_string()), 0, MatchType::Inside);
    let stage1 = vec![vec![inside], vec![], vec![], vec![]];
    let chosen = vec![Some(2usize), None, Some(2usize)];
    assert_eq!(unmatched_parcels(&stage1, &chosen), vec![1, 3]);
}

#[test]
fn link_lists_split_and_trim() {
    assert_eq!(split_links("P1;P2"), vec!["P1", "P2"]);
    assert_eq!(split_links(" P1 | ,P2,, P3 "), vec!["P1", "P2", "P3"]);
    assert!(split_links("").is_empty());
    assert!(split_links(" ;|, ").is_empty());
    assert_eq!(split_list("01, 2A ,,75"), vec!["01", "2A", "75"]);
    assert_eq!(split_list("a;b"), vec!["a;b"]);
}

#[test]
fn link_values_blank_or_null_are_absent() {
    assert_eq!(normalize_link(&Some("  P1;P2 ".to_string())), Some("P1;P2".to_string()));
    assert_eq!(normalize_link(&Some("   ".to_string())), None);
    assert_eq!(normalize_link(&Some("NuLL".to_string())), None);
    assert_eq!(normalize_link(&Some(" null ".to_string())), None);
    assert_eq!(normalize_link(&Some("nulls".to_string())), Some("nulls".to_string()));
    assert_eq!(normalize_link(&None), None);
}

#[test]
fn repeated_ids_and_repeated_links() {
    let addresses = vec![address("a1", Some("P1;P1")), address("a2", Some("P3|P1"))];
    let parcels = ids(&["P1", "P2", "P1"]);
    let pre = build_preexisting_map(&addresses, &parcels);
    let names = |j: usize| pre[j].iter().map(|m| m.id_ban.clone()).collect::<Vec<String>>();
    assert_eq!(names(0), vec!["a1", "a2"]);
    assert!(names(1).is_empty());
    assert_eq!(names(2), vec!["a1", "a2"]);
    assert!(pre[2].iter().all(|m| m.id_parcelle.as_deref() == Some("P1")));
}

#[test]
fn keys_group_by_equality() {
    let keys = ids(&["P1", "P2", "P1", "P3", "P2", "P1"]);
    let groups = group_by_key(&keys);
    assert_eq!(groups, vec![vec![0, 2, 5], vec![1, 4], vec![3]]);
    assert!(group_by_key(&Vec::new()).is_empty());
    assert_eq!(hash_of(""), 0);
    assert_ne!(hash_of("P1"), hash_of("P2"));
}
