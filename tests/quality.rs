use ban_cadastre::analysis::{
    check_row, department_of_line, exit_status, AnalysisTally, ManifestRow,
};
use ban_cadastre::quality::{
    address_bin, best_record, is_exported, has_record_within, precision_bin, precision_label, tier_threshold,
    worse_coverage, AddressQa, ParcelQa,
};
use ban_cadastre::records::{MatchOutput, MatchType};

fn rec(addr: &str, parcel: &str, d: u64, t: MatchType) -> MatchOutput {
    MatchOutput::new(addr.to_string(), Some(parcel.to_string()), d, t)
}

fn row(d: Option<&str>, r: Option<&str>, n: Option<&str>) -> ManifestRow {
    ManifestRow {
        dept: d.map(|s| s.to_string()),
        region: r.map(|s| s.to_string()),
        nom: n.map(|s| s.to_string()),
    }
}

#[test]
fn precision_bins_and_labels() {
    assert_eq!(precision_bin(0), 1);
    assert_eq!(precision_bin(1_000), 1);
    assert_eq!(precision_bin(1_001), 2);
    assert_eq!(precision_bin(5_000), 3);
    assert_eq!(precision_bin(49_999), 7);
    assert_eq!(precision_bin(1_500_000), 12);
    assert_eq!(precision_bin(1_500_001), 13);
    assert_eq!(precision_label(1), "0-1");
    assert_eq!(precision_label(7), "25-50");
    assert_eq!(precision_label(13), ">1500");
    assert_eq!(address_bin(5_000), 1);
    assert_eq!(address_bin(5_001), 2);
    assert_eq!(address_bin(50_000), 3);
    assert_eq!(address_bin(50_001), 4);
    let tiers: Vec<u64> = (0..7).map(tier_threshold).collect();
    assert_eq!(tiers, vec![5_000, 50_000, 100_000, 250_000, 500_000, 1_000_000, 1_500_000]);
}

#[test]
fn best_record_prefers_kind_then_distance_then_id() {
    let g = vec![
        rec("a3", "P1", 40_000, MatchType::FallbackNearest),
        rec("a2", "P1", 3_000, MatchType::BorderNear),
        rec("a1", "P1", 3_000, MatchType::BorderNear),
        rec("a0", "P1", 9_000, MatchType::BorderNear),
    ];
    assert_eq!(best_record(&g), Some(2));
    assert_eq!(best_record(&Vec::new()), None);
    assert!(has_record_within(&g, 3_000));
    assert!(!has_record_within(&g, 2_999));
    let strict = vec![rec("a5", "P2", 0, MatchType::Inside)];
    assert!(has_record_within(&strict, 0));
}

#[test]
fn parcel_tally_counts_tiers_bins_and_best() {
    let mut qa = ParcelQa::new();
    qa.add_group(&vec![rec("a1", "P1", 0, MatchType::Inside), rec("a2", "P1", 2_000, MatchType::BorderNear)]);
    qa.add_group(&vec![rec("a3", "P2", 7_000, MatchType::BorderNear)]);
    qa.add_group(&vec![rec("a4", "P3", 1_600_000, MatchType::FallbackNearest)]);
    assert_eq!(qa.groups, 3);
    assert_eq!(qa.tier_matched, vec![1, 2, 2, 2, 2, 2, 2]);
    let mut expected_bins = vec![0u64; 13];
    expected_bins[3] = 1; // 5-10 m
    expected_bins[12] = 1; // beyond 1500 m
    assert_eq!(qa.precision, expected_bins);
    assert_eq!(qa.best_any, 3);
    assert_eq!(qa.best_accepted, 2);
    assert_eq!(qa.confidence_any, 90 + 70 + 50);
    assert_eq!(qa.confidence_accepted, 90 + 70);
    assert_eq!(qa.by_kind, vec![0, 1, 1, 1, 0]);
}

#[test]
fn address_tally_counts_unmatched_as_none() {
    let mut qa = AddressQa::new();
    qa.add_address(&vec![rec("a1", "P1", 12_000, MatchType::BorderNear), rec("a1", "P2", 0, MatchType::PreExisting)]);
    qa.add_address(&Vec::new());
    qa.add_address(&vec![rec("a3", "P3", 60_000, MatchType::FallbackNearest)]);
    assert_eq!(qa.addresses, 3);
    assert_eq!(qa.matched, 2);
    assert_eq!(qa.by_kind, vec![1, 0, 0, 1, 1]);
    assert_eq!(qa.by_bin, vec![1, 0, 0, 1]);
    assert_eq!(qa.confidence, 150);
}

#[test]
fn worst_communes_order() {
    // 1/4 is worse than 1/2
    assert!(worse_coverage(1, 4, 1, 2));
    assert!(!worse_coverage(1, 2, 1, 4));
    // equal coverage: more parcels first
    assert!(worse_coverage(2, 4, 1, 2));
    assert!(!worse_coverage(1, 2, 2, 4));
}

#[test]
fn manifest_rows_and_lines() {
    let e = check_row(&row(Some(" 75 "), Some("IDF"), Some("Paris"))).unwrap();
    assert_eq!(e.dept, "75");
    assert!(check_row(&row(Some("75"), Some("  "), Some("Paris"))).is_none());
    assert!(check_row(&row(Some("75"), Some("IDF"), None)).is_none());
    assert_eq!(department_of_line(" 2A ,Corse,x"), Some("2A".to_string()));
    assert_eq!(department_of_line("dept,region,nom"), None);
    assert_eq!(department_of_line("code_insee"), None);
    assert_eq!(department_of_line(" ,x"), None);
    assert_eq!(department_of_line("01"), Some("01".to_string()));
}

#[test]
fn analysis_with_missing_matches_is_partial() {
    let rows = vec![
        row(Some("01"), Some("ARA"), Some("Ain")),
        row(Some("02"), Some("HDF"), Some("Aisne")),
        row(Some("03"), Some("ARA"), Some("Allier")),
    ];
    let mut tally = AnalysisTally::new();
    let mut qa = ParcelQa::new();
    qa.add_group(&vec![rec("a1", "P1", 0, MatchType::Inside)]);
    for (i, r) in rows.iter().enumerate() {
        let e = tally.take_row(i as u64 + 1, r).unwrap();
        if e.dept == "02" {
            tally.skip_missing_matches(&e.dept);
        } else {
            assert!(tally.can_add(10, &qa));
            tally.add_department(&e.region, 10, &qa);
        }
    }
    assert_eq!(tally.skipped_missing_matches, 1);
    assert_eq!(tally.analyzed_departments, 2);
    assert_eq!(tally.expected_departments, 3);
    assert_eq!(tally.national.total_parcels, 20);
    assert_eq!(tally.national.matched, 2);
    assert_eq!(tally.regions.len(), 1);
    assert_eq!(tally.regions[0].name, "ARA");
    assert_eq!(tally.regions[0].totals.confidence_sum, 180);
    let out = tally.outcome("out".to_string());
    assert!(out.partial);
    assert_eq!(exit_status(out.partial, true), 2);
    assert_eq!(exit_status(out.partial, false), 0);
    assert_eq!(exit_status(false, true), 0);
}

#[test]
fn invalid_manifest_rows_are_numbered() {
    let mut tally = AnalysisTally::new();
    assert!(tally.take_row(1, &row(Some("01"), Some("ARA"), Some("Ain"))).is_some());
    assert!(tally.take_row(2, &row(None, Some("ARA"), Some("Ain"))).is_none());
    assert!(tally.take_row(3, &row(Some("03"), Some(""), Some("Allier"))).is_none());
    assert_eq!(tally.invalid_manifest_rows, 2);
    assert_eq!(tally.invalid_manifest_row_numbers, vec![2, 3]);
    assert_eq!(tally.manifest_rows_total, 3);
    assert_eq!(tally.expected_departments, 1);
    assert!(tally.outcome(String::new()).partial);
}

#[test]
fn exported_records_name_a_parcel() {
    assert!(is_exported(&rec("a1", "P1", 0, MatchType::Inside)));
    assert!(!is_exported(&MatchOutput::new("a1".to_string(), None, 0, MatchType::Inside)));
    assert!(!is_exported(&rec("a1", "P1", 0, MatchType::NoMatch)));
}

#[test]
fn totals_refuse_overflow() {
    let mut tally = AnalysisTally::new();
    tally.take_row(1, &row(Some("01"), Some("ARA"), Some("Ain")));
    let qa = ParcelQa::new();
    assert!(tally.can_add(u64::MAX, &qa));
    tally.add_department(&"ARA".to_string(), u64::MAX, &qa);
    tally.take_row(2, &row(Some("02"), Some("ARA"), Some("Aisne")));
    assert!(!tally.can_add(1, &qa));
}
