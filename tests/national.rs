use ban_cadastre::national::{commune_row, national_precision, national_tiers, worst_communes, CommuneRow, TierRow};
use ban_cadastre::text::{is_white, trimmed_bounds};

fn tier(t: u64, total: u64, matched: u64) -> TierRow {
    TierRow { threshold_mm: t, total_parcels: total, matched_parcels: matched }
}

fn commune(code: &str, total: u64, matched: u64) -> CommuneRow {
    CommuneRow { code_insee: code.to_string(), total_parcels: total, matched_parcels: matched }
}

#[test]
fn tiers_sum_per_threshold_in_order() {
    let rows = vec![tier(50_000, 10, 7), tier(5_000, 10, 2), tier(50_000, 4, 4), tier(5_000, 4, 1)];
    let out = national_tiers(&rows).unwrap();
    assert_eq!(out, vec![tier(5_000, 14, 3), tier(50_000, 14, 11)]);
    assert_eq!(national_tiers(&Vec::new()), Some(Vec::new()));
}

#[test]
fn tiers_overflow_is_refused() {
    let rows = vec![tier(5_000, u64::MAX, 0), tier(5_000, 1, 0)];
    assert_eq!(national_tiers(&rows), None);
    let fine = vec![tier(5_000, u64::MAX, 0), tier(50_000, 1, 0)];
    assert!(national_tiers(&fine).is_some());
}

#[test]
fn precision_sums_per_bin_by_descending_count() {
    let rows = vec![(3u32, 5u64), (1, 2), (3, 1), (13, 6), (1, 4)];
    let out = national_precision(&rows).unwrap();
    assert_eq!(out, vec![(1, 6), (3, 6), (13, 6)]);
    assert_eq!(out.len(), 3);
    assert!(out.windows(2).all(|w| w[0].1 >= w[1].1));
    let rows2 = vec![(2u32, 1u64), (5, 9), (2, 3)];
    assert_eq!(national_precision(&rows2).unwrap(), vec![(5, 9), (2, 4)]);
    assert_eq!(national_precision(&vec![(1u32, u64::MAX), (1, 1)]), None);
}

#[test]
fn worst_communes_keep_lowest_coverage() {
    let rows = vec![
        commune("A", 10, 9),
        commune("B", 10, 1),
        commune("C", 4, 2),
        commune("D", 20, 2),
        commune("E", 2, 2),
    ];
    let worst = worst_communes(&rows, 3);
    let codes: Vec<&str> = worst.iter().map(|c| c.code_insee.as_str()).collect();
    // 2/20 and 1/10 tie: more parcels first
    assert_eq!(codes, vec!["D", "B", "C"]);
    assert_eq!(worst_communes(&rows, 0).len(), 0);
    assert_eq!(worst_communes(&rows, 10).len(), 5);
    assert_eq!(worst_communes(&rows, 10)[4].code_insee, "E");
}

#[test]
fn whitespace_matches_std() {
    for u in 0u32..0x3100 {
        if let Some(c) = char::from_u32(u) {
            assert_eq!(is_white(c), c.is_whitespace(), "U+{:04X}", u);
        }
    }
    assert!(is_white('\u{3000}'));
    assert!(!is_white('x'));
    assert_eq!(trimmed_bounds("\u{a0}P1\u{2003}", 0, 4), (1, 3));
}

#[test]
fn commune_rows_count_accepted_parcels() {
    let r = commune_row("75056".to_string(), &vec![true, false, true]);
    assert_eq!(r.code_insee, "75056");
    assert_eq!(r.total_parcels, 3);
    assert_eq!(r.matched_parcels, 2);
}
