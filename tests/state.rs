use ban_cadastre::outcome::{AggregateOutcome, PipelineOutcome, RecordBuffer};
use ban_cadastre::records::{MatchOutput, MatchType};
use ban_cadastre::state::BatchState;

#[test]
fn completed_then_failed_then_completed() {
    let mut s = BatchState::new();
    assert!(!s.started_at.is_empty());
    assert!(!s.is_completed("01"));
    s.mark_completed("01");
    s.mark_completed("01");
    assert!(s.is_completed("01"));
    assert_eq!(s.completed.len(), 1);
    s.mark_failed("01", "boom".to_string());
    assert!(!s.is_completed("01"));
    assert_eq!(s.failed.len(), 1);
    assert_eq!(s.failed[0].dept, "01");
    assert_eq!(s.failed[0].error, "boom");
    s.mark_failed("01", "again".to_string());
    assert_eq!(s.failed.len(), 1);
    assert_eq!(s.failed[0].error, "again");
    s.mark_failed("02", "x".to_string());
    assert_eq!(s.failed.len(), 2);
    s.mark_completed("01");
    assert!(s.is_completed("01"));
    assert_eq!(s.failed.len(), 1);
    assert_eq!(s.failed[0].dept, "02");
}

#[test]
fn pipeline_outcome_is_partial_on_failure() {
    let mut s = BatchState::new();
    s.mark_completed("01");
    let ok = PipelineOutcome::summarize(1, &s, false, "st".to_string(), "out".to_string());
    assert!(!ok.partial);
    assert_eq!(ok.completed_departments, 1);
    s.mark_failed("02", "e".to_string());
    let bad = PipelineOutcome::summarize(2, &s, false, "st".to_string(), "out".to_string());
    assert!(bad.partial);
    assert_eq!(bad.failed_departments, 1);
    let agg = PipelineOutcome::summarize(1, &BatchState::new(), true, String::new(), String::new());
    assert!(agg.partial);
}

#[test]
fn aggregate_outcome_partial_when_inputs_missing() {
    let mut a = AggregateOutcome::new();
    a.record_generated("national_qa_precision.csv".to_string());
    assert!(!a.partial);
    a.record_missing("qa_distance_tiers_*.csv".to_string());
    assert!(a.partial);
    assert_eq!(a.missing_inputs, vec!["qa_distance_tiers_*.csv"]);
    assert_eq!(a.generated.len(), 1);
}

fn rec(id: &str) -> MatchOutput {
    MatchOutput::new(id.to_string(), None, 0, MatchType::Inside)
}

#[test]
fn record_buffer_flushes_full_batches() {
    let mut b = RecordBuffer::new(2);
    assert!(b.push(rec("a")).is_none());
    let batch = b.push(rec("b")).unwrap();
    assert_eq!(batch.iter().map(|m| m.id_ban.as_str()).collect::<Vec<_>>(), vec!["a", "b"]);
    assert!(b.records.is_empty());
    assert!(b.push(rec("c")).is_none());
    let rest = b.take_all();
    assert_eq!(rest.len(), 1);
    assert!(b.take_all().is_empty());
    let mut every = RecordBuffer::new(0);
    assert_eq!(every.push(rec("d")).unwrap().len(), 1);
}
