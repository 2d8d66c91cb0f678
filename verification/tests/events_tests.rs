use evosim::events::{Event, EventKind, EventLog, EVENT_RING_CAP_DEFAULT};
use evosim::save::{
    check_schema_version, event_log_snapshot, rehydrate_event_log, validate_soa_lengths,
    LoadError, SCHEMA_VERSION,
};

fn milestone(tick: u32) -> Event {
    Event { tick, kind: EventKind::PopulationMilestone { population: tick } }
}

#[test]
fn ring_keeps_the_last_entries() {
    let mut log = EventLog::new();
    assert_eq!(log.ring_cap, EVENT_RING_CAP_DEFAULT);
    for t in 0..250u32 {
        log.push(milestone(t));
    }
    assert_eq!(log.all.len(), 250);
    assert_eq!(log.recent.len(), 200);
    assert_eq!(log.recent.front().unwrap().tick, 50);
    assert_eq!(log.recent.back().unwrap().tick, 249);
}

#[test]
fn full_event_log_round_trips() {
    let mut log = EventLog::new();
    log.ring_cap = 3;
    for t in 0..5u32 {
        log.push(milestone(t));
    }
    log.push(Event {
        tick: 9,
        kind: EventKind::Extinction { species_id: 2, species_name: "Lineage A1".to_string() },
    });
    let snap = event_log_snapshot(&log);
    let back = rehydrate_event_log(snap);
    assert_eq!(back.all.len(), log.all.len());
    assert_eq!(back.ring_cap, 3);
    let ticks: Vec<u32> = back.recent.iter().map(|e| e.tick).collect();
    assert_eq!(ticks, vec![3, 4, 9]);
    assert_eq!(back.all.last().map(|e| e.tick), log.all.last().map(|e| e.tick));
}

#[test]
fn schema_version_mismatch_errs() {
    assert!(check_schema_version(SCHEMA_VERSION).is_ok());
    match check_schema_version(999) {
        Err(LoadError::SchemaVersionMismatch { found: 999, expected: 1 }) => {}
        _ => panic!("expected SchemaVersionMismatch"),
    }
    let msg = check_schema_version(999).unwrap_err().message();
    assert_eq!(msg, "schema version mismatch: found 999, expected 1");
}

#[test]
fn soa_length_mismatch_fails() {
    assert_eq!(validate_soa_lengths(3, &[("x", 3), ("y", 3)]).unwrap(), 3);
    let r = validate_soa_lengths(3, &[("x", 2), ("y", 1)]);
    match r {
        Err(LoadError::StructuralError(m)) => {
            assert_eq!(m, "column 'x' len 2 != id len 3");
        }
        _ => panic!("expected StructuralError"),
    }
}

#[test]
fn invalid_json_message_has_prefix() {
    let e = serde_json::from_str::<u32>("not valid json {{}}").unwrap_err();
    let text = e.to_string();
    let msg = LoadError::InvalidJson(text.clone()).message();
    assert!(msg.starts_with("invalid json: "));
    assert_eq!(msg, format!("invalid json: {text}"));
    assert_eq!(LoadError::InvalidJson("eof".to_string()).message(), "invalid json: eof");
}

#[test]
fn structural_error_message() {
    assert_eq!(
        LoadError::StructuralError("bad".to_string()).message(),
        "structural error: bad"
    );
}
