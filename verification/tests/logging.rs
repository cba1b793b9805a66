use stencil::logging::{log_discard, log_message, split_lines, Level, LogRecord, MAXIMUM_TRACE_LINE_SIZE};

fn said(log: &[LogRecord]) -> Vec<(Level, &str)> {
    log.iter().map(|r| (r.level, r.message.as_str())).collect()
}

#[test]
fn short_messages_are_logged_as_they_are() {
    assert_eq!(said(&log_message(false, Some("text".to_string()))), vec![(Level::Warn, "text")]);
    assert_eq!(said(&log_message(false, None)), vec![]);
    assert_eq!(said(&log_message(true, None)), vec![]);
    let full = "x".repeat(MAXIMUM_TRACE_LINE_SIZE);
    assert_eq!(said(&log_message(false, Some(full.clone()))), vec![(Level::Warn, full.as_str())]);
}

#[test]
fn discarded_events_and_violations_are_errors() {
    assert_eq!(
        said(&log_discard(true, 120)),
        vec![(Level::Error, "Discarded one or more trace items after exceeding capactity of 120")]
    );
    assert_eq!(said(&log_discard(false, 120)), vec![]);
    assert_eq!(
        said(&log_message(true, Some("text".to_string()))),
        vec![(
            Level::Error,
            "Trace invariant violation - tracing may be invalid for this event: 'text'"
        )]
    );
}

#[test]
fn long_messages_are_split() {
    let message = "é".repeat(MAXIMUM_TRACE_LINE_SIZE) + "tail";
    let first = format!("split stencil trace (1/2): '{}'", "é".repeat(MAXIMUM_TRACE_LINE_SIZE));
    let pieces = vec![
        (Level::Warn, first.as_str()),
        (Level::Warn, "split stencil trace (2/2): 'tail'"),
    ];
    assert_eq!(said(&log_message(false, Some(message.clone()))), pieces);
    let log = log_message(true, Some(message));
    assert_eq!(
        said(&log)[0],
        (Level::Error, "Trace invariant violation - tracing may be invalid for this event")
    );
    assert_eq!(said(&log)[1..], pieces);
}

#[test]
fn full_lines_leave_no_empty_one() {
    let message = "y".repeat(3 * MAXIMUM_TRACE_LINE_SIZE);
    let records = split_lines(&message);
    assert_eq!(records.len(), 3);
    let prefix = "split stencil trace (3/3): '".len();
    assert_eq!(records[2].message.len(), prefix + MAXIMUM_TRACE_LINE_SIZE + 1);
    let mut whole = String::new();
    for r in &records {
        whole.push_str(&r.message[prefix..r.message.len() - 1]);
    }
    assert_eq!(whole, message);
}
