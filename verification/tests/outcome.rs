use crypto_writer::outcome::{relative_position, Call, Failure, FailureKind};

#[test]
fn own_failures_have_texts() {
    let failures: Vec<(Failure<()>, FailureKind, &str)> = vec![
        (Failure::SeekFromEnd, FailureKind::Other, "seek from end not supported"),
        (Failure::SeekBeforeStart, FailureKind::InvalidInput, "can't seek before start"),
        (
            Failure::AlreadyFinished(Call::Write),
            FailureKind::Other,
            "write called on already finished writer",
        ),
        (
            Failure::AlreadyFinished(Call::Flush),
            FailureKind::Other,
            "flush called on already finished writer",
        ),
        (
            Failure::AlreadyFinished(Call::Finish),
            FailureKind::Other,
            "finish called on already finished writer",
        ),
    ];
    for (failure, kind, text) in failures {
        assert_eq!(failure.kind(), Some(kind));
        assert_eq!(failure.message(), Some(text));
    }
}

#[test]
fn other_failures_have_no_text() {
    let sealing: Failure<()> = Failure::Sealing;
    assert_eq!(sealing.kind(), Some(FailureKind::Other));
    assert_eq!(sealing.message(), None);
    let outside: Failure<u8> = Failure::Outside(3);
    assert_eq!(outside.kind(), None);
    assert_eq!(outside.message(), None);
}

#[test]
fn relative_positions() {
    assert_eq!(relative_position(10, -3), Some(7));
    assert_eq!(relative_position(10, -10), Some(0));
    assert_eq!(relative_position(10, -11), None);
    assert_eq!(relative_position(0, 5), Some(5));
    assert_eq!(relative_position(u64::MAX, 0), None);
    assert_eq!(relative_position(u64::MAX, 3), Some(2));
}
