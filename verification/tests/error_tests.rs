use a3s_apofasi::error::Error;

#[test]
fn messages_match_the_wire_texts() {
    let e = Error::InvalidQuestion {
        id: "q".into(),
        reason: "bad".into(),
    };
    assert_eq!(e.message(), "invalid question `q`: bad");
    let e = Error::HeadBudgetExceeded {
        id: "q".into(),
        head_max_len: 192,
    };
    assert_eq!(e.message(), "question `q` options exceed head_max_len=192");
    let e = Error::UnknownCheckpoint { name: "x".into() };
    assert_eq!(e.message(), "unknown checkpoint `x`");
    assert_eq!(
        Error::StateSerialize("eof".into()).message(),
        "state serialization failed: eof"
    );
    assert_eq!(Error::Checkpoint("m".into()).message(), "checkpoint error: m");
    assert_eq!(Error::Infer("m".into()).message(), "inference error: m");
}
