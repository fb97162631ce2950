use pandoraslogs::data::{LogBatch, LogLevel};

#[test]
fn test_log_level_from_bytes() {
    assert_eq!(LogLevel::from_bytes(b"DEBUG"), LogLevel::Debug);
    assert_eq!(LogLevel::from_bytes(b"INFO"), LogLevel::Info);
    assert_eq!(LogLevel::from_bytes(b"WARN"), LogLevel::Warn);
    assert_eq!(LogLevel::from_bytes(b"ERROR"), LogLevel::Error);
    assert_eq!(LogLevel::from_bytes(b"FATAL"), LogLevel::Fatal);
    assert_eq!(LogLevel::from_bytes(b""), LogLevel::Unknown);
    assert_eq!(LogLevel::from_bytes(b"TRACE"), LogLevel::Unknown);
}

#[test]
fn test_log_batch_creation() {
    let batch = LogBatch::new(10);
    assert_eq!(batch.len, 10);
    assert_eq!(batch.timestamps.len(), 10);
    assert_eq!(batch.levels.len(), 10);
}

#[test]
fn log_level_is_told_by_first_byte_and_length() {
    assert_eq!(LogLevel::from_bytes(b"Dxxxx"), LogLevel::Debug);
    assert_eq!(LogLevel::from_bytes(b"DEBUGGING"), LogLevel::Unknown);
    assert_eq!(LogLevel::from_bytes(b"INF"), LogLevel::Unknown);
    assert_eq!(LogLevel::from_bytes(b"debug"), LogLevel::Unknown);
}

#[test]
fn log_level_names() {
    assert_eq!(LogLevel::Debug.as_str(), "Debug");
    assert_eq!(LogLevel::Info.as_str(), "Info");
    assert_eq!(LogLevel::Warn.as_str(), "Warn");
    assert_eq!(LogLevel::Error.as_str(), "Error");
    assert_eq!(LogLevel::Fatal.as_str(), "Fatal");
    assert_eq!(LogLevel::Unknown.as_str(), "Unknown");
}

#[test]
fn new_batch_is_blank() {
    let batch = LogBatch::new(3);
    for i in 0..3 {
        assert_eq!(batch.timestamps[i], 0);
        assert_eq!(batch.levels[i], LogLevel::Unknown);
        assert_eq!(batch.component_lens[i], 0);
        assert_eq!(batch.message_lens[i], 0);
    }
}
