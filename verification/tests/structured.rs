use pandoraslogs::structured::well_known::{classify_key, WellKnownKind};
use pandoraslogs::structured::{FieldRef, StructuredBatch, ABSENT};

#[test]
fn test_structured_batch_basic() {
    let data = b"{\"level\":\"info\",\"msg\":\"hello\"}";
    let mut batch = StructuredBatch::with_capacity(1, 4);

    batch.begin_record(0, data.len() as u32);
    batch.push_field(FieldRef {
        key_offset: 2,
        key_len: 5,
        val_offset: 10,
        val_len: 4,
    });
    batch.push_field(FieldRef {
        key_offset: 17,
        key_len: 3,
        val_offset: 23,
        val_len: 5,
    });
    batch.set_well_known_level(0);
    batch.set_well_known_message(1);
    batch.end_record();

    assert_eq!(batch.len, 1);
    assert_eq!(batch.field_count(0), 2);

    assert_eq!(batch.level_value(data, 0), Some(&b"info"[..]));
    assert_eq!(batch.message_value(data, 0), Some(&b"hello"[..]));
    assert_eq!(batch.timestamp_value(data, 0), None);
}

#[test]
fn test_well_known_classification() {
    assert_eq!(classify_key(b"timestamp"), WellKnownKind::Timestamp);
    assert_eq!(classify_key(b"time"), WellKnownKind::Timestamp);
    assert_eq!(classify_key(b"ts"), WellKnownKind::Timestamp);
    assert_eq!(classify_key(b"@timestamp"), WellKnownKind::Timestamp);
    assert_eq!(classify_key(b"level"), WellKnownKind::Level);
    assert_eq!(classify_key(b"severity"), WellKnownKind::Level);
    assert_eq!(classify_key(b"msg"), WellKnownKind::Message);
    assert_eq!(classify_key(b"message"), WellKnownKind::Message);
    assert_eq!(classify_key(b"component"), WellKnownKind::Component);
    assert_eq!(classify_key(b"source"), WellKnownKind::Component);
    assert_eq!(classify_key(b"logger"), WellKnownKind::Component);
    assert_eq!(classify_key(b"foobar"), WellKnownKind::Other);
    assert_eq!(classify_key(b"LEVEL"), WellKnownKind::Level);
    assert_eq!(classify_key(b"Timestamp"), WellKnownKind::Timestamp);
    assert_eq!(classify_key(b"MSG"), WellKnownKind::Message);
}

#[test]
fn every_listed_key_is_classified() {
    let timestamps: [&[u8]; 10] = [
        b"timestamp", b"time", b"ts", b"@timestamp", b"datetime", b"date", b"t", b"created_at",
        b"logged_at", b"event_time",
    ];
    for k in timestamps {
        assert_eq!(classify_key(k), WellKnownKind::Timestamp);
    }
    let levels: [&[u8]; 8] = [
        b"level", b"severity", b"lvl", b"log_level", b"loglevel", b"log.level", b"priority",
        b"sev",
    ];
    for k in levels {
        assert_eq!(classify_key(k), WellKnownKind::Level);
    }
    let messages: [&[u8]; 7] = [
        b"message", b"msg", b"text", b"body", b"log", b"description", b"content",
    ];
    for k in messages {
        assert_eq!(classify_key(k), WellKnownKind::Message);
    }
    let components: [&[u8]; 10] = [
        b"component", b"source", b"logger", b"module", b"service", b"caller", b"name",
        b"logger_name", b"subsystem", b"tag",
    ];
    for k in components {
        assert_eq!(classify_key(k), WellKnownKind::Component);
    }
}

#[test]
fn near_misses_are_other() {
    assert_eq!(classify_key(b""), WellKnownKind::Other);
    assert_eq!(classify_key(b"timestamps"), WellKnownKind::Other);
    assert_eq!(classify_key(b"tim"), WellKnownKind::Other);
    assert_eq!(classify_key(b"names"), WellKnownKind::Other);
    assert_eq!(classify_key(b"x"), WellKnownKind::Other);
    assert_eq!(classify_key(b"Log.Level"), WellKnownKind::Level);
}

#[test]
fn long_keys_are_other() {
    let mut key = b"level".to_vec();
    key.resize(65, b' ');
    assert_eq!(classify_key(&key), WellKnownKind::Other);
    let key = vec![b't'; 64];
    assert_eq!(classify_key(&key), WellKnownKind::Other);
    let key = vec![b't'; 200];
    assert_eq!(classify_key(&key), WellKnownKind::Other);
}

#[test]
fn empty_batch_has_one_start() {
    let batch = StructuredBatch::with_capacity(0, 0);
    assert_eq!(batch.len, 0);
    assert_eq!(batch.field_starts, vec![0]);
    assert!(batch.fields.is_empty());
    let batch = StructuredBatch::with_capacity(usize::MAX, 0);
    assert_eq!(batch.field_starts, vec![0]);
}

#[test]
fn records_are_laid_out_in_columns() {
    let data = b"a=1 b=2\nc=3\n";
    let mut batch = StructuredBatch::with_capacity(2, 3);
    batch.begin_record(0, 7);
    batch.push_field(FieldRef { key_offset: 0, key_len: 1, val_offset: 2, val_len: 1 });
    batch.push_field(FieldRef { key_offset: 4, key_len: 1, val_offset: 6, val_len: 1 });
    batch.end_record();
    batch.begin_record(8, 3);
    batch.push_field(FieldRef { key_offset: 8, key_len: 1, val_offset: 10, val_len: 1 });
    batch.set_well_known_timestamp(2);
    batch.set_well_known_component(2);
    batch.end_record();

    assert_eq!(batch.len, 2);
    assert_eq!(batch.field_starts, vec![0, 2, 3]);
    assert_eq!(batch.field_count(0), 2);
    assert_eq!(batch.field_count(1), 1);
    assert_eq!(batch.line_offsets, vec![0, 8]);
    assert_eq!(batch.line_lens, vec![7, 3]);
    assert_eq!(batch.well_known[0].timestamp, ABSENT);
    assert_eq!(batch.well_known[1].timestamp, 2);
    assert_eq!(batch.well_known[1].level, ABSENT);
    assert_eq!(batch.raw_line(data, 0), b"a=1 b=2");
    assert_eq!(batch.raw_line(data, 1), b"c=3");
    let fields = batch.record_fields(1);
    assert_eq!(fields.len(), 1);
    assert_eq!(batch.field_key(data, &fields[0]), b"c");
    assert_eq!(batch.field_value(data, &fields[0]), b"3");
    assert_eq!(batch.timestamp_value(data, 1), Some(&b"3"[..]));
    assert_eq!(batch.component_value(data, 1), Some(&b"3"[..]));
    assert_eq!(batch.level_value(data, 1), None);
}

#[test]
fn setting_a_slot_without_a_record_does_nothing() {
    let mut batch = StructuredBatch::with_capacity(1, 1);
    batch.set_well_known_level(3);
    batch.set_well_known(WellKnownKind::Message, 1);
    assert!(batch.well_known.is_empty());
}

#[test]
fn set_well_known_by_kind() {
    let mut batch = StructuredBatch::with_capacity(1, 1);
    batch.begin_record(0, 0);
    batch.set_well_known(WellKnownKind::Timestamp, 1);
    batch.set_well_known(WellKnownKind::Level, 2);
    batch.set_well_known(WellKnownKind::Message, 3);
    batch.set_well_known(WellKnownKind::Component, 4);
    batch.set_well_known(WellKnownKind::Other, 5);
    let wk = batch.well_known[0];
    assert_eq!((wk.timestamp, wk.level, wk.message, wk.component), (1, 2, 3, 4));
}
