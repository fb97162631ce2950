use pandoraslogs::json_parser::parse_json_line;
use pandoraslogs::logfmt_parser::parse_logfmt_line;
use pandoraslogs::structured::StructuredBatch;

fn pairs() -> Vec<(&'static [u8], &'static [u8])> {
    vec![
        (b"level", b"info"),
        (b"msg", b"started"),
        (b"empty", b""),
        (b"path", b"/var/log/a=b"),
        (b"n", b"42"),
    ]
}

#[test]
fn logfmt_tokens_are_read_back() {
    let pairs = pairs();
    let mut line = Vec::new();
    for (i, (k, v)) in pairs.iter().enumerate() {
        if i > 0 {
            line.push(b' ');
        }
        line.extend_from_slice(k);
        line.push(b'=');
        line.extend_from_slice(v);
    }
    let mut batch = StructuredBatch::with_capacity(1, 8);
    parse_logfmt_line(&line, 0, &mut batch);
    let fields = batch.record_fields(0);
    assert_eq!(fields.len(), pairs.len());
    let mut rebuilt = Vec::new();
    for (i, f) in fields.iter().enumerate() {
        assert_eq!(batch.field_key(&line, f), pairs[i].0);
        assert_eq!(batch.field_value(&line, f), pairs[i].1);
        if i > 0 {
            rebuilt.push(b' ');
        }
        rebuilt.extend_from_slice(batch.field_key(&line, f));
        rebuilt.push(b'=');
        rebuilt.extend_from_slice(batch.field_value(&line, f));
    }
    assert_eq!(rebuilt, line);
}

#[test]
fn json_members_are_read_back() {
    let pairs = pairs();
    let mut line = vec![b'{'];
    for (i, (k, v)) in pairs.iter().enumerate() {
        if i > 0 {
            line.push(b',');
        }
        line.push(b'"');
        line.extend_from_slice(k);
        line.extend_from_slice(b"\":\"");
        line.extend_from_slice(v);
        line.push(b'"');
    }
    line.push(b'}');
    let mut batch = StructuredBatch::with_capacity(1, 8);
    parse_json_line(&line, 0, &mut batch);
    assert_eq!(batch.len, 1);
    let fields = batch.record_fields(0);
    assert_eq!(fields.len(), pairs.len());
    let mut rebuilt = vec![b'{'];
    for (i, f) in fields.iter().enumerate() {
        assert_eq!(batch.field_key(&line, f), pairs[i].0);
        assert_eq!(batch.field_value(&line, f), pairs[i].1);
        if i > 0 {
            rebuilt.push(b',');
        }
        rebuilt.push(b'"');
        rebuilt.extend_from_slice(batch.field_key(&line, f));
        rebuilt.extend_from_slice(b"\":\"");
        rebuilt.extend_from_slice(batch.field_value(&line, f));
        rebuilt.push(b'"');
    }
    rebuilt.push(b'}');
    assert_eq!(rebuilt, line);
}

#[test]
fn json_without_members_is_read_back() {
    let mut batch = StructuredBatch::with_capacity(1, 8);
    parse_json_line(b"{}", 0, &mut batch);
    assert_eq!(batch.len, 1);
    assert_eq!(batch.field_count(0), 0);
}
