use phone_records::codec::{decode, encode, CorruptValue, Record};

fn record(first_name: &str, last_name: &str, created_at: &str) -> Record {
    Record {
        first_name: first_name.to_string(),
        last_name: last_name.to_string(),
        created_at: created_at.to_string(),
    }
}

fn labelled(first_name: &str, last_name: &str, created_at: &str) -> Vec<u8> {
    format!(
        "{{\"firstName\":{},\"lastName\":{},\"createdAt\":{}}}",
        first_name, last_name, created_at
    )
    .into_bytes()
}

#[test]
fn encode_writes_the_three_members_in_order() {
    let bytes = encode(&record("Ada", "Lovelace", "2024-01-05T03:04:05Z"));
    assert_eq!(
        String::from_utf8(bytes).unwrap(),
        "{\"firstName\":\"Ada\",\"lastName\":\"Lovelace\",\"createdAt\":\"2024-01-05T03:04:05Z\"}"
    );
}

#[test]
fn encode_of_empty_fields() {
    let bytes = encode(&record("", "", ""));
    assert_eq!(
        String::from_utf8(bytes).unwrap(),
        "{\"firstName\":\"\",\"lastName\":\"\",\"createdAt\":\"\"}"
    );
}

#[test]
fn encode_escapes_quote_backslash_and_control_bytes() {
    let bytes = encode(&record("a\"b\\c", "\u{8}\t\n\u{c}\r", "\u{0}\u{1f}\u{7f} /"));
    assert_eq!(
        String::from_utf8(bytes).unwrap(),
        "{\"firstName\":\"a\\\"b\\\\c\",\"lastName\":\"\\b\\t\\n\\f\\r\",\"createdAt\":\"\\u0000\\u001f\u{7f} /\"}"
    );
}

#[test]
fn encode_keeps_text_beyond_ascii_as_it_is() {
    let bytes = encode(&record("Zoë", "李", "😀"));
    assert_eq!(
        String::from_utf8(bytes).unwrap(),
        "{\"firstName\":\"Zoë\",\"lastName\":\"李\",\"createdAt\":\"😀\"}"
    );
}

#[test]
fn decode_gives_back_what_encode_took() {
    let cases = vec![
        record("Ada", "Lovelace", "2024-01-05T03:04:05Z"),
        record("", "", ""),
        record("a\"b\\c", "\u{8}\t\n\u{c}\r", "\u{0}\u{1}\u{b}\u{e}\u{1f}\u{7f}"),
        record("Zoë", "李", "😀"),
        record("\",\"lastName\":\"x", "}", "{\"firstName\":\"\""),
        record("\\", "\\\\\"", "\\u0041"),
    ];
    for r in cases {
        assert_eq!(decode(&encode(&r)), Ok(r));
    }
}

#[test]
fn decode_gives_back_every_single_character_below_0x100() {
    for code in 0u32..0x100 {
        let c = char::from_u32(code).unwrap();
        let r = record(&c.to_string(), &format!("x{}", c), &format!("{}y", c));
        assert_eq!(decode(&encode(&r)), Ok(r));
    }
}

#[test]
fn decode_reads_an_exact_stored_form() {
    let bytes =
        b"{\"firstName\":\"Ada\",\"lastName\":\"Lovelace\",\"createdAt\":\"2024-01-05T03:04:05Z\"}";
    assert_eq!(decode(bytes), Ok(record("Ada", "Lovelace", "2024-01-05T03:04:05Z")));
}

#[test]
fn decode_reads_escapes() {
    let bytes = labelled("\"\\\"\\\\\"", "\"\\b\\t\\n\\f\\r\"", "\"\\u0000\\u001f\"");
    assert_eq!(decode(&bytes), Ok(record("\"\\", "\u{8}\t\n\u{c}\r", "\u{0}\u{1f}")));
}

#[test]
fn decode_rejects_bytes_that_are_no_object() {
    assert_eq!(decode(b""), Err(CorruptValue));
    assert_eq!(decode(b"not a record"), Err(CorruptValue));
    assert_eq!(decode(b"{}"), Err(CorruptValue));
    assert_eq!(decode(b"null"), Err(CorruptValue));
    assert_eq!(decode(&[0xff, 0xfe, 0x00]), Err(CorruptValue));
}

#[test]
fn decode_rejects_a_missing_or_misplaced_member() {
    assert_eq!(decode(b"{\"firstName\":\"Ada\",\"lastName\":\"Lovelace\"}"), Err(CorruptValue));
    assert_eq!(
        decode(b"{\"lastName\":\"Lovelace\",\"firstName\":\"Ada\",\"createdAt\":\"x\"}"),
        Err(CorruptValue)
    );
    assert_eq!(
        decode(b"{\"firstName\":\"Ada\",\"lastName\":\"Lovelace\",\"created_at\":\"x\"}"),
        Err(CorruptValue)
    );
    assert_eq!(
        decode(b"{\"firstName\":\"Ada\",\"lastName\":\"Lovelace\",\"createdAt\":7}"),
        Err(CorruptValue)
    );
}

#[test]
fn decode_rejects_bytes_around_the_object() {
    assert_eq!(decode(&labelled("\"a\"", "\"b\"", "\"c\"")), Ok(record("a", "b", "c")));
    let mut trailing = labelled("\"a\"", "\"b\"", "\"c\"");
    trailing.push(b'\n');
    assert_eq!(decode(&trailing), Err(CorruptValue));
    let mut leading = vec![b' '];
    leading.extend_from_slice(&labelled("\"a\"", "\"b\"", "\"c\""));
    assert_eq!(decode(&leading), Err(CorruptValue));
    assert_eq!(
        decode(b"{\"firstName\": \"a\",\"lastName\":\"b\",\"createdAt\":\"c\"}"),
        Err(CorruptValue)
    );
    assert_eq!(
        decode(b"{\"firstName\":\"a\",\"lastName\":\"b\",\"createdAt\":\"c\""),
        Err(CorruptValue)
    );
}

#[test]
fn decode_rejects_an_unfinished_string() {
    assert_eq!(decode(b"{\"firstName\":\"Ada"), Err(CorruptValue));
    assert_eq!(decode(b"{\"firstName\":\"Ada\\"), Err(CorruptValue));
    assert_eq!(decode(b"{\"firstName\":\"Ada\\u00"), Err(CorruptValue));
    assert_eq!(decode(b"{\"firstName\":"), Err(CorruptValue));
}

#[test]
fn decode_rejects_another_spelling_of_a_byte() {
    assert_eq!(decode(&labelled("\"\\u0041\"", "\"b\"", "\"c\"")), Err(CorruptValue));
    assert_eq!(decode(&labelled("\"\\/\"", "\"b\"", "\"c\"")), Err(CorruptValue));
    assert_eq!(decode(&labelled("\"\\u000a\"", "\"b\"", "\"c\"")), Err(CorruptValue));
    assert_eq!(decode(&labelled("\"\\u001F\"", "\"b\"", "\"c\"")), Err(CorruptValue));
    assert_eq!(decode(&labelled("\"\\u001f\"", "\"b\"", "\"c\"")), Ok(record("\u{1f}", "b", "c")));
    assert_eq!(decode(&labelled("\"\\x\"", "\"b\"", "\"c\"")), Err(CorruptValue));
    assert_eq!(decode(&labelled("\"\\u0020\"", "\"b\"", "\"c\"")), Err(CorruptValue));
    assert_eq!(decode(&labelled("\"\\u00g0\"", "\"b\"", "\"c\"")), Err(CorruptValue));
}

#[test]
fn decode_rejects_a_control_byte_written_as_itself() {
    assert_eq!(decode(&labelled("\"a\nb\"", "\"b\"", "\"c\"")), Err(CorruptValue));
    assert_eq!(decode(&labelled("\"a\u{0}b\"", "\"b\"", "\"c\"")), Err(CorruptValue));
    assert_eq!(decode(&labelled("\"a\u{7f}b\"", "\"b\"", "\"c\"")), Ok(record("a\u{7f}b", "b", "c")));
}

#[test]
fn decode_rejects_a_value_that_is_not_utf8() {
    let mut bytes = b"{\"firstName\":\"".to_vec();
    bytes.extend_from_slice(&[0xc3, 0x28]);
    bytes.extend_from_slice(b"\",\"lastName\":\"b\",\"createdAt\":\"c\"}");
    assert_eq!(decode(&bytes), Err(CorruptValue));

    let mut cut = b"{\"firstName\":\"a\",\"lastName\":\"".to_vec();
    cut.extend_from_slice(&[0xe6, 0x9d]);
    cut.extend_from_slice(b"\",\"createdAt\":\"c\"}");
    assert_eq!(decode(&cut), Err(CorruptValue));

    let mut whole = b"{\"firstName\":\"a\",\"lastName\":\"".to_vec();
    whole.extend_from_slice(&[0xe6, 0x9d, 0x8e]);
    whole.extend_from_slice(b"\",\"createdAt\":\"c\"}");
    assert_eq!(decode(&whole), Ok(record("a", "李", "c")));
}

#[test]
fn encode_writes_each_string_as_serde_json_does() {
    let texts = vec![
        "Ada",
        "",
        "a\"b\\c/d",
        "\u{0}\u{1}\u{7}\u{8}\t\n\u{b}\u{c}\r\u{e}\u{1f} \u{7f}",
        "Zoë 李 😀 \u{2028}",
    ];
    for first in &texts {
        for last in &texts {
            let created = "2024-01-05T03:04:05Z";
            let expected = labelled(
                &serde_json::to_string(first).unwrap(),
                &serde_json::to_string(last).unwrap(),
                &serde_json::to_string(created).unwrap(),
            );
            assert_eq!(encode(&record(first, last, created)), expected);
        }
    }
}

#[test]
fn encode_writes_an_object_that_serde_json_reads() {
    let r = record("a\"b\\c", "\u{1}\n李", "2024-01-05T03:04:05Z");
    let value: serde_json::Value = serde_json::from_slice(&encode(&r)).unwrap();
    let object = value.as_object().unwrap();
    assert_eq!(object.len(), 3);
    assert_eq!(object.get("firstName").and_then(|v| v.as_str()), Some("a\"b\\c"));
    assert_eq!(object.get("lastName").and_then(|v| v.as_str()), Some("\u{1}\n李"));
    assert_eq!(object.get("createdAt").and_then(|v| v.as_str()), Some("2024-01-05T03:04:05Z"));
}

#[test]
fn different_records_have_different_stored_forms() {
    let a = encode(&record("ab", "c", "d"));
    let b = encode(&record("a", "bc", "d"));
    let c = encode(&record("a\",\"lastName\":\"b", "c", "d"));
    let d = encode(&record("a", "b", "d"));
    assert_ne!(a, b);
    assert_ne!(c, d);
    assert_ne!(a, d);
}
