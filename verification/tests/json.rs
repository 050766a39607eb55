use contacts::json::{
    write_field, write_integer, write_object, write_text, write_value, Field, Value,
};
use contacts::Decimal;

fn text(value: &str) -> String {
    let mut out = Vec::new();
    write_text(&mut out, value);
    String::from_utf8(out).unwrap()
}

fn integer(value: i64) -> String {
    let mut out = Vec::new();
    write_integer(&mut out, value);
    String::from_utf8(out).unwrap()
}

#[test]
fn plain_text_goes_between_quotation_marks() {
    assert_eq!(text(""), "\"\"");
    assert_eq!(text("Acme"), "\"Acme\"");
    assert_eq!(text("a/b"), "\"a/b\"");
    assert_eq!(text("\u{7f}"), "\"\u{7f}\"");
}

#[test]
fn quotation_mark_and_reverse_solidus_are_escaped() {
    assert_eq!(text("\""), "\"\\\"\"");
    assert_eq!(text("\\"), "\"\\\\\"");
    assert_eq!(text("say \"hi\" \\o/"), "\"say \\\"hi\\\" \\\\o/\"");
}

#[test]
fn control_bytes_are_escaped() {
    assert_eq!(text("\u{8}"), "\"\\b\"");
    assert_eq!(text("\t"), "\"\\t\"");
    assert_eq!(text("\n"), "\"\\n\"");
    assert_eq!(text("\u{c}"), "\"\\f\"");
    assert_eq!(text("\r"), "\"\\r\"");
    assert_eq!(text("\u{0}"), "\"\\u0000\"");
    assert_eq!(text("\u{1}"), "\"\\u0001\"");
    assert_eq!(text("\u{b}"), "\"\\u000b\"");
    assert_eq!(text("\u{1a}"), "\"\\u001a\"");
    assert_eq!(text("\u{1f}"), "\"\\u001f\"");
}

#[test]
fn text_beyond_ascii_is_kept_as_it_is() {
    assert_eq!(text("caf\u{e9}"), "\"caf\u{e9}\"");
    assert_eq!(text("\u{65e5}\u{672c}"), "\"\u{65e5}\u{672c}\"");
    assert_eq!(text("\u{1f600}"), "\"\u{1f600}\"");
}

#[test]
fn every_single_character_is_written_as_serde_json_writes_it() {
    for code in 0u32..0x3000 {
        if let Some(character) = char::from_u32(code) {
            let value = character.to_string();
            assert_eq!(text(&value), serde_json::to_string(&value).unwrap(), "U+{:04X}", code);
        }
    }
    for code in [0xd7ffu32, 0xe000, 0xfffd, 0xffff, 0x10000, 0x1f600, 0x10ffff] {
        let value = char::from_u32(code).unwrap().to_string();
        assert_eq!(text(&value), serde_json::to_string(&value).unwrap(), "U+{:04X}", code);
    }
}

#[test]
fn mixed_text_is_written_as_serde_json_writes_it() {
    let samples = [
        "1 Main St\nSuite \"B\"",
        "tab\there, nul\u{0}there",
        "C:\\contacts\\acme",
        "\u{1b}[0m caf\u{e9} \u{1f600} \\\"",
        "{\"nested\":[1,2,3]}",
        "\r\n\r\n",
    ];
    for sample in samples {
        assert_eq!(text(sample), serde_json::to_string(sample).unwrap());
        let back: String = serde_json::from_str(&text(sample)).unwrap();
        assert_eq!(back, sample);
    }
}

#[test]
fn integers_are_written_in_decimal() {
    assert_eq!(integer(0), "0");
    assert_eq!(integer(7), "7");
    assert_eq!(integer(10), "10");
    assert_eq!(integer(-1), "-1");
    assert_eq!(integer(1234567890), "1234567890");
    assert_eq!(integer(-1002003), "-1002003");
    assert_eq!(integer(i64::MAX), "9223372036854775807");
    assert_eq!(integer(i64::MIN), "-9223372036854775808");
}

#[test]
fn integers_are_written_as_serde_json_writes_them() {
    let mut samples = vec![0i64, 1, -1, 9, 10, 11, 99, 100, 101, -9, -10, -100, i64::MAX, i64::MIN];
    let mut power: i64 = 1;
    for _ in 0..18 {
        power *= 10;
        samples.extend([power - 1, power, power + 1, -power + 1, -power, -power - 1]);
    }
    samples.extend([i64::MAX - 1, i64::MIN + 1, i32::MAX as i64, i32::MIN as i64]);
    for sample in samples {
        assert_eq!(integer(sample), serde_json::to_string(&sample).unwrap());
    }
}

#[test]
fn writers_append_to_what_is_there() {
    let mut out = b"x=".to_vec();
    write_integer(&mut out, -42);
    write_text(&mut out, "y");
    assert_eq!(out, b"x=-42\"y\"".to_vec());
}

#[test]
fn values_are_written_by_their_kind() {
    let number = Decimal::parse("-75.25").unwrap();
    let mut out = Vec::new();
    write_value(&mut out, &Value::Integer(-3));
    out.push(b' ');
    write_value(&mut out, &Value::Decimal(&number));
    out.push(b' ');
    write_value(&mut out, &Value::Text("-75.25"));
    assert_eq!(String::from_utf8(out).unwrap(), "-3 -75.25 \"-75.25\"");
}

#[test]
fn field_is_name_colon_value() {
    let mut out = Vec::new();
    write_field(&mut out, &Field { name: "capacity", value: Value::Integer(12) });
    assert_eq!(String::from_utf8(out).unwrap(), "\"capacity\":12");
    let mut out = Vec::new();
    write_field(&mut out, &Field { name: "a\"b", value: Value::Text("c\nd") });
    assert_eq!(String::from_utf8(out).unwrap(), "\"a\\\"b\":\"c\\nd\"");
}

#[test]
fn object_separates_its_members_with_commas() {
    let number = Decimal::parse("1e-7").unwrap();
    let mut out = Vec::new();
    write_object(&mut out, &[]);
    assert_eq!(String::from_utf8(out).unwrap(), "{}");

    let mut out = Vec::new();
    write_object(&mut out, &[Field { name: "only", value: Value::Integer(1) }]);
    assert_eq!(String::from_utf8(out).unwrap(), "{\"only\":1}");

    let mut out = Vec::new();
    write_object(
        &mut out,
        &[
            Field { name: "id", value: Value::Integer(5) },
            Field { name: "name", value: Value::Text("Acme") },
            Field { name: "latitude", value: Value::Decimal(&number) },
        ],
    );
    let written = String::from_utf8(out).unwrap();
    assert_eq!(written, "{\"id\":5,\"name\":\"Acme\",\"latitude\":1e-7}");
    let parsed: serde_json::Value = serde_json::from_str(&written).unwrap();
    assert_eq!(parsed["id"].as_i64(), Some(5));
    assert_eq!(parsed["name"].as_str(), Some("Acme"));
    assert_eq!(parsed["latitude"].as_f64(), Some(1e-7));
}
