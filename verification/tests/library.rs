use kowito_json::parse::byte_offset_to_line_col;
use kowito_json::deser::{end_variant_object, read_record, read_variant_head};
use kowito_json::schema::{
    begin_struct_variant, begin_tuple_variant, close_record, compute_hash, end_struct_variant,
    end_tuple_variant, field_key, field_name_hash, field_prefix, field_prefixes, match_field,
    static_capacity, write_field, write_field_unless, write_newtype_variant, write_tuple_item,
    write_unit, write_unit_variant, FieldSpec,
};
use kowito_json::serde_ser::{
    CompactFormatter, Formatter, KowitoSerializer, PrettyFormatter,
};
use kowito_json::serialize::{
    build_escape_table, write_str_escape, write_str_escape_raw, write_value, write_value_raw,
    Serialize,
};
use kowito_json::value::Value;
use kowito_json::{from_slice, from_str, Error, FastUser, KView, Parser};

fn custom_msg<T: std::fmt::Debug>(r: kowito_json::Result<T>) -> String {
    match r {
        Err(Error::Custom(m)) => m,
        other => panic!("expected a custom error, got {:?}", other),
    }
}

fn parse_err<T: std::fmt::Debug>(r: kowito_json::Result<T>) -> (String, usize, usize) {
    match r {
        Err(Error::Parse { msg, line, col }) => (msg, line, col),
        other => panic!("expected a parse error, got {:?}", other),
    }
}

fn to_text<T: Serialize + ?Sized>(v: &T) -> String {
    let mut buf = Vec::new();
    write_value(v, &mut buf);
    String::from_utf8(buf).unwrap()
}

// ---------------------------------------------------------------------------
// Reading back what was written
// ---------------------------------------------------------------------------

#[test]
fn string_roundtrip_through_writer_and_reader() {
    for s in ["", "plain", "quote \" and \\ backslash", "lines\n\r\ttabs", "\x08\x0C", "🦀 你好"] {
        let text = to_text(&s.to_string());
        let back: String = from_str(&text).unwrap();
        assert_eq!(back, s);
    }
}

#[test]
fn string_roundtrip_fails_for_unicode_escaped_controls() {
    // A control byte other than \b \f \n \r \t is written as \u00XX, which
    // the reader drops.
    let text = to_text(&"a\x01b".to_string());
    assert_eq!(text, "\"a\\u0001b\"");
    let back: String = from_str(&text).unwrap();
    assert_eq!(back, "ab");
}

#[test]
fn int_roundtrip_through_writer_and_reader() {
    for v in [i64::MIN, -1, 0, 7, i64::MAX] {
        let back: i64 = from_str(&to_text(&v)).unwrap();
        assert_eq!(back, v);
    }
    let back: u64 = from_str(&to_text(&u64::MAX)).unwrap();
    assert_eq!(back, u64::MAX);
}

#[test]
fn bool_roundtrip_through_writer_and_reader() {
    for b in [true, false] {
        let back: bool = from_str(&to_text(&b)).unwrap();
        assert_eq!(back, b);
    }
}

#[test]
fn fast_user_roundtrip() {
    let u = FastUser { id: 99, name: "Round \"Trip\"".to_string(), active: true };
    let mut buf = Vec::new();
    u.to_json_bytes(&mut buf);
    assert_eq!(String::from_utf8(buf.clone()).unwrap(), r#"{"id":99,"name":"Round \"Trip\"","active":true}"#);
    let back: FastUser = from_slice(&buf).unwrap();
    assert_eq!(back.id, 99);
    assert_eq!(back.name, "Round \"Trip\"");
    assert!(back.active);
}

// ---------------------------------------------------------------------------
// Writing
// ---------------------------------------------------------------------------

#[test]
fn writes_integers_and_escapes() {
    assert_eq!(to_text(&-42i64), "-42");
    assert_eq!(to_text(&u64::MAX), "18446744073709551615");
    assert_eq!(to_text(&0u8), "0");
    assert_eq!(to_text(&vec![1u32, 2, 3]), "[1,2,3]");
    assert_eq!(to_text(&Vec::<u32>::new()), "[]");
    assert_eq!(to_text(&Some(true)), "true");
    assert_eq!(to_text(&Option::<i8>::None), "null");
    assert_eq!(to_text(&Box::new(5i16)), "5");
    assert_eq!(to_text("tab\there"), "\"tab\\there\"");
    let mut buf = Vec::new();
    write_str_escape(&mut buf, b"\x1f\"\\/");
    assert_eq!(buf, b"\"\\u001f\\\"\\\\/\"".to_vec());
}

#[test]
fn escape_table_entries() {
    let t = build_escape_table();
    assert_eq!(t[b'\n' as usize], b'n');
    assert_eq!(t[b'"' as usize], b'"');
    assert_eq!(t[0x01], b'u');
    assert_eq!(t[0x08], b'b');
    assert_eq!(t[b'a' as usize], 0);
}

#[test]
fn raw_writer_matches_buffered_writer() {
    let v = vec![Some("a\"b".to_string()), None];
    let expected = to_text(&v);
    let mut out = vec![b'#'; expected.len() + 4];
    let end = write_value_raw(&v, &mut out, 2);
    assert_eq!(end, 2 + expected.len());
    assert_eq!(&out[2..end], expected.as_bytes());
    assert_eq!(&out[..2], b"##");
    assert_eq!(&out[end..], b"##");

    let mut out2 = vec![0u8; 8];
    let end2 = write_str_escape_raw(&mut out2, 1, b"\n");
    assert_eq!(end2, 5);
    assert_eq!(&out2[1..5], b"\"\\n\"");
}

#[test]
fn schema_hash_and_prefixes() {
    assert_eq!(field_name_hash("id"), 8256168071570236269);
    assert_eq!(compute_hash("name"), 16345511813764889487);
    assert_eq!(compute_hash(""), 0);
    assert_eq!(field_prefix("id", true), b"{\"id\":".to_vec());
    assert_eq!(field_prefix("name", false), b",\"name\":".to_vec());
}

#[test]
fn fast_user_defaults() {
    let d = FastUser::default();
    assert_eq!((d.id, d.name.as_str(), d.active), (0, "", false));
    assert_eq!(FastUser::kowito_json_schema_version(), "1.0.0-turbo");
    let view = KView::new(b"{}", &[]);
    let u = FastUser::from_kview(&view);
    assert_eq!((u.id, u.name.as_str(), u.active), (0, "", false));
    let e: FastUser = from_str("{}").unwrap();
    assert_eq!((e.id, e.name.as_str(), e.active), (0, "", false));
}

#[test]
fn fast_user_skips_unknown_and_keeps_last() {
    let u: FastUser =
        from_str(r#"{"extra":[1,{"a":2}],"id":1,"name":"x","id":5,"more":"s","active":true}"#).unwrap();
    assert_eq!(u.id, 5);
    assert_eq!(u.name, "x");
    assert!(u.active);
}

// ---------------------------------------------------------------------------
// Errors
// ---------------------------------------------------------------------------

#[test]
fn bool_errors_say_what_was_found() {
    assert_eq!(
        custom_msg(from_str::<bool>("nope!")),
        "expected boolean at offset 0, got Some(Ok(\"nope!\"))"
    );
    assert_eq!(custom_msg(from_str::<bool>("no")), "expected boolean at offset 0, got None");
}

#[test]
fn integer_errors() {
    assert_eq!(custom_msg(from_str::<u8>("300")), "overflow converting to u8");
    assert_eq!(custom_msg(from_str::<i8>("-129")), "overflow converting to i8");
    assert_eq!(custom_msg(from_str::<i64>("abc")), "invalid i64: invalid digit found in string");
    assert_eq!(custom_msg(from_str::<u64>("-1")), "invalid u64: invalid digit found in string");
    assert_eq!(custom_msg(from_str::<i64>("")), "invalid i64: cannot parse integer from empty string");
    assert_eq!(
        custom_msg(from_str::<i64>("99999999999999999999")),
        "invalid i64: number too large to fit in target type"
    );
    assert_eq!(
        custom_msg(from_str::<i64>("-99999999999999999999")),
        "invalid i64: number too small to fit in target type"
    );
    assert_eq!(from_str::<i32>("+12").unwrap(), 12);
    assert_eq!(from_str::<i128>("-5").unwrap(), -5);
    assert_eq!(from_str::<u128>("5").unwrap(), 5);
    assert_eq!(from_str::<usize>("5").unwrap(), 5);
    assert_eq!(from_str::<isize>("-5").unwrap(), -5);
    assert_eq!(from_str::<u16>("65535").unwrap(), 65535);
    assert_eq!(from_str::<u32>("7").unwrap(), 7);
    assert_eq!(from_str::<i16>("-7").unwrap(), -7);
}

#[test]
fn structural_errors_are_located() {
    let (msg, line, col) = parse_err(from_str::<Vec<i32>>("{}"));
    assert_eq!(msg, "expected '[', got Some(536870912)");
    assert_eq!((line, col), (1, 1));
    let (msg, line, col) = parse_err(from_str::<Vec<i32>>(""));
    assert_eq!(msg, "expected '[', got None");
    assert_eq!((line, col), (1, 1));
    let (msg, line, col) = parse_err(from_str::<String>("\n  {"));
    assert_eq!(msg, "expected opening '\"', got Some(536870912)");
    assert_eq!((line, col), (2, 3));
    assert_eq!(custom_msg(from_str::<Vec<i32>>("[1,2")), "expected ',' or ']' at tape[2]");
    assert_eq!(
        custom_msg(from_str::<std::collections::HashMap<String, i32>>(r#"{"a":1"#)),
        "expected ',' or '}' at tape[4]"
    );
}

#[test]
fn value_errors() {
    let (msg, line, col) = parse_err(from_str::<Value>("@"));
    assert_eq!(msg, "unexpected byte Some(64)");
    assert_eq!((line, col), (1, 1));
    // Whitespace before the first value is skipped.
    let (msg, line, col) = parse_err(from_str::<Value>("\n @"));
    assert_eq!(msg, "unexpected byte Some(64)");
    assert_eq!((line, col), (2, 2));
    let (msg, _, _) = parse_err(from_str::<Value>(""));
    assert_eq!(msg, "unexpected byte None");
}

#[test]
fn from_slice_reports_invalid_utf8() {
    assert_eq!(
        custom_msg(from_slice::<String>(&[0xFF, b'"'])),
        "invalid UTF-8: invalid utf-8 sequence of 1 bytes from index 0"
    );
}

#[test]
fn error_constructors() {
    assert!(matches!(Error::custom("x"), Error::Custom(m) if m == "x"));
    assert!(matches!(
        Error::parse_at("m".to_string(), 3, 4),
        Error::Parse { msg, line: 3, col: 4 } if msg == "m"
    ));
}

#[test]
fn numbers_without_a_comma_read_as_one_item() {
    // Numbers have no tape entries: after `1` the next entry is `]`.
    let v: Vec<i32> = from_str("[1 2]").unwrap();
    assert_eq!(v, vec![1]);
    let v: Vec<i32> = from_str("[ ]").unwrap();
    assert!(v.is_empty());
    let v: Vec<i32> = from_str("[ 7 ]").unwrap();
    assert_eq!(v, vec![7]);
}

#[test]
fn leading_whitespace_is_skipped() {
    assert_eq!(from_str::<i64>(" 42").unwrap(), 42);
    assert_eq!(from_str::<bool>("\t\ntrue").unwrap(), true);
    assert_eq!(from_slice::<u64>(b"  7").unwrap(), 7);
}

#[test]
fn reading_past_the_tape() {
    let src = b"[1]";
    let mut p = Parser::new(src);
    p.pos = p.tape.len() + 3;
    p.skip_value().unwrap();
    assert_eq!(p.pos, p.tape.len() + 3);
    let mut q = Parser::new(src);
    q.pos = q.tape.len() + 1;
    assert!(<String as kowito_json::Deserialize>::deserialize(&mut q).is_err());
    assert!(<Vec<i32> as kowito_json::Deserialize>::deserialize(&mut q).is_err());
}

#[test]
fn options_read_null_as_none() {
    assert_eq!(from_str::<Option<i32>>("null").unwrap(), None);
    assert_eq!(from_str::<Option<i32>>("5").unwrap(), Some(5));
    let v: Vec<Option<bool>> = from_str("[true,null,false]").unwrap();
    assert_eq!(v, vec![Some(true), None, Some(false)]);
    let c: std::borrow::Cow<str> = from_str("\"cow\"").unwrap();
    assert_eq!(c, "cow");
}

// ---------------------------------------------------------------------------
// Line and column
// ---------------------------------------------------------------------------

#[test]
fn line_col_positions() {
    assert_eq!(byte_offset_to_line_col(b"ab\ncd", 4), (2, 2));
    assert_eq!(byte_offset_to_line_col(b"ab\ncd", 0), (1, 1));
    assert_eq!(byte_offset_to_line_col(b"ab\ncd", 3), (2, 1));
    assert_eq!(byte_offset_to_line_col(b"ab", 10), (1, 3));
}

// ---------------------------------------------------------------------------
// Parser steps
// ---------------------------------------------------------------------------

#[test]
fn parser_steps() {
    let src = br#"{"k":[1,{"x":[]}],"s":"a\nb"}"#;
    let mut p = Parser::new(src);
    assert!(p.peek_is_object());
    assert_eq!(p.begin_object().unwrap(), 0);
    assert!(p.peek_is_string());
    let key = p.parse_string().unwrap();
    assert_eq!(key.as_raw(), b"k");
    p.expect_colon().unwrap();
    assert!(p.peek_is_array());
    p.skip_value().unwrap();
    assert!(p.object_next().unwrap());
    assert_eq!(p.parse_string_owned().unwrap(), "s");
    p.expect_colon().unwrap();
    let s = p.parse_string().unwrap();
    assert!(s.has_escapes());
    assert_eq!(s.decode(), "a\nb");
    assert!(matches!(p.end_object_or_comma().unwrap(), kowito_json::parse::ObjectStep::End));
    assert_eq!(p.pos, p.tape.len());
}

#[test]
fn parser_primitives() {
    let src = b"[ 12 ,true, null,-3]";
    let mut p = Parser::new(src);
    p.begin_array().unwrap();
    assert_eq!(p.current_value_start().unwrap(), 2);
    assert_eq!(p.scan_number_end_pub(2), 4);
    assert_eq!(p.parse_u64().unwrap(), 12);
    assert!(p.array_next().unwrap());
    assert!(p.parse_bool().unwrap());
    assert!(p.array_next().unwrap());
    assert!(p.parse_null().unwrap());
    assert!(p.array_next().unwrap());
    assert_eq!(p.parse_i64().unwrap(), -3);
    assert!(!p.array_next().unwrap());
}

// ---------------------------------------------------------------------------
// Values
// ---------------------------------------------------------------------------

#[test]
fn value_access_and_text() {
    let v: Value = from_str(r#"{"a":[1,"x\"y",null],"b":true,"a":2}"#).unwrap();
    assert_eq!(v.to_string(), r#"{"a":[1,"x\"y",null],"b":true,"a":2}"#);
    assert_eq!(v.get("b"), Some(&Value::Bool(true)));
    assert!(v.get("zz").is_none());
    let a = v.get("a").unwrap();
    assert_eq!(a.index(0), Some(&Value::Number("1".to_string())));
    assert!(a.index(2).unwrap().is_null());
    assert!(a.index(3).is_none());
    assert!(v.index(0).is_none());
    assert_eq!(Value::Array(vec![]).to_string(), "[]");
    assert_eq!(Value::Object(vec![]).to_string(), "{}");
}

// ---------------------------------------------------------------------------
// Formatting
// ---------------------------------------------------------------------------

#[test]
fn compact_formatter_events() {
    let mut f = CompactFormatter;
    let mut w = Vec::new();
    f.begin_object(&mut w);
    f.begin_object_key(&mut w, true);
    w.extend_from_slice(b"\"a\"");
    f.end_object_key(&mut w);
    f.begin_object_value(&mut w);
    f.begin_array(&mut w);
    f.begin_array_value(&mut w, true);
    w.push(b'1');
    f.end_array_value(&mut w);
    f.begin_array_value(&mut w, false);
    w.push(b'2');
    f.end_array(&mut w);
    f.end_object_value(&mut w);
    f.end_object(&mut w);
    assert_eq!(String::from_utf8(w).unwrap(), r#"{"a":[1,2]}"#);
}

#[test]
fn pretty_formatter_events() {
    let mut f = PrettyFormatter::default();
    let mut w = Vec::new();
    f.begin_object(&mut w);
    f.begin_object_key(&mut w, true);
    w.extend_from_slice(b"\"a\"");
    f.end_object_key(&mut w);
    f.begin_object_value(&mut w);
    f.begin_array(&mut w);
    f.begin_array_value(&mut w, true);
    w.push(b'1');
    f.end_array_value(&mut w);
    f.begin_array_value(&mut w, false);
    w.push(b'2');
    f.end_array_value(&mut w);
    f.end_array(&mut w);
    f.end_object_value(&mut w);
    f.begin_object_key(&mut w, false);
    w.extend_from_slice(b"\"e\"");
    f.end_object_key(&mut w);
    f.begin_object_value(&mut w);
    f.begin_array(&mut w);
    f.end_array(&mut w);
    f.end_object_value(&mut w);
    f.end_object(&mut w);
    assert_eq!(
        String::from_utf8(w).unwrap(),
        "{\n  \"a\": [\n    1,\n    2\n  ],\n  \"e\": []\n}"
    );
    // `[[1],[]]`: the outer array had items, so it closes on a line of its own.
    let mut h = PrettyFormatter::default();
    let mut w3 = Vec::new();
    h.begin_array(&mut w3);
    h.begin_array_value(&mut w3, true);
    h.begin_array(&mut w3);
    h.begin_array_value(&mut w3, true);
    w3.push(b'1');
    h.end_array_value(&mut w3);
    h.end_array(&mut w3);
    h.end_array_value(&mut w3);
    h.begin_array_value(&mut w3, false);
    h.begin_array(&mut w3);
    h.end_array(&mut w3);
    h.end_array_value(&mut w3);
    h.end_array(&mut w3);
    assert_eq!(String::from_utf8(w3).unwrap(), "[\n  [\n    1\n  ],\n  []\n]");
    let mut g = PrettyFormatter::with_indent(b"\t");
    let mut w2 = Vec::new();
    g.begin_array(&mut w2);
    g.begin_array_value(&mut w2, true);
    w2.push(b'0');
    g.end_array(&mut w2);
    assert_eq!(w2, b"[\n\t0\n]".to_vec());
}

#[test]
fn serializer_scalars_and_variants() {
    let mut s = KowitoSerializer::new(Vec::new(), CompactFormatter);
    s.begin_tagged("Rgb");
    s.formatter.begin_array(&mut s.writer);
    s.formatter.begin_array_value(&mut s.writer, true);
    s.serialize_int(-1);
    s.formatter.begin_array_value(&mut s.writer, false);
    s.serialize_uint(u128::MAX);
    s.formatter.begin_array_value(&mut s.writer, false);
    s.serialize_bool(false);
    s.formatter.begin_array_value(&mut s.writer, false);
    s.serialize_null();
    s.formatter.begin_array_value(&mut s.writer, false);
    s.serialize_str("q\"");
    s.formatter.end_array(&mut s.writer);
    s.end_tagged();
    s.write_bytes(b"!");
    assert_eq!(
        String::from_utf8(s.writer).unwrap(),
        r#"{"Rgb":[-1,340282366920938463463374607431768211455,false,null,"q\""]}!"#
    );
    let mut p = KowitoSerializer::new(Vec::new(), PrettyFormatter::default());
    p.begin_tagged("V");
    p.serialize_int(1);
    p.end_tagged();
    assert_eq!(String::from_utf8(p.writer).unwrap(), "{\n  \"V\": 1\n}");
}

#[test]
fn array_roundtrip() {
    for v in [vec![], vec![5i64], vec![1i64, -2], vec![i64::MIN, 0, i64::MAX]] {
        let back: Vec<i64> = from_str(&to_text(&v)).unwrap();
        assert_eq!(back, v);
    }
    let one: Value = from_str("[5]").unwrap();
    assert_eq!(one.to_string(), "[5]");
    let strings: Vec<String> = from_str(r#"["only"]"#).unwrap();
    assert_eq!(strings, vec!["only".to_string()]);
}

#[test]
fn value_clone_is_equal() {
    let v: Value = from_str(r#"{"a":[1,{"b":null}],"c":"d"}"#).unwrap();
    let c = v.clone();
    assert_eq!(c, v);
    assert_eq!(c.to_string(), v.to_string());
}

#[test]
fn decoding_undoes_escaping() {
    for s in ["plain", "q\"b\\s/\n\r\t\x08\x0C", "é 🦀"] {
        let mut buf = Vec::new();
        write_str_escape(&mut buf, s.as_bytes());
        let body = &buf[1..buf.len() - 1];
        let k = kowito_json::KString::new(body, body.contains(&b'\\'));
        assert_eq!(k.decode(), s);
    }
}

#[test]
fn record_layout_prefixes_and_capacity() {
    let fields = vec![
        FieldSpec { name: "secret".to_string(), rename: None, skip: true },
        FieldSpec { name: "id".to_string(), rename: None, skip: false },
        FieldSpec { name: "user_name".to_string(), rename: Some("userName".to_string()), skip: false },
    ];
    assert_eq!(field_key(&fields[2]), "userName");
    assert_eq!(field_key(&fields[1]), "id");
    let ps = field_prefixes(&fields);
    assert_eq!(ps, vec![b"{\"id\":".to_vec(), b",\"userName\":".to_vec()]);
    assert_eq!(static_capacity(&fields), 20);
    assert_eq!(static_capacity(&[]), 2);
}

#[test]
fn decode_borrows_without_escapes() {
    let raw: &[u8] = b"plain text";
    let s = kowito_json::KString::new(raw, false);
    match s.decode() {
        std::borrow::Cow::Borrowed(t) => assert_eq!(t.as_ptr(), raw.as_ptr()),
        std::borrow::Cow::Owned(_) => panic!("expected a borrowed string"),
    }
    let e = kowito_json::KString::new(br"a\tb", true);
    assert!(matches!(e.decode(), std::borrow::Cow::Owned(ref t) if t == "a\tb"));
}

#[test]
fn record_pieces() {
    let mut buf = Vec::new();
    write_unit(&mut buf);
    write_unit_variant(&mut buf, "Red");
    write_field(&mut buf, "n", true, &3u8);
    write_field(&mut buf, "s", false, "x");
    close_record(&mut buf, false);
    close_record(&mut buf, true);
    assert_eq!(String::from_utf8(buf).unwrap(), r#"null"Red"{"n":3,"s":"x"}{}"#);
}

#[test]
fn maps_keep_the_last_value_of_each_key() {
    let m: std::collections::HashMap<String, i32> = from_str(r#"{"a":1,"b":2,"a":3}"#).unwrap();
    assert_eq!(m.len(), 2);
    assert_eq!(m["a"], 3);
    assert_eq!(m["b"], 2);
    let b: std::collections::BTreeMap<String, i32> = from_str(r#"{"z":1,"y":2,"z":4}"#).unwrap();
    assert_eq!(b.into_iter().collect::<Vec<_>>(), vec![("y".to_string(), 2), ("z".to_string(), 4)]);
}

#[test]
fn variant_pieces() {
    let mut buf = Vec::new();
    write_newtype_variant(&mut buf, "N", &7u8);
    begin_tuple_variant(&mut buf, "T");
    write_tuple_item(&mut buf, true, &1u8);
    write_tuple_item(&mut buf, false, "x");
    end_tuple_variant(&mut buf);
    begin_struct_variant(&mut buf, "S");
    write_field(&mut buf, "a", true, &true);
    end_struct_variant(&mut buf, false);
    begin_struct_variant(&mut buf, "E");
    end_struct_variant(&mut buf, true);
    write_field_unless(&mut buf, "k", true, true, &1u8);
    write_field_unless(&mut buf, "k", true, false, &1u8);
    assert_eq!(
        String::from_utf8(buf).unwrap(),
        r#"{"N":7}{"T":[1,"x"]}{"S":{"a":true}}{"E":{}}{"k":1"#
    );
}

#[test]
fn variant_heads() {
    let mut p = Parser::new(br#""Red""#);
    assert_eq!(read_variant_head(&mut p).unwrap(), ("Red".to_string(), false));
    assert_eq!(p.pos, 2);
    let mut p = Parser::new(br#"{"Rgb":[1]}"#);
    assert_eq!(read_variant_head(&mut p).unwrap(), ("Rgb".to_string(), true));
    p.expect_colon().unwrap();
    p.skip_value().unwrap();
    end_variant_object(&mut p).unwrap();
    assert_eq!(p.pos, p.tape.len());
    let (msg, _, _) = parse_err(read_variant_head(&mut Parser::new(b"5")));
    assert_eq!(msg, "expected '{', got None");
    let mut p = Parser::new(br#"{"A":[]}"#);
    read_variant_head(&mut p).unwrap();
    assert!(end_variant_object(&mut p).is_err());
}

fn spec_field(name: &str, rename: Option<&str>, skip: bool) -> FieldSpec {
    FieldSpec { name: name.to_string(), rename: rename.map(|r| r.to_string()), skip }
}

#[test]
fn fields_are_matched_by_key() {
    let fields = vec![
        spec_field("id", Some("userId"), false),
        spec_field("name", None, false),
        spec_field("token", None, true),
        spec_field("other", Some("name"), false),
    ];
    assert_eq!(match_field(&fields, "userId"), Some(0));
    assert_eq!(match_field(&fields, "id"), None);
    assert_eq!(match_field(&fields, "name"), Some(1));
    assert_eq!(match_field(&fields, "token"), None);
    assert_eq!(match_field(&fields, ""), None);
}

#[test]
fn records_read_by_field() {
    let fields = vec![
        spec_field("id", Some("userId"), false),
        spec_field("name", None, false),
        spec_field("token", None, true),
    ];
    let src = br#"{"userId":7,"token":"s","extra":[1,{"x":2}],"name":"Bob","userId":8}"#;
    let mut p = Parser::new(src);
    let slots = read_record::<Value>(&mut p, &fields).unwrap();
    assert_eq!(p.pos, p.tape.len());
    assert_eq!(slots.len(), 3);
    assert_eq!(slots[0], Some(Value::Number("8".to_string())));
    assert_eq!(slots[1], Some(Value::Str("Bob".to_string())));
    assert_eq!(slots[2], None);
    let empty = read_record::<i64>(&mut Parser::new(b"{ }"), &fields).unwrap();
    assert_eq!(empty, vec![None, None, None]);
    assert!(read_record::<i64>(&mut Parser::new(br#"{"name":"x"}"#), &fields).is_err());
    assert!(read_record::<i64>(&mut Parser::new(b"[]"), &fields).is_err());
}
