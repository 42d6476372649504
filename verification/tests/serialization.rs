use kowito_json::deser::{end_variant_object, read_record, read_variant_head};
use kowito_json::schema::{
    begin_struct_variant, begin_tuple_item, begin_tuple_variant, begin_variant, close_record, end_struct_variant, end_tuple_variant, end_variant,
    field_prefix, write_field, write_field_unless, write_tuple_item, write_unit, write_unit_variant,
    FieldSpec,
};
use kowito_json::value::Value;
use kowito_json::{Deserialize, Error, Parser};
use std::borrow::Cow;
use std::collections::{BTreeMap, HashMap};

// Record types written the way the schema binding writes them: each field's
// key prefix and value, then the record's end.

#[derive(Debug, Default)]
struct Child {
    pub id: i32,
    pub name: String,
}

impl Child {
    fn to_json_bytes(&self, buf: &mut Vec<u8>) {
        write_field(buf, "id", true, &self.id);
        write_field(buf, "name", false, &self.name);
        close_record(buf, false);
    }
}

#[derive(Debug, Default)]
struct Parent {
    pub child: Child,
    pub tags: Vec<String>,
    pub age: Option<u32>,
    pub nickname: Cow<'static, str>,
}

impl Parent {
    fn to_json_bytes(&self, buf: &mut Vec<u8>) {
        buf.extend_from_slice(&field_prefix("child", true));
        self.child.to_json_bytes(buf);
        write_field(buf, "tags", false, &self.tags);
        write_field(buf, "age", false, &self.age);
        write_field(buf, "nickname", false, &self.nickname);
        close_record(buf, false);
    }
}

#[test]
fn test_nested_serialization() {
    let parent = Parent {
        child: Child {
            id: 1,
            name: "child".to_string(),
        },
        tags: vec!["tag1".to_string(), "tag2".to_string()],
        age: Some(42),
        nickname: Cow::Borrowed("kowito"),
    };

    let mut buf = Vec::new();
    parent.to_json_bytes(&mut buf);
    let json = String::from_utf8(buf).unwrap();

    assert!(json.contains(r#""child":{"id":1,"name":"child"}"#));
    assert!(json.contains(r#""tags":["tag1","tag2"]"#));
    assert!(json.contains(r#""age":42"#));
    assert!(json.contains(r#""nickname":"kowito""#));

    let _: serde_json::Value = serde_json::from_str(&json).unwrap();
}

#[test]
fn test_option_null() {
    let parent = Parent {
        child: Child::default(),
        tags: vec![],
        age: None,
        nickname: Cow::Borrowed(""),
    };

    let mut buf = Vec::new();
    parent.to_json_bytes(&mut buf);
    let json = String::from_utf8(buf).unwrap();

    assert!(json.contains(r#""age":null"#));
    let _: serde_json::Value = serde_json::from_str(&json).unwrap();
}

#[derive(Debug, Default)]
struct StringTest {
    pub data: String,
}

impl StringTest {
    fn to_json_bytes(&self, buf: &mut Vec<u8>) {
        write_field(buf, "data", true, &self.data);
        close_record(buf, false);
    }
}

#[test]
fn test_string_escaping_edge_cases() {
    let cases = vec![
        "normal",
        "quote \"",
        "backslash \\",
        "newline \n",
        "tab \t",
        "control \x01\x1f",
        "mixed \" \\ \n \t \x0C",
        "Unicode: 🦀, 你好",
    ];

    for case in cases {
        let t = StringTest {
            data: case.to_string(),
        };
        let mut buf = Vec::new();
        t.to_json_bytes(&mut buf);
        let json = String::from_utf8(buf).unwrap();

        let parsed: serde_json::Value = serde_json::from_str(&json).unwrap();
        assert_eq!(parsed["data"], case, "Failed for case: {:?}", case);
    }
}

#[test]
fn test_long_string_simd_fast_path() {
    let long_safe = "this_is_a_very_long_string_that_should_not_require_any_escaping_".to_string();
    let long_with_escape =
        "this_is_a_very_long_string_that_should_not_require_any_escaping_\"".to_string();

    let t1 = StringTest {
        data: long_safe.clone(),
    };
    let mut buf = Vec::new();
    t1.to_json_bytes(&mut buf);
    let json1 = String::from_utf8(buf.clone()).unwrap();
    let p1: serde_json::Value = serde_json::from_str(&json1).unwrap();
    assert_eq!(p1["data"], long_safe);

    let t2 = StringTest {
        data: long_with_escape.clone(),
    };
    buf.clear();
    t2.to_json_bytes(&mut buf);
    let json2 = String::from_utf8(buf.clone()).unwrap();
    let p2: serde_json::Value = serde_json::from_str(&json2).unwrap();
    assert_eq!(p2["data"], long_with_escape);
}

/// A float written as Rust prints it; the library itself has no floats.
fn write_float(buf: &mut Vec<u8>, x: f64) {
    buf.extend_from_slice(format!("{}", x).as_bytes());
}

#[derive(Debug, PartialEq)]
enum Shape {
    Circle,
    Width(f64),
    Point(f64, f64),
    Rect { w: f64, h: f64 },
}

impl Shape {
    fn to_json_bytes(&self, buf: &mut Vec<u8>) {
        match self {
            Shape::Circle => write_unit_variant(buf, "Circle"),
            Shape::Width(x) => {
                begin_variant(buf, "Width");
                write_float(buf, *x);
                end_variant(buf);
            }
            Shape::Point(a, b) => {
                begin_tuple_variant(buf, "Point");
                begin_tuple_item(buf, true);
                write_float(buf, *a);
                begin_tuple_item(buf, false);
                write_float(buf, *b);
                end_tuple_variant(buf);
            }
            Shape::Rect { w, h } => {
                begin_struct_variant(buf, "Rect");
                buf.extend_from_slice(&field_prefix("w", true));
                write_float(buf, *w);
                buf.extend_from_slice(&field_prefix("h", false));
                write_float(buf, *h);
                end_struct_variant(buf, false);
            }
        }
    }
}

#[test]
fn test_enum_unit_variant() {
    let mut buf = Vec::new();
    Shape::Circle.to_json_bytes(&mut buf);
    assert_eq!(String::from_utf8(buf).unwrap(), r#""Circle""#);
}

#[test]
fn test_enum_newtype_variant() {
    let mut buf = Vec::new();
    Shape::Width(3.14).to_json_bytes(&mut buf);
    let json = String::from_utf8(buf).unwrap();
    let v: serde_json::Value = serde_json::from_str(&json).unwrap();
    assert_eq!(v["Width"], 3.14);
}

#[test]
fn test_enum_tuple_variant() {
    let mut buf = Vec::new();
    Shape::Point(1.0, 2.0).to_json_bytes(&mut buf);
    let json = String::from_utf8(buf).unwrap();
    let v: serde_json::Value = serde_json::from_str(&json).unwrap();
    assert_eq!(v["Point"][0], 1.0);
    assert_eq!(v["Point"][1], 2.0);
}

#[test]
fn test_enum_struct_variant() {
    let mut buf = Vec::new();
    Shape::Rect { w: 4.0, h: 5.0 }.to_json_bytes(&mut buf);
    let json = String::from_utf8(buf).unwrap();
    let v: serde_json::Value = serde_json::from_str(&json).unwrap();
    assert_eq!(v["Rect"]["w"], 4.0);
    assert_eq!(v["Rect"]["h"], 5.0);
}

#[derive(Debug)]
struct Marker;

impl Marker {
    fn to_json_bytes(&self, buf: &mut Vec<u8>) {
        write_unit(buf);
    }
}

#[test]
fn test_unit_struct() {
    let mut buf = Vec::new();
    Marker.to_json_bytes(&mut buf);
    assert_eq!(String::from_utf8(buf).unwrap(), "null");
}

#[derive(Debug)]
struct ApiUser {
    pub id: u64,
    pub name: String,
    pub internal_token: String,
}

impl ApiUser {
    fn to_json_bytes(&self, buf: &mut Vec<u8>) {
        write_field(buf, "userId", true, &self.id);
        write_field(buf, "name", false, &self.name);
        close_record(buf, false);
    }
}

#[test]
fn test_kjson_rename_and_skip() {
    let u = ApiUser {
        id: 7,
        name: "Bob".to_string(),
        internal_token: "secret".to_string(),
    };
    assert_eq!(u.internal_token, "secret");
    let mut buf = Vec::new();
    u.to_json_bytes(&mut buf);
    let json = String::from_utf8(buf).unwrap();
    let v: serde_json::Value = serde_json::from_str(&json).unwrap();
    assert_eq!(v["userId"], 7);
    assert_eq!(v["name"], "Bob");
    assert!(v.get("internal_token").is_none(), "skipped field must not appear");
    assert!(v.get("id").is_none(), "original field name must not appear after rename");
}

fn is_zero(v: &u32) -> bool {
    *v == 0
}

#[derive(Debug)]
struct Metrics {
    pub hits: u32,
    pub errors: u32,
}

impl Metrics {
    fn to_json_bytes(&self, buf: &mut Vec<u8>) {
        write_field(buf, "hits", true, &self.hits);
        write_field_unless(buf, "errors", false, is_zero(&self.errors), &self.errors);
        close_record(buf, false);
    }
}

#[test]
fn test_kjson_skip_serializing_if() {
    let m_with = Metrics { hits: 10, errors: 5 };
    let mut buf = Vec::new();
    m_with.to_json_bytes(&mut buf);
    let json = String::from_utf8(buf).unwrap();
    assert!(json.contains("\"errors\":5"));

    let m_zero = Metrics { hits: 10, errors: 0 };
    let mut buf2 = Vec::new();
    m_zero.to_json_bytes(&mut buf2);
    let json2 = String::from_utf8(buf2).unwrap();
    assert!(!json2.contains("errors"), "zero errors field should be skipped");
}

#[test]
fn test_deser_vec_of_primitives() {
    let nums: Vec<i32> = kowito_json::from_str("[1,2,3,4,5]").unwrap();
    assert_eq!(nums, vec![1, 2, 3, 4, 5]);
}

#[test]
fn test_deser_empty_vec() {
    let v: Vec<u64> = kowito_json::from_str("[]").unwrap();
    assert!(v.is_empty());
}

#[test]
fn test_deser_string_with_escapes() {
    let s: String = kowito_json::from_str(r#""hello \"world\"""#).unwrap();
    assert_eq!(s, r#"hello "world""#);
}

#[test]
fn test_deser_hashmap() {
    let json = r#"{"a":1,"b":2,"c":3}"#;
    let map: HashMap<String, i32> = kowito_json::from_str(json).unwrap();
    assert_eq!(map["a"], 1);
    assert_eq!(map["b"], 2);
    assert_eq!(map["c"], 3);
    assert_eq!(map.len(), 3);
}

#[test]
fn test_deser_btreemap() {
    let json = r#"{"x":10,"y":20}"#;
    let map: BTreeMap<String, i32> = kowito_json::from_str(json).unwrap();
    assert_eq!(map["x"], 10);
    assert_eq!(map["y"], 20);
}

#[test]
fn test_deser_hashmap_empty() {
    let map: HashMap<String, i32> = kowito_json::from_str("{}").unwrap();
    assert!(map.is_empty());
}

#[test]
fn test_value_null() {
    let v: kowito_json::Value = kowito_json::from_str("null").unwrap();
    assert!(matches!(v, kowito_json::Value::Null));
}

#[test]
fn test_value_bool_true() {
    let v: kowito_json::Value = kowito_json::from_str("true").unwrap();
    assert!(matches!(v, kowito_json::Value::Bool(true)));
}

#[test]
fn test_value_bool_false() {
    let v: kowito_json::Value = kowito_json::from_str("false").unwrap();
    assert!(matches!(v, kowito_json::Value::Bool(false)));
}

#[test]
fn test_value_number() {
    let v: kowito_json::Value = kowito_json::from_str("42").unwrap();
    if let kowito_json::Value::Number(n) = v {
        assert_eq!(n, "42");
    } else {
        panic!("expected Number");
    }
}

#[test]
fn test_value_string() {
    let v: kowito_json::Value = kowito_json::from_str(r#""hello""#).unwrap();
    if let kowito_json::Value::Str(s) = v {
        assert_eq!(s, "hello");
    } else {
        panic!("expected Str");
    }
}

#[test]
fn test_value_array() {
    let v: kowito_json::Value = kowito_json::from_str("[1,2,3]").unwrap();
    if let kowito_json::Value::Array(arr) = v {
        assert_eq!(arr.len(), 3);
    } else {
        panic!("expected Array");
    }
}

#[test]
fn test_value_object() {
    let v: kowito_json::Value = kowito_json::from_str(r#"{"k":"v"}"#).unwrap();
    if let kowito_json::Value::Object(pairs) = v {
        assert_eq!(pairs.len(), 1);
        assert_eq!(pairs[0].0, "k");
    } else {
        panic!("expected Object");
    }
}

#[test]
fn test_value_nested() {
    let json = r#"{"arr":[1,null,true],"obj":{"x":42}}"#;
    let v: kowito_json::Value = kowito_json::from_str(json).unwrap();
    assert!(matches!(v, kowito_json::Value::Object(_)));
}

#[test]
fn test_from_slice_valid_utf8() {
    let bytes = b"\"hello\"";
    let s: String = kowito_json::from_slice(bytes).unwrap();
    assert_eq!(s, "hello");
}

#[test]
fn test_from_slice_invalid_utf8() {
    let bad: &[u8] = &[0xFF, 0xFE, b'"', b'x', b'"'];
    let result: kowito_json::Result<String> = kowito_json::from_slice(bad);
    assert!(result.is_err(), "invalid UTF-8 must return an error");
}

#[test]
fn test_error_contains_line_col() {
    let json = "{\n  \"key\": INVALID\n}";
    let result: kowito_json::Result<std::collections::HashMap<String, String>> =
        kowito_json::from_str(json);
    assert!(result.is_err());
}

// ---------------------------------------------------------------------------
// Records and enums read the way the schema binding reads them
// ---------------------------------------------------------------------------

fn field(name: &str) -> FieldSpec {
    FieldSpec { name: name.to_string(), rename: None, skip: false }
}

#[derive(Debug, PartialEq, Default)]
struct DeUser {
    pub id: u64,
    pub name: String,
    pub active: bool,
    pub score: f64,
    pub age: Option<u32>,
}

fn number_text(v: &Option<Value>) -> Option<String> {
    match v {
        Some(Value::Number(s)) => Some(s.clone()),
        _ => None,
    }
}

impl DeUser {
    fn fields() -> Vec<FieldSpec> {
        vec![field("id"), field("name"), field("active"), field("score"), field("age")]
    }

    fn from_json(json: &str) -> kowito_json::Result<DeUser> {
        let mut p = Parser::new(json.as_bytes());
        let slots = read_record::<Value>(&mut p, &DeUser::fields())?;
        Ok(DeUser {
            id: number_text(&slots[0]).map(|s| s.parse().unwrap()).unwrap_or_default(),
            name: match &slots[1] {
                Some(Value::Str(s)) => s.clone(),
                _ => String::new(),
            },
            active: matches!(slots[2], Some(Value::Bool(true))),
            score: number_text(&slots[3]).map(|s| s.parse().unwrap()).unwrap_or_default(),
            age: number_text(&slots[4]).map(|s| s.parse().unwrap()),
        })
    }

    fn to_json_bytes(&self, buf: &mut Vec<u8>) {
        write_field(buf, "id", true, &self.id);
        write_field(buf, "name", false, &self.name);
        write_field(buf, "active", false, &self.active);
        buf.extend_from_slice(&field_prefix("score", false));
        write_float(buf, self.score);
        write_field(buf, "age", false, &self.age);
        close_record(buf, false);
    }
}

#[test]
fn test_deser_basic_struct() {
    let json = r#"{"id":42,"name":"Alice","active":true,"score":9.5,"age":null}"#;
    let user = DeUser::from_json(json).unwrap();
    assert_eq!(user.id, 42);
    assert_eq!(user.name, "Alice");
    assert!(user.active);
    assert!((user.score - 9.5).abs() < 1e-9);
    assert_eq!(user.age, None);
}

#[test]
fn test_deser_optional_field_present() {
    let json = r#"{"id":1,"name":"Bob","active":false,"score":0.0,"age":30}"#;
    let user = DeUser::from_json(json).unwrap();
    assert_eq!(user.age, Some(30));
}

#[test]
fn test_deser_unknown_fields_ignored() {
    let json = r#"{"id":7,"name":"Carol","active":true,"score":1.0,"age":null,"extra":"ignored"}"#;
    let user = DeUser::from_json(json).unwrap();
    assert_eq!(user.id, 7);
    assert_eq!(user.name, "Carol");
}

#[test]
fn test_deser_roundtrip() {
    let original = DeUser {
        id: 99,
        name: "RoundTrip".to_string(),
        active: true,
        score: 3.14,
        age: Some(25),
    };
    let mut buf = Vec::new();
    original.to_json_bytes(&mut buf);
    let json = String::from_utf8(buf).unwrap();

    let decoded = DeUser::from_json(&json).unwrap();
    assert_eq!(original, decoded);
}

#[derive(Debug, PartialEq)]
enum Color {
    Red,
    Green,
    Blue,
    Rgb(u8, u8, u8),
    Named { name: String },
}

impl Color {
    fn to_json_bytes(&self, buf: &mut Vec<u8>) {
        match self {
            Color::Red => write_unit_variant(buf, "Red"),
            Color::Green => write_unit_variant(buf, "Green"),
            Color::Blue => write_unit_variant(buf, "Blue"),
            Color::Rgb(r, g, b) => {
                begin_tuple_variant(buf, "Rgb");
                write_tuple_item(buf, true, r);
                write_tuple_item(buf, false, g);
                write_tuple_item(buf, false, b);
                end_tuple_variant(buf);
            }
            Color::Named { name } => {
                begin_struct_variant(buf, "Named");
                write_field(buf, "name", true, name);
                end_struct_variant(buf, false);
            }
        }
    }

    fn read(p: &mut Parser<'_>) -> kowito_json::Result<Color> {
        let (name, in_object) = read_variant_head(p)?;
        let unit = match name.as_str() {
            "Red" => Some(Color::Red),
            "Green" => Some(Color::Green),
            "Blue" => Some(Color::Blue),
            _ => None,
        };
        if !in_object {
            return unit.ok_or_else(|| Error::custom("unknown unit enum variant"));
        }
        if let Some(c) = unit {
            return Ok(c);
        }
        let c = match name.as_str() {
            "Rgb" => {
                p.expect_colon()?;
                p.begin_array()?;
                let r = u8::deserialize(p)?;
                p.array_next()?;
                let g = u8::deserialize(p)?;
                p.array_next()?;
                let b = u8::deserialize(p)?;
                p.array_next()?;
                Color::Rgb(r, g, b)
            }
            "Named" => {
                p.expect_colon()?;
                let slots = read_record::<String>(p, &[field("name")])?;
                Color::Named { name: slots[0].clone().unwrap_or_default() }
            }
            _ => return Err(Error::custom("unknown enum variant")),
        };
        end_variant_object(p)?;
        Ok(c)
    }

    fn from_json(json: &str) -> kowito_json::Result<Color> {
        Color::read(&mut Parser::new(json.as_bytes()))
    }
}

#[test]
fn test_enum_deserialization() {
    // Unit variant
    let c = Color::from_json(r#"{"Red":null}"#).unwrap();
    assert_eq!(c, Color::Red);
    // Newtype variant
    let c = Color::from_json(r#"{"Rgb":[10,20,30]}"#).unwrap();
    assert_eq!(c, Color::Rgb(10, 20, 30));
    // Struct variant
    let c = Color::from_json(r#"{"Named":{"name":"purple"}}"#).unwrap();
    assert_eq!(c, Color::Named { name: "purple".to_string() });
    // Roundtrip
    let orig = Color::Green;
    let mut buf = Vec::new();
    orig.to_json_bytes(&mut buf);
    let json = String::from_utf8(buf).unwrap();
    let parsed = Color::from_json(&json).unwrap();
    assert_eq!(parsed, orig);
}

#[test]
fn enum_variants_write_and_read_back() {
    for c in [
        Color::Blue,
        Color::Rgb(1, 2, 3),
        Color::Named { name: "a\"b".to_string() },
    ] {
        let mut buf = Vec::new();
        c.to_json_bytes(&mut buf);
        let json = String::from_utf8(buf).unwrap();
        assert_eq!(Color::from_json(&json).unwrap(), c);
    }
    let mut buf = Vec::new();
    Color::Rgb(1, 2, 3).to_json_bytes(&mut buf);
    assert_eq!(String::from_utf8(buf).unwrap(), r#"{"Rgb":[1,2,3]}"#);
    assert!(Color::from_json(r#""Purple""#).is_err());
    assert!(Color::from_json(r#"{"Purple":1}"#).is_err());
}
