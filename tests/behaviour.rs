use rjson::is_space;
use rjson::parse;
use rjson::Decimal;
use rjson::JsonArray;
use rjson::JsonObject;
use rjson::JsonValue;
use rjson::Number;

fn run(text: &str) -> (Option<JsonValue>, usize) {
    let chars: Vec<char> = text.chars().collect();
    let mut index = 0;
    let r = parse::<JsonValue, JsonArray, JsonObject, JsonValue>(&chars, &mut index);
    (r, index)
}

fn value(text: &str) -> JsonValue {
    run(text).0.unwrap()
}

fn string_of(text: &str) -> String {
    match value(text) {
        JsonValue::String(s) => s,
        other => panic!("not a string: {:?}", other),
    }
}

fn decimal(negative: bool, integer: &str, fraction: &str, exp_negative: bool, exponent: &str) -> Decimal {
    Decimal {
        negative,
        integer: integer.to_string(),
        fraction: fraction.to_string(),
        exp_negative,
        exponent: exponent.to_string(),
    }
}

#[test]
fn number_classification() {
    assert_eq!(value("0"), JsonValue::Number(Number::U64(0)));
    assert_eq!(value("-0"), JsonValue::Number(Number::I64(0)));
    assert_eq!(value("3.0"), JsonValue::Number(Number::Float(decimal(false, "3", "0", false, ""))));
    assert_eq!(value("3e2"), JsonValue::Number(Number::Float(decimal(false, "3", "", false, "2"))));
    assert_eq!(value("123456789012"), JsonValue::Number(Number::U64(123456789012)));
    assert_eq!(
        value("-1.5E-3"),
        JsonValue::Number(Number::Float(decimal(true, "1", "5", true, "3")))
    );
    assert_eq!(value("2e+7"), JsonValue::Number(Number::Float(decimal(false, "2", "", false, "7"))));
}

#[test]
fn number_wraps_to_64_bits() {
    assert_eq!(value("18446744073709551615"), JsonValue::Number(Number::U64(u64::MAX)));
    assert_eq!(value("18446744073709551617"), JsonValue::Number(Number::U64(1)));
    assert_eq!(value("-9223372036854775808"), JsonValue::Number(Number::I64(i64::MIN)));
    assert_eq!(value("-18446744073709551615"), JsonValue::Number(Number::I64(1)));
}

#[test]
fn number_needs_digits() {
    assert!(run("-").0.is_none());
    assert!(run("-x").0.is_none());
    assert!(run("1e").0.is_none());
    assert!(run("1e+").0.is_none());
    assert!(run("1.").0.is_none());
    assert!(run("1.e5").0.is_none());
}

#[test]
fn number_leading_zero_stops() {
    let (r, index) = run("007");
    assert_eq!(r, Some(JsonValue::Number(Number::U64(0))));
    assert_eq!(index, 1);
    assert!(run("[007]").0.is_none());
}

#[test]
fn string_escapes() {
    assert_eq!(string_of("\"a\\nb\""), "a\nb");
    assert_eq!(string_of("\"\\u0041\""), "A");
    assert_eq!(string_of("\"\\uZZZZ\""), "\u{fffd}ZZZZ");
    assert_eq!(string_of("\"\\b\\f\\r\\t\\/\\\\\\\"\""), "\u{8}\u{c}\r\t/\\\"");
    assert_eq!(string_of("\"\\q\""), "q");
    assert_eq!(string_of("\"a\\\nb\""), "ab");
    assert_eq!(string_of("\"\\u00e9\\u4E2D\""), "\u{e9}\u{4e2d}");
    assert_eq!(string_of("\"\\u12\""), "\u{fffd}12");
}

#[test]
fn string_surrogate_halves_are_replaced() {
    assert_eq!(string_of("\"\\uD83D\\uDE00\""), "\u{fffd}\u{fffd}");
}

#[test]
fn trailing_comma_rejected() {
    assert!(run("[1,]").0.is_none());
    assert!(run("{\"a\":1,}").0.is_none());
    assert!(run("[,1]").0.is_none());
}

#[test]
fn empty_containers() {
    let (r, index) = run("{}");
    assert_eq!(r, Some(JsonValue::Object(JsonObject { entries: Vec::new() })));
    assert_eq!(index, 2);
    let (r, index) = run("[]");
    assert_eq!(r, Some(JsonValue::Array(Vec::new())));
    assert_eq!(index, 2);
    let (r, index) = run("[ ]  x");
    assert_eq!(r, Some(JsonValue::Array(Vec::new())));
    assert_eq!(index, 3);
}

#[test]
fn whitespace_tolerance() {
    let (spaced, index) = run("  {  \"k\"  :  1  }  ");
    assert_eq!(spaced, Some(value("{\"k\":1}")));
    assert_eq!(index, 17);
    assert_eq!(value("\u{3000}\t[\u{a0}true ,\nnull]"), value("[true,null]"));
}

#[test]
fn incomplete_input_fails() {
    assert!(run("{").0.is_none());
    assert!(run("[1,").0.is_none());
    assert!(run("\"unterminated").0.is_none());
    assert!(run("tru").0.is_none());
    assert!(run("").0.is_none());
    assert!(run("   ").0.is_none());
    assert!(run("{\"a\"").0.is_none());
    assert!(run("{\"a\" 1}").0.is_none());
    assert!(run("{1:2}").0.is_none());
    assert!(run("[1 2]").0.is_none());
    assert!(run("?").0.is_none());
}

#[test]
fn literals_at_end_of_input() {
    assert_eq!(run("true"), (Some(JsonValue::Bool(true)), 4));
    assert_eq!(run("false"), (Some(JsonValue::Bool(false)), 5));
    assert_eq!(run("null"), (Some(JsonValue::Null), 4));
    assert!(run("nul").0.is_none());
    assert!(run("fals").0.is_none());
}

#[test]
fn nested_document() {
    let doc = value("{\"a\": [1, -2, 3.5, \"x\", {\"b\": null}], \"c\": false}");
    let a = doc.get("a").unwrap();
    match a {
        JsonValue::Array(items) => {
            assert_eq!(items.len(), 5);
            assert_eq!(items[0], JsonValue::Number(Number::U64(1)));
            assert_eq!(items[1], JsonValue::Number(Number::I64(-2)));
            assert_eq!(items[3], JsonValue::String("x".to_string()));
            assert_eq!(items[4].get("b"), Some(&JsonValue::Null));
        }
        other => panic!("not an array: {:?}", other),
    }
    assert_eq!(doc.get("c"), Some(&JsonValue::Bool(false)));
    assert_eq!(doc.get("d"), None);
}

#[test]
fn duplicate_key_last_wins() {
    let doc = value("{\"k\": 1, \"j\": 2, \"k\": 3}");
    assert_eq!(doc.u64("k"), Some(3));
    assert_eq!(doc.u64("j"), Some(2));
}

#[test]
fn whole_input_consumed() {
    let text = "{\"list\": [1, 2, {\"deep\": [[], {}]}], \"s\": \"v\"}";
    let (r, index) = run(text);
    assert!(r.is_some());
    assert_eq!(index, text.chars().count());
}

#[test]
fn whitespace_classes() {
    assert!(is_space(' '));
    assert!(is_space('\t'));
    assert!(is_space('\n'));
    assert!(is_space('\r'));
    assert!(is_space('\u{3000}'));
    assert!(is_space('\u{2028}'));
    assert!(!is_space('a'));
    assert!(!is_space('\u{200b}'));
}

fn write_string(s: &str, out: &mut String) {
    out.push('"');
    for c in s.chars() {
        if c == '"' || c == '\\' {
            out.push('\\');
        }
        out.push(c);
    }
    out.push('"');
}

fn write_number(n: &Number, out: &mut String) {
    match n {
        Number::U64(v) => out.push_str(&v.to_string()),
        Number::I64(v) => out.push_str(&v.to_string()),
        Number::Float(d) => {
            if d.negative {
                out.push('-');
            }
            out.push_str(&d.integer);
            if !d.fraction.is_empty() {
                out.push('.');
                out.push_str(&d.fraction);
            }
            if !d.exponent.is_empty() {
                out.push('e');
                if d.exp_negative {
                    out.push('-');
                }
                out.push_str(&d.exponent);
            }
        }
    }
}

fn write_value(v: &JsonValue, out: &mut String) {
    match v {
        JsonValue::Null => out.push_str("null"),
        JsonValue::Bool(b) => out.push_str(if *b { "true" } else { "false" }),
        JsonValue::Number(n) => write_number(n, out),
        JsonValue::String(s) => write_string(s, out),
        JsonValue::Array(items) => {
            out.push('[');
            for (i, item) in items.iter().enumerate() {
                if i > 0 {
                    out.push(',');
                }
                write_value(item, out);
            }
            out.push(']');
        }
        JsonValue::Object(o) => {
            out.push('{');
            for (i, (k, item)) in o.entries.iter().enumerate() {
                if i > 0 {
                    out.push(',');
                }
                write_string(k, out);
                out.push(':');
                write_value(item, out);
            }
            out.push('}');
        }
    }
}

#[test]
fn round_trip_through_text() {
    let text = "{ \"a\" : [ 0, -7, 12.50e+3, -0.0E-0, \"q\\\"\\\\\", true ], \"b\" : { }, \"c\" : [ ] }";
    let first = value(text);
    let mut written = String::new();
    write_value(&first, &mut written);
    let (again, index) = run(&written);
    assert_eq!(again, Some(first));
    assert_eq!(index, written.chars().count());
}

#[test]
fn decimal_parts_are_exact() {
    let v = value("[-12.000340e-0071]");
    match v {
        JsonValue::Array(items) => {
            assert_eq!(
                items[0],
                JsonValue::Number(Number::Float(decimal(true, "12", "000340", true, "0071")))
            );
        }
        other => panic!("not an array: {:?}", other),
    }
}
