use rjson::parse;
use rjson::Decimal;
use rjson::JsonArray;
use rjson::JsonObject;
use rjson::JsonValue;

fn parse_json(data: &str) -> Option<JsonValue> {
    let data_array: Vec<char> = data.chars().collect();
    let mut index = 0;
    parse::<JsonValue, JsonArray, JsonObject, JsonValue>(&data_array, &mut index)
}

fn decimal_to_f64(d: &Decimal) -> f64 {
    let mut text = String::new();
    if d.negative {
        text.push('-');
    }
    text.push_str(&d.integer);
    if !d.fraction.is_empty() {
        text.push('.');
        text.push_str(&d.fraction);
    }
    if !d.exponent.is_empty() {
        text.push('e');
        if d.exp_negative {
            text.push('-');
        }
        text.push_str(&d.exponent);
    }
    text.parse::<f64>().unwrap()
}

fn f64_member(v: &JsonValue, key: &str) -> Option<f64> {
    v.decimal(key).map(decimal_to_f64)
}

#[test]
fn test_f64() {
    let json_val = parse_json(r#"{"number": 1.23}"#).unwrap();
    let val = f64_member(&json_val, "number").unwrap();
    assert_eq!(val, 1.23);

    let json_val = parse_json(r#"{"number": -1.23}"#).unwrap();
    let val = f64_member(&json_val, "number").unwrap();
    assert_eq!(val, -1.23);

    let json_val = parse_json(r#"{"number": 123}"#).unwrap();
    let val = f64_member(&json_val, "number");
    assert!(val.is_none());

    let json_val = parse_json(r#"{"number": -123}"#).unwrap();
    let val = f64_member(&json_val, "number");
    assert!(val.is_none());

    let json_val = parse_json(r#"{"number": "123"}"#).unwrap();
    let val = f64_member(&json_val, "number");
    assert!(val.is_none());

    let json_val = parse_json(r#"{"number": {}}"#).unwrap();
    let val = f64_member(&json_val, "number");
    assert!(val.is_none());

    let json_val = parse_json(r#"{"number": []}"#).unwrap();
    let val = f64_member(&json_val, "number");
    assert!(val.is_none());
}

#[test]
fn test_i64() {
    let json_val = parse_json(r#"{"number": 123}"#).unwrap();
    let val = json_val.i64("number");
    assert!(val.is_none());

    let json_val = parse_json(r#"{"number": -123}"#).unwrap();
    let val = json_val.i64("number").unwrap();
    assert_eq!(val, -123);

    let json_val = parse_json(r#"{"number": 1.23}"#).unwrap();
    let val = json_val.i64("number");
    assert!(val.is_none());

    let json_val = parse_json(r#"{"number": -1.23}"#).unwrap();
    let val = json_val.i64("number");
    assert!(val.is_none());

    let json_val = parse_json(r#"{"number": "123"}"#).unwrap();
    let val = json_val.i64("number");
    assert!(val.is_none());

    let json_val = parse_json(r#"{"number": {}}"#).unwrap();
    let val = json_val.i64("number");
    assert!(val.is_none());

    let json_val = parse_json(r#"{"number": []}"#).unwrap();
    let val = json_val.i64("number");
    assert!(val.is_none());
}

#[test]
fn test_u64() {
    let json_val = parse_json(r#"{"number": 123}"#).unwrap();
    let val = json_val.u64("number").unwrap();
    assert_eq!(val, 123);

    let json_val = parse_json(r#"{"number": -123}"#).unwrap();
    let val = json_val.u64("number");
    assert!(val.is_none());

    let json_val = parse_json(r#"{"number": 1.23}"#).unwrap();
    let val = json_val.u64("number");
    assert!(val.is_none());

    let json_val = parse_json(r#"{"number": -1.23}"#).unwrap();
    let val = json_val.u64("number");
    assert!(val.is_none());

    let json_val = parse_json(r#"{"number": "123"}"#).unwrap();
    let val = json_val.u64("number");
    assert!(val.is_none());

    let json_val = parse_json(r#"{"number": {}}"#).unwrap();
    let val = json_val.u64("number");
    assert!(val.is_none());

    let json_val = parse_json(r#"{"number": []}"#).unwrap();
    let val = json_val.u64("number");
    assert!(val.is_none());
}
