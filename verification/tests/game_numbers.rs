use serde_json::{Number, Value};

const N: u64 = 20180304170;
const INPUT: &str = r#"{"gamePk": 20180304170}"#;

#[allow(non_snake_case)]
#[test]
fn gamePk_number() {
    let json: Value = serde_json::from_str(INPUT).unwrap();
    assert_eq!(json["gamePk"], Value::Number(Number::from(N)));
}

#[allow(non_snake_case)]
#[test]
fn gamePk_string() {
    let json: Value = serde_json::from_str(INPUT).unwrap();
    match &json["gamePk"] {
        Value::Number(n) => assert_eq!(n.to_string(), N.to_string()),
        other => panic!("not a number: {:?}", other),
    }
}
