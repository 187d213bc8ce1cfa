use json_parser::de::{Deserializer, Value};

#[test]
fn test_deserializer_parse() {
    // simple object
    let input = r#"
{
  "name": "jjsonsonpapaparser",
  "desc": "toy json parser",
  "true_key": true,
  "false_key": false,
  "null_key": null
}
"#;
    let mut deserializer = Deserializer::new(input);
    match deserializer.parse().unwrap() {
        Some(Value::Object(object)) => {
            assert_eq!(
                *object.get("name").unwrap(),
                Value::String("jjsonsonpapaparser".to_string())
            );
            assert_eq!(
                *object.get("desc").unwrap(),
                Value::String("toy json parser".to_string())
            );
            assert_eq!(object.get("missing_key"), None);
        }
        _ => panic!("Should be Object"),
    }

    // nested object
    let input = r#"
{
  "name": {
    "nested_name": "nested_name_value",
    "nested_desc": "nested_desc_value"
  },
  "desc": "toy json parser"
}
"#;
    let mut deserializer = Deserializer::new(input);
    match deserializer.parse().unwrap() {
        Some(Value::Object(object)) => {
            match object.get("name").unwrap() {
                Value::Object(nested_object) => {
                    assert_eq!(
                        *nested_object.get("nested_name").unwrap(),
                        Value::String("nested_name_value".to_string())
                    );
                    assert_eq!(
                        *nested_object.get("nested_desc").unwrap(),
                        Value::String("nested_desc_value".to_string())
                    );
                }
                _ => panic!("Should be nested Object"),
            }
            assert_eq!(
                *object.get("desc").unwrap(),
                Value::String("toy json parser".to_string())
            );
            assert_eq!(object.get("missing_key"), None);
        }
        _ => panic!("Should be Object"),
    }

    // array
    let input = r#"
[
  1,
  2,
  true,
  "abcd"
]
"#;
    let mut deserializer = Deserializer::new(input);
    match deserializer.parse().unwrap() {
        Some(Value::Array(array)) => {
            assert_eq!(array[0], Value::Number("1".to_string()));
            assert_eq!(array[1], Value::Number("2".to_string()));
            assert_eq!(array[2], Value::Bool(true));
            assert_eq!(array[3], Value::String("abcd".to_string()));
        }
        _ => panic!("Should be Array"),
    }
}
