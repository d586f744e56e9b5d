use tiny_json::lexer::Lexer;
use tiny_json::mapper::{Mapper, Value};

#[test]
pub fn test_mapper() {
    let input = r#"
    {
        "name": "John",
        "age": 30,
        "isActive": True,
        "cars": [
            {
                "name": "Ford",
                "plate": "20-13f"
            },
            {
                "name": "Fiat",
                "plate": "20-13f"
            }
        ]
    }
    "#.to_string();

    let token_list = Lexer::new(input).tokenize().unwrap();
    let mut mapper = Mapper::new(token_list);
    let object = mapper.parse_object().unwrap();
    let keys = object.entries.iter().map(|e| &e.0).collect::<Vec<&String>>();
    assert_eq!(keys, vec!["age", "cars", "isActive", "name"]);
    assert_eq!(object.get("name").unwrap().to_string(), "John");
    assert_eq!(object.get("age").unwrap().to_string(), "30");
    assert_eq!(object.get("isActive").unwrap().to_string(), "True");

    let cars = match object.get("cars").unwrap() {
        Value::Array(ref cars) => cars,
        _ => panic!("Expected array"),
    };

    let car1 = match cars[0] {
        Value::Object(ref car) => car,
        _ => panic!("Expected object"),
    };

    let car2 = match cars[1] {
        Value::Object(ref car) => car,
        _ => panic!("Expected object"),
    };

    assert_eq!(car1.get("name").unwrap().to_string(), "Ford");
    assert_eq!(car1.get("plate").unwrap().to_string(), "20-13f");
    assert_eq!(car2.get("name").unwrap().to_string(), "Fiat");
    assert_eq!(car2.get("plate").unwrap().to_string(), "20-13f");
}
