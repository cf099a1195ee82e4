use haversine_processor::json::parse_from_string;
use haversine_processor::pairs::{extract_pairs, CoordinatePair, SchemaError};

fn pair(x0: &str, y0: &str, x1: &str, y1: &str) -> CoordinatePair {
    CoordinatePair {
        x0: x0.to_string(),
        y0: y0.to_string(),
        x1: x1.to_string(),
        y1: y1.to_string(),
    }
}

#[test]
fn empty_pairs_give_no_pair() {
    let root = parse_from_string("{\"pairs\": []}".to_string()).unwrap();
    assert_eq!(extract_pairs(&root), Ok(vec![]));
}

#[test]
fn pairs_keep_their_order_and_positions() {
    let text = "{\"pairs\": [\
        {\"x0\": 0, \"y0\": 0, \"x1\": 0, \"y1\": 180},\
        {\"y1\": 4, \"x1\": 3, \"y0\": 2, \"x0\": 1},\
        {\"x0\": -1.5, \"y0\": 2e1, \"x1\": +3, \"y1\": 4, \"extra\": true}]}";
    let root = parse_from_string(text.to_string()).unwrap();
    assert_eq!(
        extract_pairs(&root),
        Ok(vec![
            pair("0", "0", "0", "180"),
            pair("4", "3", "2", "1"),
            pair("-1.5", "2e1", "+3", "4"),
        ])
    );
}

#[test]
fn pairs_must_be_the_first_member() {
    let root = parse_from_string("{\"other\": 1, \"pairs\": []}".to_string()).unwrap();
    assert_eq!(extract_pairs(&root), Err(SchemaError::MissingPairsField));
    let root = parse_from_string("[]".to_string()).unwrap();
    assert_eq!(extract_pairs(&root), Err(SchemaError::MissingPairsField));
    let root = parse_from_string("{\"pairs\": {\"a\": 1}}".to_string()).unwrap();
    assert_eq!(extract_pairs(&root), Err(SchemaError::MissingPairsField));
}

#[test]
fn short_element_is_not_a_pair() {
    let text = "{\"pairs\": [{\"a\":1,\"b\":2,\"c\":3,\"d\":4}, {\"a\":1,\"b\":2,\"c\":3}]}";
    let root = parse_from_string(text.to_string()).unwrap();
    assert_eq!(extract_pairs(&root), Err(SchemaError::NotAnObject { index: 1 }));
    let root = parse_from_string("{\"pairs\": [7]}".to_string()).unwrap();
    assert_eq!(extract_pairs(&root), Err(SchemaError::NotAnObject { index: 0 }));
}

#[test]
fn member_must_be_a_number() {
    let text = "{\"pairs\": [{\"a\":1,\"b\":2,\"c\":\"3\",\"d\":null}]}";
    let root = parse_from_string(text.to_string()).unwrap();
    assert_eq!(
        extract_pairs(&root),
        Err(SchemaError::NotANumber { index: 0, member: 2 })
    );
}
