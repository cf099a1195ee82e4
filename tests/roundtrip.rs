use haversine_processor::json::{parse_from_string, JSONValue};

fn to_text(v: &JSONValue) -> String {
    match v {
        JSONValue::Object(ms) => {
            let items: Vec<String> =
                ms.iter().map(|(k, v)| format!("\"{}\":{}", k, to_text(v))).collect();
            format!("{{{}}}", items.join(","))
        }
        JSONValue::Array(es) => {
            let items: Vec<String> = es.iter().map(to_text).collect();
            format!("[{}]", items.join(","))
        }
        JSONValue::String(s) => format!("\"{}\"", s),
        JSONValue::Number(t) => t.clone(),
        JSONValue::Boolean(b) => b.to_string(),
        JSONValue::Null => "null".to_string(),
    }
}

fn s(t: &str) -> String {
    t.to_string()
}

#[test]
fn canonical_text_parses_back() {
    let trees = vec![
        JSONValue::Null,
        JSONValue::Boolean(false),
        JSONValue::Number(s("-3.5E+2")),
        JSONValue::String(s("")),
        JSONValue::String(s("a b\\c")),
        JSONValue::Array(vec![]),
        JSONValue::Object(vec![]),
        JSONValue::Object(vec![
            (s("pairs"), JSONValue::Array(vec![
                JSONValue::Object(vec![
                    (s("x0"), JSONValue::Number(s("1"))),
                    (s("y0"), JSONValue::Number(s("2.5"))),
                    (s("x1"), JSONValue::Number(s("+3"))),
                    (s("y1"), JSONValue::Number(s("4e1"))),
                ]),
                JSONValue::Array(vec![JSONValue::Null, JSONValue::Boolean(true)]),
            ])),
            (s(""), JSONValue::String(s("x"))),
            (s("pairs"), JSONValue::Null),
        ]),
    ];
    for v in trees {
        let text = to_text(&v);
        assert_eq!(parse_from_string(text.clone()), Ok(v), "{text}");
    }
}
