use cycle_finder::cycles::CycleSet;
use cycle_finder::feed::{decode_pairs, pairs_of, FeedError};
use cycle_finder::graph::build_graph;
use cycle_finder::run::collect_cycles;
use serde_json::{Number, Value};

fn pair(a: &str, b: &str) -> (String, String) {
    (a.to_string(), b.to_string())
}

fn text(s: &str) -> Value {
    Value::String(s.to_string())
}

fn object(members: &[(&str, Value)]) -> Value {
    let mut map = serde_json::Map::new();
    for (key, value) in members {
        map.insert(key.to_string(), value.clone());
    }
    Value::Object(map)
}

fn entry(base: &str, quote: &str) -> Value {
    object(&[("baseAsset", text(base)), ("quoteAsset", text(quote))])
}

fn listing(entries: Vec<Value>) -> Value {
    object(&[("symbols", Value::Array(entries))])
}

#[test]
fn listing_decodes_to_its_pairs_in_order() {
    let body = r#"{"symbols":[
        {"symbol":"ETHBTC","baseAsset":"ETH","quoteAsset":"BTC"},
        {"symbol":"LTCBTC","baseAsset":"LTC","quoteAsset":"BTC"},
        {"symbol":"ETHUSDT","baseAsset":"ETH","quoteAsset":"USDT"}
    ]}"#;
    assert_eq!(
        decode_pairs(body),
        Ok(vec![pair("ETH", "BTC"), pair("LTC", "BTC"), pair("ETH", "USDT")])
    );
}

#[test]
fn other_members_are_passed_over() {
    let body = r#"{"timezone":"UTC","serverTime":1,"symbols":[
        {"status":"TRADING","quoteAsset":"BTC","permissions":[],"baseAsset":"ETH","n":2.5}
    ],"rateLimits":[]}"#;
    assert_eq!(decode_pairs(body), Ok(vec![pair("ETH", "BTC")]));
}

#[test]
fn empty_listing_decodes_to_no_pairs() {
    assert_eq!(decode_pairs(r#"{"symbols":[]}"#), Ok(Vec::new()));
}

#[test]
fn repeated_entries_are_kept() {
    let body = r#"{"symbols":[
        {"baseAsset":"A","quoteAsset":"B"},
        {"baseAsset":"A","quoteAsset":"B"},
        {"baseAsset":"B","quoteAsset":"A"}
    ]}"#;
    assert_eq!(decode_pairs(body), Ok(vec![pair("A", "B"), pair("A", "B"), pair("B", "A")]));
}

#[test]
fn escapes_in_strings_are_resolved() {
    let body = r#"{"symbols":[{"baseAsset":"é\"x","quoteAsset":"a\\b"}]}"#;
    assert_eq!(decode_pairs(body), Ok(vec![pair("\u{e9}\"x", "a\\b")]));
}

#[test]
fn text_that_is_no_json_is_refused() {
    assert_eq!(decode_pairs(""), Err(FeedError::Syntax));
    assert_eq!(decode_pairs("symbols"), Err(FeedError::Syntax));
    assert_eq!(decode_pairs(r#"{"symbols":["#), Err(FeedError::Syntax));
    assert_eq!(decode_pairs(r#"{"symbols":[]} x"#), Err(FeedError::Syntax));
    assert_eq!(decode_pairs(r#"{'symbols':[]}"#), Err(FeedError::Syntax));
}

#[test]
fn document_without_a_list_of_symbols_is_refused() {
    assert_eq!(decode_pairs("{}"), Err(FeedError::NoSymbols));
    assert_eq!(decode_pairs("[]"), Err(FeedError::NoSymbols));
    assert_eq!(decode_pairs("null"), Err(FeedError::NoSymbols));
    assert_eq!(decode_pairs("3"), Err(FeedError::NoSymbols));
    assert_eq!(decode_pairs(r#""symbols""#), Err(FeedError::NoSymbols));
    assert_eq!(decode_pairs(r#"{"symbols":3}"#), Err(FeedError::NoSymbols));
    assert_eq!(decode_pairs(r#"{"symbols":null}"#), Err(FeedError::NoSymbols));
    assert_eq!(decode_pairs(r#"{"symbols":"x"}"#), Err(FeedError::NoSymbols));
    assert_eq!(decode_pairs(r#"{"symbols":{"baseAsset":"A","quoteAsset":"B"}}"#), Err(FeedError::NoSymbols));
    assert_eq!(decode_pairs(r#"{"Symbols":[]}"#), Err(FeedError::NoSymbols));
    assert_eq!(decode_pairs(r#"{"data":{"symbols":[]}}"#), Err(FeedError::NoSymbols));
}

#[test]
fn entry_without_two_assets_is_refused_with_its_position() {
    assert_eq!(
        decode_pairs(r#"{"symbols":[{"baseAsset":"A"}]}"#),
        Err(FeedError::BadEntry(0))
    );
    assert_eq!(
        decode_pairs(r#"{"symbols":[{"baseAsset":"A","quoteAsset":"B"},{"quoteAsset":"B"}]}"#),
        Err(FeedError::BadEntry(1))
    );
    assert_eq!(
        decode_pairs(r#"{"symbols":[{"baseAsset":"A","quoteAsset":"B"},{"baseAsset":"A","quoteAsset":7},{}]}"#),
        Err(FeedError::BadEntry(1))
    );
    assert_eq!(
        decode_pairs(r#"{"symbols":[{"baseAsset":null,"quoteAsset":"B"}]}"#),
        Err(FeedError::BadEntry(0))
    );
    assert_eq!(
        decode_pairs(r#"{"symbols":[{"baseAsset":["A"],"quoteAsset":"B"}]}"#),
        Err(FeedError::BadEntry(0))
    );
    assert_eq!(
        decode_pairs(r#"{"symbols":[{"baseasset":"A","quoteAsset":"B"}]}"#),
        Err(FeedError::BadEntry(0))
    );
}

#[test]
fn entry_that_is_no_object_is_refused() {
    assert_eq!(decode_pairs(r#"{"symbols":["AB"]}"#), Err(FeedError::BadEntry(0)));
    assert_eq!(
        decode_pairs(r#"{"symbols":[{"baseAsset":"A","quoteAsset":"B"},{"baseAsset":"C","quoteAsset":"D"},[],1]}"#),
        Err(FeedError::BadEntry(2))
    );
}

#[test]
fn pairs_of_a_value_written_by_hand() {
    let doc = listing(vec![entry("ETH", "BTC"), entry("BNB", "ETH")]);
    assert_eq!(pairs_of(&doc), Ok(vec![pair("ETH", "BTC"), pair("BNB", "ETH")]));
}

#[test]
fn pairs_of_values_of_every_kind() {
    assert_eq!(pairs_of(&Value::Null), Err(FeedError::NoSymbols));
    assert_eq!(pairs_of(&Value::Bool(true)), Err(FeedError::NoSymbols));
    assert_eq!(pairs_of(&Value::Number(Number::from(3))), Err(FeedError::NoSymbols));
    assert_eq!(pairs_of(&text("symbols")), Err(FeedError::NoSymbols));
    assert_eq!(pairs_of(&Value::Array(vec![entry("A", "B")])), Err(FeedError::NoSymbols));
    assert_eq!(pairs_of(&object(&[])), Err(FeedError::NoSymbols));
    assert_eq!(pairs_of(&object(&[("symbols", entry("A", "B"))])), Err(FeedError::NoSymbols));
    assert_eq!(pairs_of(&listing(Vec::new())), Ok(Vec::new()));
}

#[test]
fn pairs_of_reports_the_first_bad_entry() {
    let doc = listing(vec![
        entry("A", "B"),
        object(&[("baseAsset", text("A")), ("quoteAsset", Value::Bool(false))]),
        Value::Null,
    ]);
    assert_eq!(pairs_of(&doc), Err(FeedError::BadEntry(1)));
    let short = listing(vec![object(&[("quoteAsset", text("B"))])]);
    assert_eq!(pairs_of(&short), Err(FeedError::BadEntry(0)));
}

#[test]
fn decoding_agrees_with_reading_then_taking_the_pairs() {
    let body = r#"{"symbols":[{"baseAsset":"X","quoteAsset":"Y"},{"baseAsset":"Y","quoteAsset":"Z"}]}"#;
    let doc: Value = serde_json::from_str(body).unwrap();
    assert_eq!(decode_pairs(body), pairs_of(&doc));
    assert_eq!(pairs_of(&doc), Ok(vec![pair("X", "Y"), pair("Y", "Z")]));
}

#[test]
fn listing_to_cycles() {
    let body = r#"{"symbols":[
        {"baseAsset":"ETH","quoteAsset":"BTC"},
        {"baseAsset":"BNB","quoteAsset":"BTC"},
        {"baseAsset":"BNB","quoteAsset":"ETH"},
        {"baseAsset":"BTC","quoteAsset":"USDT"},
        {"baseAsset":"ETH","quoteAsset":"USDT"},
        {"baseAsset":"BNB","quoteAsset":"ETH"}
    ]}"#;
    let graph = build_graph(&decode_pairs(body).unwrap());
    assert_eq!(graph.node_count(), 4);
    let mut cycles = CycleSet::new();
    collect_cycles(&mut cycles, &graph, &vec![3]);
    let found: Vec<Vec<String>> = (0..cycles.len()).map(|i| cycles.get(i).clone()).collect();
    let expected: Vec<Vec<String>> = vec![
        vec!["BNB".to_string(), "BTC".to_string(), "ETH".to_string()],
        vec!["BTC".to_string(), "ETH".to_string(), "USDT".to_string()],
    ];
    assert_eq!(found, expected);
}
