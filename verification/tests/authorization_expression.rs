use accumulo_access::json::{composite_json_text, JsonMember, JsonValue};
use accumulo_access::lexer::Operator;
use accumulo_access::text::Comparison;
use accumulo_access::{AuthorizationExpression, Authorizations};

fn token(value: &str) -> AuthorizationExpression {
    AuthorizationExpression::AccessToken(value.to_string())
}

fn and(nodes: Vec<AuthorizationExpression>) -> AuthorizationExpression {
    AuthorizationExpression::ConjunctionOf(nodes)
}

fn or(nodes: Vec<AuthorizationExpression>) -> AuthorizationExpression {
    AuthorizationExpression::DisjunctionOf(nodes)
}

fn held(values: &[&str]) -> Authorizations {
    Authorizations::new(values)
}

fn to_serde(value: &JsonValue) -> serde_json::Value {
    match value {
        JsonValue::Null => serde_json::Value::Null,
        JsonValue::Bool(b) => serde_json::Value::Bool(*b),
        JsonValue::Number(text) => serde_json::Value::Number(text.parse().unwrap()),
        JsonValue::String(text) => serde_json::Value::String(text.clone()),
        JsonValue::Array(items) => serde_json::Value::Array(items.iter().map(to_serde).collect()),
        JsonValue::Object(members) => serde_json::Value::Object(
            members
                .iter()
                .map(|member| (member.key.clone(), to_serde(&member.value)))
                .collect(),
        ),
    }
}

fn from_serde(value: &serde_json::Value) -> JsonValue {
    match value {
        serde_json::Value::Null => JsonValue::Null,
        serde_json::Value::Bool(b) => JsonValue::Bool(*b),
        serde_json::Value::Number(n) => JsonValue::Number(n.to_string()),
        serde_json::Value::String(text) => JsonValue::String(text.clone()),
        serde_json::Value::Array(items) => JsonValue::Array(items.iter().map(from_serde).collect()),
        serde_json::Value::Object(members) => JsonValue::Object(
            members
                .iter()
                .map(|(key, value)| JsonMember { key: key.clone(), value: from_serde(value) })
                .collect(),
        ),
    }
}

fn parse_json(text: &str) -> JsonValue {
    let value: serde_json::Value = serde_json::from_str(text).unwrap();
    from_serde(&value)
}

#[test]
fn some_basic_equality_and_ordering_tests() {
    assert_eq!(
        AuthorizationExpression::AccessToken("A".to_string()),
        AuthorizationExpression::AccessToken("A".to_string())
    );
    assert_ne!(
        AuthorizationExpression::AccessToken("A".to_string()),
        AuthorizationExpression::AccessToken("B".to_string())
    );

    assert_eq!(
        AuthorizationExpression::ConjunctionOf(vec![
            AuthorizationExpression::AccessToken("A".to_string()),
            AuthorizationExpression::AccessToken("B".to_string()),
        ]),
        AuthorizationExpression::ConjunctionOf(vec![
            AuthorizationExpression::AccessToken("B".to_string()),
            AuthorizationExpression::AccessToken("A".to_string()),
        ])
    );

    assert_eq!(
        AuthorizationExpression::DisjunctionOf(vec![
            AuthorizationExpression::AccessToken("A".to_string()),
            AuthorizationExpression::AccessToken("B".to_string()),
        ]),
        AuthorizationExpression::DisjunctionOf(vec![
            AuthorizationExpression::AccessToken("B".to_string()),
            AuthorizationExpression::AccessToken("A".to_string()),
        ])
    );
}

#[test]
fn new_expr_from_json() {
    let json = parse_json("{\"and\": [\"A\", {\"or\": [\"B\", \"C\"]}]}");
    let expr = AuthorizationExpression::from_json(&json).unwrap();
    assert_eq!(
        expr,
        AuthorizationExpression::ConjunctionOf(vec![
            AuthorizationExpression::AccessToken("A".to_string()),
            AuthorizationExpression::DisjunctionOf(vec![
                AuthorizationExpression::AccessToken("B".to_string()),
                AuthorizationExpression::AccessToken("C".to_string()),
            ]),
        ])
    );
}

#[test]
fn test_normalize1() {
    let mut expr = AuthorizationExpression::ConjunctionOf(vec![
        AuthorizationExpression::AccessToken("B".to_string()),
        AuthorizationExpression::AccessToken("A".to_string()),
        AuthorizationExpression::AccessToken("B".to_string()),
        AuthorizationExpression::AccessToken("B".to_string()),
        AuthorizationExpression::DisjunctionOf(vec![
            AuthorizationExpression::AccessToken("C".to_string()),
            AuthorizationExpression::AccessToken("D".to_string()),
            AuthorizationExpression::AccessToken("D".to_string()),
            AuthorizationExpression::AccessToken("D".to_string()),
            AuthorizationExpression::AccessToken("D".to_string()),
            AuthorizationExpression::AccessToken("D".to_string()),
        ]),
    ]);

    expr.normalize();

    assert_eq!(
        expr,
        AuthorizationExpression::ConjunctionOf(vec![
            AuthorizationExpression::AccessToken("B".to_string()),
            AuthorizationExpression::AccessToken("A".to_string()),
            AuthorizationExpression::DisjunctionOf(vec![
                AuthorizationExpression::AccessToken("D".to_string()),
                AuthorizationExpression::AccessToken("C".to_string()),
            ]),
        ])
    );
}

#[test]
fn normalize_gives_the_sorted_shape() {
    let mut expr = and(vec![
        token("B"),
        token("A"),
        token("B"),
        or(vec![token("D"), token("C"), token("D")]),
        AuthorizationExpression::Nil,
    ]);
    expr.normalize();
    assert_eq!(expr.to_json_str(), "{\"and\":[null,{\"or\":[\"C\",\"D\"]},\"A\",\"B\"]}");
}

#[test]
fn normalize_twice_is_normalize_once() {
    let mut once = and(vec![
        or(vec![token("z"), token("a"), and(vec![token("q"), token("q")])]),
        token("m"),
        or(vec![token("a"), token("z"), and(vec![token("q")])]),
        token("m"),
    ]);
    once.normalize();
    let mut twice = once.clone();
    twice.normalize();
    assert_eq!(once.to_json_str(), twice.to_json_str());
    assert_eq!(once.compare(&twice), Comparison::Equal);
    assert_eq!(
        once.to_json_str(),
        "{\"and\":[{\"or\":[{\"and\":[\"q\"]},\"a\",\"z\"]},\"m\"]}"
    );
}

#[test]
fn normalize_leaves_leaves_alone() {
    let mut leaf = token("A");
    leaf.normalize();
    assert_eq!(leaf.compare(&token("A")), Comparison::Equal);
    let mut nil = AuthorizationExpression::Nil;
    nil.normalize();
    assert_eq!(nil.compare(&AuthorizationExpression::Nil), Comparison::Equal);
}

#[test]
fn normalize_keeps_what_evaluates() {
    let expr = and(vec![token("B"), or(vec![token("D"), token("C"), token("D")]), token("B")]);
    let mut normal = expr.clone();
    normal.normalize();
    for tokens in [
        vec![],
        vec!["B"],
        vec!["C"],
        vec!["B", "C"],
        vec!["B", "D"],
        vec!["C", "D"],
        vec!["B", "C", "D"],
    ] {
        let authorizations = held(&tokens);
        assert_eq!(expr.evaluate(&authorizations), normal.evaluate(&authorizations));
    }
}

#[test]
fn equality_ignores_order_and_repetition_at_every_level() {
    assert_eq!(
        and(vec![or(vec![token("A"), token("A"), token("B")]), token("C")]),
        and(vec![token("C"), or(vec![token("B"), token("A")]), token("C")])
    );
    assert_ne!(and(vec![token("A"), token("B")]), or(vec![token("A"), token("B")]));
    assert_ne!(and(vec![token("A")]), token("A"));
    assert_ne!(and(vec![token("A"), token("B")]), and(vec![token("A")]));
    assert_ne!(and(vec![]), AuthorizationExpression::Nil);
    assert_eq!(AuthorizationExpression::Nil, AuthorizationExpression::Nil);
    assert_eq!(and(vec![]), and(vec![]));
    assert!(and(vec![token("A"), token("B")]).equals(&and(vec![token("B"), token("A")])));
}

#[test]
fn evaluation_follows_the_truth_table() {
    let expr = and(vec![token("A"), or(vec![token("B"), token("C")])]);
    assert!(!expr.evaluate(&held(&[])));
    assert!(!expr.evaluate(&held(&["A"])));
    assert!(!expr.evaluate(&held(&["B"])));
    assert!(!expr.evaluate(&held(&["B", "C"])));
    assert!(expr.evaluate(&held(&["A", "B"])));
    assert!(expr.evaluate(&held(&["A", "C"])));
    assert!(expr.evaluate(&held(&["A", "B", "C"])));
}

#[test]
fn evaluation_of_degenerate_expressions() {
    assert!(AuthorizationExpression::Nil.evaluate(&held(&[])));
    assert!(and(vec![]).evaluate(&held(&[])));
    assert!(!or(vec![]).evaluate(&held(&["A"])));
    assert!(token("A").evaluate(&held(&["A"])));
    assert!(!token("A").evaluate(&held(&["a"])));
    assert!(token("").evaluate(&held(&[""])));
}

#[test]
fn builders_make_the_variants() {
    let conjunction = AuthorizationExpression::and(vec![token("A"), token("B")]);
    assert_eq!(conjunction.to_json_str(), "{\"and\":[\"A\",\"B\"]}");
    let disjunction = AuthorizationExpression::or(vec![token("A"), token("B")]);
    assert_eq!(disjunction.to_json_str(), "{\"or\":[\"A\",\"B\"]}");
    let leaf = AuthorizationExpression::access_token("A".to_string());
    assert_eq!(leaf.to_json_str(), "\"A\"");
}

#[test]
fn compare_orders_nil_then_composites_then_tokens() {
    let nil = AuthorizationExpression::Nil;
    assert_eq!(nil.compare(&nil), Comparison::Equal);
    assert_eq!(nil.compare(&and(vec![])), Comparison::Less);
    assert_eq!(and(vec![]).compare(&nil), Comparison::Greater);
    assert_eq!(or(vec![token("z")]).compare(&token("a")), Comparison::Less);
    assert_eq!(token("a").compare(&or(vec![token("z")])), Comparison::Greater);
    assert_eq!(token("a").compare(&token("b")), Comparison::Less);
    assert_eq!(token("b").compare(&token("a")), Comparison::Greater);
    assert_eq!(token("a").compare(&token("ab")), Comparison::Less);
    assert_eq!(token("é").compare(&token("z")), Comparison::Greater);
    assert_eq!(token("abc").compare(&token("abc")), Comparison::Equal);
}

#[test]
fn compare_orders_composites_by_their_children() {
    assert_eq!(
        and(vec![token("a"), token("b")]).compare(&and(vec![token("a"), token("c")])),
        Comparison::Less
    );
    assert_eq!(and(vec![token("a")]).compare(&and(vec![token("a"), token("a")])), Comparison::Less);
    assert_eq!(and(vec![token("b")]).compare(&or(vec![token("a")])), Comparison::Greater);
    assert_eq!(and(vec![token("a")]).compare(&or(vec![token("a")])), Comparison::Less);
    assert_eq!(or(vec![token("a")]).compare(&and(vec![token("a")])), Comparison::Greater);
    assert_eq!(or(vec![token("a")]).compare(&or(vec![token("a")])), Comparison::Equal);
}

#[test]
fn expression_text_joins_children() {
    assert_eq!(and(vec![token("A"), token("B")]).to_expression_str(), "A&B");
    assert_eq!(or(vec![token("A"), token("B")]).to_expression_str(), "A|B");
    assert_eq!(AuthorizationExpression::Nil.to_expression_str(), "");
    assert_eq!(token("A").to_expression_str(), "A");
    assert_eq!(and(vec![]).to_expression_str(), "");
    assert_eq!(or(vec![token("A")]).to_expression_str(), "A");
}

#[test]
fn expression_text_parenthesizes_the_other_operator() {
    assert_eq!(
        and(vec![token("A"), or(vec![token("B"), token("C")])]).to_expression_str(),
        "A&(B|C)"
    );
    assert_eq!(
        or(vec![and(vec![token("A"), token("B")]), token("C")]).to_expression_str(),
        "(A&B)|C"
    );
    assert_eq!(
        and(vec![token("A"), and(vec![token("B"), token("C")])]).to_expression_str(),
        "A&B&C"
    );
    assert_eq!(
        or(vec![token("A"), and(vec![token("B"), or(vec![token("C"), token("D")])])])
            .to_expression_str(),
        "A|(B&(C|D))"
    );
}

#[test]
fn json_text_is_what_serde_json_writes() {
    let expr = and(vec![
        token("A"),
        or(vec![token("B \"quoted\" \\ \n\t\u{1} é 🕺"), AuthorizationExpression::Nil]),
        and(vec![]),
    ]);
    assert_eq!(expr.to_json_str(), to_serde(&expr.to_json()).to_string());
    assert_eq!(
        expr.to_json_str(),
        "{\"and\":[\"A\",{\"or\":[\"B \\\"quoted\\\" \\\\ \\n\\t\\u0001 é 🕺\",null]},{\"and\":[]}]}"
    );
    assert_eq!(AuthorizationExpression::Nil.to_json_str(), "null");
    assert_eq!(token("A").to_json_str(), "\"A\"");
}

#[test]
fn to_json_gives_the_documented_shapes() {
    let expr = and(vec![token("A"), token("B")]);
    let expected: serde_json::Value = serde_json::from_str("{\"and\": [\"A\", \"B\"]}").unwrap();
    assert_eq!(to_serde(&expr.to_json()), expected);
    let expr = or(vec![token("A"), AuthorizationExpression::Nil]);
    let expected: serde_json::Value = serde_json::from_str("{\"or\": [\"A\", null]}").unwrap();
    assert_eq!(to_serde(&expr.to_json()), expected);
}

#[test]
fn from_json_gives_back_what_to_json_took() {
    let expr = or(vec![
        and(vec![token("B"), token("A"), token("B")]),
        AuthorizationExpression::Nil,
        token(""),
        or(vec![]),
    ]);
    let decoded = AuthorizationExpression::from_json(&expr.to_json()).unwrap();
    assert_eq!(decoded.compare(&expr), Comparison::Equal);
    assert_eq!(decoded.to_json_str(), expr.to_json_str());
}

#[test]
fn from_json_reads_null_and_strings() {
    let nil = AuthorizationExpression::from_json(&JsonValue::Null).unwrap();
    assert_eq!(nil.compare(&AuthorizationExpression::Nil), Comparison::Equal);
    let leaf = AuthorizationExpression::from_json(&JsonValue::String("A".to_string())).unwrap();
    assert_eq!(leaf.compare(&token("A")), Comparison::Equal);
}

#[test]
fn from_json_prefers_and_over_or() {
    let json = parse_json("{\"or\": [\"B\"], \"and\": [\"A\"], \"other\": 1.5}");
    let expr = AuthorizationExpression::from_json(&json).unwrap();
    assert_eq!(expr.compare(&and(vec![token("A")])), Comparison::Equal);
}

#[test]
fn from_json_rejects_other_objects() {
    assert_eq!(
        AuthorizationExpression::from_json(&parse_json("{}")),
        Err("Invalid JSON object".to_string())
    );
    assert_eq!(
        AuthorizationExpression::from_json(&parse_json("{\"not\": [\"A\"]}")),
        Err("Invalid JSON object".to_string())
    );
    assert_eq!(
        AuthorizationExpression::from_json(&parse_json("{\"and\": \"A\"}")),
        Err("Invalid JSON object".to_string())
    );
    assert_eq!(
        AuthorizationExpression::from_json(&parse_json("{\"or\": {\"and\": []}}")),
        Err("Invalid JSON object".to_string())
    );
}

#[test]
fn from_json_rejects_other_values() {
    assert_eq!(
        AuthorizationExpression::from_json(&parse_json("true")),
        Err("Invalid JSON value".to_string())
    );
    assert_eq!(
        AuthorizationExpression::from_json(&parse_json("12")),
        Err("Invalid JSON value".to_string())
    );
    assert_eq!(
        AuthorizationExpression::from_json(&parse_json("[\"A\"]")),
        Err("Invalid JSON value".to_string())
    );
    assert_eq!(
        AuthorizationExpression::from_json(&parse_json("{\"and\": [\"A\", 1, {}]}")),
        Err("Invalid JSON value".to_string())
    );
    assert_eq!(
        AuthorizationExpression::from_json(&parse_json("{\"and\": [\"A\", {}, 1]}")),
        Err("Invalid JSON object".to_string())
    );
}

#[test]
fn clone_copies_the_tree() {
    let expr = and(vec![token("A"), or(vec![token("B"), AuthorizationExpression::Nil])]);
    let copy = expr.clone();
    assert_eq!(copy.compare(&expr), Comparison::Equal);
    assert_eq!(copy.to_json_str(), expr.to_json_str());
}

#[test]
fn cmp_gives_the_order_of_compare() {
    assert_eq!(token("a").cmp(&token("b")), std::cmp::Ordering::Less);
    assert_eq!(token("b").cmp(&token("a")), std::cmp::Ordering::Greater);
    assert_eq!(token("a").cmp(&token("a")), std::cmp::Ordering::Equal);
    assert_eq!(
        and(vec![token("a"), token("b")]).cmp(&and(vec![token("b"), token("a")])),
        std::cmp::Ordering::Less
    );
    assert_eq!(and(vec![token("z")]).cmp(&token("a")), std::cmp::Ordering::Less);
}

#[test]
fn equal_expressions_have_one_normal_form() {
    let mut one = and(vec![
        token("m"),
        or(vec![token("z"), and(vec![token("q"), token("p")]), token("a")]),
    ]);
    let mut other = and(vec![
        or(vec![token("a"), token("z"), and(vec![token("p"), token("q"), token("p")]), token("a")]),
        token("m"),
        token("m"),
    ]);
    let mut third = and(vec![token("m"), or(vec![token("z"), token("a")])]);
    assert!(one.equals(&other));
    assert!(!one.equals(&third));
    one.normalize();
    other.normalize();
    third.normalize();
    assert_eq!(one.compare(&other), Comparison::Equal);
    assert_eq!(one.to_json_str(), other.to_json_str());
    assert_ne!(one.compare(&third), Comparison::Equal);
    assert_eq!(
        one.to_json_str(),
        "{\"and\":[{\"or\":[{\"and\":[\"p\",\"q\"]},\"a\",\"z\"]},\"m\"]}"
    );
}

#[test]
fn trees_are_ordered_as_compare_orders() {
    let nil = AuthorizationExpression::Nil;
    let conj = and(vec![token("a"), token("b")]);
    let disj = or(vec![token("a"), token("b")]);
    let swapped = and(vec![token("b"), token("a")]);
    let leaf = token("a");
    assert!(nil < conj);
    assert!(conj < disj);
    assert!(disj < leaf);
    assert!(conj < swapped);
    assert!(leaf > nil);
    assert!(token("a") < token("b"));
    assert!(token("a") <= token("a"));
    assert_eq!(conj.partial_cmp(&disj), Some(std::cmp::Ordering::Less));
    assert_eq!(leaf.partial_cmp(&token("a")), Some(std::cmp::Ordering::Equal));
    assert_eq!(swapped.partial_cmp(&conj), Some(std::cmp::Ordering::Greater));
    assert_eq!(conj.partial_cmp(&disj), Some(conj.cmp(&disj)));
}

#[test]
fn json_text_escapes_as_json_asks() {
    let plain = token("a b/c:d.e-f_g");
    assert_eq!(plain.to_json_str(), "\"a b/c:d.e-f_g\"");
    let quoted = token("say \"hi\" \\ bye");
    assert_eq!(quoted.to_json_str(), "\"say \\\"hi\\\" \\\\ bye\"");
    let control = token("\u{8}\t\n\u{c}\r\u{0}\u{1}\u{b}\u{1f}\u{7f}");
    assert_eq!(
        control.to_json_str(),
        "\"\\b\\t\\n\\f\\r\\u0000\\u0001\\u000b\\u001f\u{7f}\""
    );
    let wide = token("é€😀/");
    assert_eq!(wide.to_json_str(), "\"é€😀/\"");
    let both = or(vec![token("a\"b"), and(vec![token("\n"), AuthorizationExpression::Nil])]);
    assert_eq!(both.to_json_str(), "{\"or\":[\"a\\\"b\",{\"and\":[\"\\n\",null]}]}");
}

#[test]
fn composite_json_text_frames_and_joins() {
    let items = vec!["\"a\"".to_string(), "null".to_string(), "{\"or\":[]}".to_string()];
    assert_eq!(
        composite_json_text(Operator::Conjunction, &items),
        "{\"and\":[\"a\",null,{\"or\":[]}]}"
    );
    assert_eq!(composite_json_text(Operator::Disjunction, &items[..1].to_vec()), "{\"or\":[\"a\"]}");
    assert_eq!(composite_json_text(Operator::Disjunction, &Vec::new()), "{\"or\":[]}");
}
