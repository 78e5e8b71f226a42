//! The structured encoding of expression trees.
//!
//! A conjunction is the object `{"and": [..]}`, a disjunction the object
//! `{"or": [..]}`, an access token a string, and the empty expression `null`.

use vstd::prelude::*;
use vstd::string::StringExecFns;
use crate::authorization_expression::AuthorizationExpression;
use crate::authorization_expression::Expression;
use crate::authorization_expression::lemma_view_children;
use crate::authorization_expression::views;
use crate::lexer::Operator;
use crate::text::str_eq;
use crate::text::string_views;

verus! {

/// A JSON document.
#[derive(Debug)]
pub enum JsonValue {
    Null,
    Bool(bool),
    /// A number, as its decimal text.
    Number(String),
    String(String),
    Array(Vec<JsonValue>),
    /// An object: its members in order.
    Object(Vec<JsonMember>),
}

/// One member of a JSON object.
#[derive(Debug)]
pub struct JsonMember {
    pub key: String,
    pub value: JsonValue,
}

/// The mathematical value of a [`JsonValue`].
pub ghost enum Json {
    Null,
    Bool(bool),
    Number(Seq<char>),
    String(Seq<char>),
    Array(Seq<Json>),
    Object(Seq<Member>),
}

/// The mathematical value of a [`JsonMember`].
pub ghost struct Member {
    pub key: Seq<char>,
    pub value: Json,
}

impl View for JsonValue {
    type V = Json;

    open spec fn view(&self) -> Json
        decreases self,
    {
        match self {
            JsonValue::Null => Json::Null,
            JsonValue::Bool(b) => Json::Bool(*b),
            JsonValue::Number(text) => Json::Number(text@),
            JsonValue::String(text) => Json::String(text@),
            JsonValue::Array(items) => Json::Array(
                Seq::new(
                    items@.len(),
                    |i: int|
                        if 0 <= i < items@.len() {
                            items@[i]@
                        } else {
                            Json::Null
                        },
                ),
            ),
            JsonValue::Object(members) => Json::Object(
                Seq::new(
                    members@.len(),
                    |i: int|
                        if 0 <= i < members@.len() {
                            Member { key: members@[i].key@, value: members@[i].value@ }
                        } else {
                            Member { key: Seq::empty(), value: Json::Null }
                        },
                ),
            ),
        }
    }
}

impl View for JsonMember {
    type V = Member;

    open spec fn view(&self) -> Member {
        Member { key: self.key@, value: self.value@ }
    }
}

/// The values of the documents of `items`, in order.
pub open spec fn json_views(items: Seq<JsonValue>) -> Seq<Json> {
    Seq::new(items.len(), |i: int| items[i]@)
}

/// The values of the members of `members`, in order.
pub open spec fn member_views(members: Seq<JsonMember>) -> Seq<Member> {
    Seq::new(members.len(), |i: int| members[i]@)
}

/// The value of an array is the array of its items' values.
pub proof fn lemma_array_view(items: Vec<JsonValue>)
    ensures
        JsonValue::Array(items)@ == Json::Array(json_views(items@)),
{
    assert(JsonValue::Array(items)@->Array_0 =~= json_views(items@));
}

/// The value of an object is the object of its members' values.
pub proof fn lemma_object_view(members: Vec<JsonMember>)
    ensures
        JsonValue::Object(members)@ == Json::Object(member_views(members@)),
{
    assert(JsonValue::Object(members)@->Object_0 =~= member_views(members@));
}

/// Index of the first member of `members` at or after `from` whose key is
/// `key`; the number of members if there is none.
pub open spec fn member_index(members: Seq<Member>, key: Seq<char>, from: int) -> int
    decreases members.len() - from,
{
    if 0 <= from < members.len() && members[from].key != key {
        member_index(members, key, from + 1)
    } else {
        from
    }
}

/// What is returned for an object that is neither a conjunction nor a
/// disjunction.
pub open spec fn invalid_object() -> Seq<char> {
    "Invalid JSON object"@
}

/// What is returned for a document that is neither an object, a string nor
/// `null`.
pub open spec fn invalid_value() -> Seq<char> {
    "Invalid JSON value"@
}

/// The name of the member that holds the children of a conjunction.
pub open spec fn and_key() -> Seq<char> {
    "and"@
}

/// The name of the member that holds the children of a disjunction.
pub open spec fn or_key() -> Seq<char> {
    "or"@
}

/// The expression that a JSON document encodes.
///
/// `null` is the empty expression and a string an access token. An object
/// with a member `and` is the conjunction, and another object with a member
/// `or` the disjunction, of the expressions that the items of that member
/// encode; the member has to be an array. Nothing else encodes an expression.
pub open spec fn expression_of(json: Json) -> Result<Expression, Seq<char>>
    decreases json, 0nat,
{
    match json {
        Json::Null => Ok(Expression::Nil),
        Json::String(text) => Ok(Expression::AccessToken(text)),
        Json::Object(members) => {
            let and_at = member_index(members, and_key(), 0);
            let or_at = member_index(members, or_key(), 0);
            if 0 <= and_at < members.len() {
                match members[and_at].value {
                    Json::Array(items) => match expressions_of(items, items.len() as int) {
                        Ok(children) => Ok(Expression::ConjunctionOf(children)),
                        Err(e) => Err(e),
                    },
                    _ => Err(invalid_object()),
                }
            } else if 0 <= or_at < members.len() {
                match members[or_at].value {
                    Json::Array(items) => match expressions_of(items, items.len() as int) {
                        Ok(children) => Ok(Expression::DisjunctionOf(children)),
                        Err(e) => Err(e),
                    },
                    _ => Err(invalid_object()),
                }
            } else {
                Err(invalid_object())
            }
        },
        _ => Err(invalid_value()),
    }
}

/// The expressions that the first `count` documents of `items` encode; the
/// error of the first of them that encodes none.
pub open spec fn expressions_of(items: Seq<Json>, count: int) -> Result<
    Seq<Expression>,
    Seq<char>,
>
    decreases items, count,
{
    if count <= 0 || count > items.len() {
        Ok(Seq::empty())
    } else {
        match expressions_of(items, count - 1) {
            Err(e) => Err(e),
            Ok(children) => match expression_of(items[count - 1]) {
                Err(e) => Err(e),
                Ok(child) => Ok(children.push(child)),
            },
        }
    }
}

/// The hexadecimal digit for `d`, in lower case.
pub open spec fn hex_digit(d: nat) -> char {
    if d == 0 {
        '0'
    } else if d == 1 {
        '1'
    } else if d == 2 {
        '2'
    } else if d == 3 {
        '3'
    } else if d == 4 {
        '4'
    } else if d == 5 {
        '5'
    } else if d == 6 {
        '6'
    } else if d == 7 {
        '7'
    } else if d == 8 {
        '8'
    } else if d == 9 {
        '9'
    } else if d == 10 {
        'a'
    } else if d == 11 {
        'b'
    } else if d == 12 {
        'c'
    } else if d == 13 {
        'd'
    } else if d == 14 {
        'e'
    } else {
        'f'
    }
}

/// What one character is written as inside a JSON string. The quote and the
/// backslash get a backslash before them. Backspace, tab, line feed, form
/// feed and carriage return are written as `\b`, `\t`, `\n`, `\f` and
/// `\r`, any other character below the space as `\u00` and its two
/// hexadecimal digits, and every other character as it is.
pub open spec fn json_escape(c: char) -> Seq<char> {
    if c == '"' {
        seq!['\\', '"']
    } else if c == '\\' {
        seq!['\\', '\\']
    } else if c == '\u{8}' {
        seq!['\\', 'b']
    } else if c == '\t' {
        seq!['\\', 't']
    } else if c == '\n' {
        seq!['\\', 'n']
    } else if c == '\u{c}' {
        seq!['\\', 'f']
    } else if c == '\r' {
        seq!['\\', 'r']
    } else if !(' ' <= c) {
        seq!['\\', 'u', '0', '0', hex_digit(c as nat / 16), hex_digit(c as nat % 16)]
    } else {
        seq![c]
    }
}

/// The characters of `text`, each written as it is inside a JSON string.
pub open spec fn json_escaped(text: Seq<char>) -> Seq<char>
    decreases text.len(),
{
    if text.len() == 0 {
        Seq::empty()
    } else {
        json_escaped(text.drop_last()) + json_escape(text.last())
    }
}

/// What a JSON string that holds `text` is written as: the text between
/// quotes, with the characters escaped that JSON asks to escape.
pub open spec fn json_string_literal(text: Seq<char>) -> Seq<char> {
    seq!['"'] + json_escaped(text) + seq!['"']
}

/// The texts of `items` up to the one at `count`, with a comma between one
/// and the next.
pub open spec fn comma_joined(items: Seq<Seq<char>>, count: int) -> Seq<char>
    decreases count,
{
    if count <= 0 || count > items.len() {
        Seq::empty()
    } else if count == 1 {
        items[0]
    } else {
        comma_joined(items, count - 1) + seq![','] + items[count - 1]
    }
}

/// The text of the JSON object that encodes a composite with the given
/// operator, whose children are encoded by the texts of `items`.
pub open spec fn composite_text(operator: Operator, items: Seq<Seq<char>>) -> Seq<char> {
    (match operator {
        Operator::Conjunction => "{\"and\":["@,
        Operator::Disjunction => "{\"or\":["@,
    }) + comma_joined(items, items.len() as int) + "]}"@
}

impl Expression {
    /// The JSON document that encodes the expression.
    pub open spec fn json(self) -> Json
        decreases self, 0nat,
    {
        match self {
            Expression::Nil => Json::Null,
            Expression::AccessToken(token) => Json::String(token),
            Expression::ConjunctionOf(children) => Json::Object(
                seq![
                    Member { key: and_key(), value: Json::Array(jsons(children, children.len() as int)) },
                ],
            ),
            Expression::DisjunctionOf(children) => Json::Object(
                seq![
                    Member { key: or_key(), value: Json::Array(jsons(children, children.len() as int)) },
                ],
            ),
        }
    }

    /// The text of the JSON document that encodes the expression, without
    /// any white space.
    pub open spec fn json_text(self) -> Seq<char>
        decreases self, 0nat,
    {
        match self {
            Expression::Nil => "null"@,
            Expression::AccessToken(token) => json_string_literal(token),
            Expression::ConjunctionOf(children) => composite_text(
                Operator::Conjunction,
                json_texts(children, children.len() as int),
            ),
            Expression::DisjunctionOf(children) => composite_text(
                Operator::Disjunction,
                json_texts(children, children.len() as int),
            ),
        }
    }
}

/// The JSON documents that encode the first `count` expressions of
/// `children`.
pub open spec fn jsons(children: Seq<Expression>, count: int) -> Seq<Json>
    decreases children, count,
{
    if count <= 0 || count > children.len() {
        Seq::empty()
    } else {
        jsons(children, count - 1).push(children[count - 1].json())
    }
}

/// The JSON texts of the first `count` expressions of `children`.
pub open spec fn json_texts(children: Seq<Expression>, count: int) -> Seq<Seq<char>>
    decreases children, count,
{
    if count <= 0 || count > children.len() {
        Seq::empty()
    } else {
        json_texts(children, count - 1).push(children[count - 1].json_text())
    }
}

/// The mathematical value of what `from_json` returns.
pub open spec fn decoded_view(result: Result<AuthorizationExpression, String>) -> Result<
    Expression,
    Seq<char>,
> {
    match result {
        Ok(tree) => Ok(tree@),
        Err(message) => Err(message@),
    }
}

/// `serde_json` writes the JSON string that holds `text`: a `Value::String`
/// is displayed as the text between quotes, each character escaped as
/// [`json_escape`] says.
#[verifier::external_body]
fn write_json_string(text: &str) -> (literal: String)
    ensures
        literal@ == json_string_literal(text@),
{
    serde_json::Value::String(text.to_owned()).to_string()
}

/// The first member of `members` whose key is `key`.
fn find_member<'a>(members: &'a Vec<JsonMember>, key: &str) -> (found: Option<&'a JsonValue>)
    ensures
        ({
            let at = member_index(member_views(members@), key@, 0);
            &&& 0 <= at <= members.len()
            &&& found is None <==> at == members.len()
            &&& found matches Some(value) ==> *value == members@[at].value
        }),
{
    let mut i: usize = 0;
    while i < members.len()
        invariant
            0 <= i <= members.len(),
            member_index(member_views(members@), key@, i as int) == member_index(
                member_views(members@),
                key@,
                0,
            ),
        decreases members.len() - i,
    {
        if str_eq(members[i].key.as_str(), key) {
            return Some(&members[i].value);
        }
        i += 1;
    }
    None
}

/// The trees that the documents of `items` encode.
fn trees_of(items: &Vec<JsonValue>) -> (result: Result<Vec<AuthorizationExpression>, String>)
    ensures
        match expressions_of(json_views(items@), items.len() as int) {
            Ok(children) => result matches Ok(nodes) && views(nodes@) == children,
            Err(e) => result matches Err(message) && message@ == e,
        },
    decreases items, 1nat,
{
    let mut nodes: Vec<AuthorizationExpression> = Vec::new();
    let mut i: usize = 0;
    proof {
        assert(views(nodes@) =~= Seq::<Expression>::empty());
    }
    while i < items.len()
        invariant
            0 <= i <= items.len(),
            expressions_of(json_views(items@), i as int) == Ok::<Seq<Expression>, Seq<char>>(
                views(nodes@),
            ),
        decreases items.len() - i,
    {
        let ghost before = views(nodes@);
        match AuthorizationExpression::from_json(&items[i]) {
            Ok(node) => {
                nodes.push(node);
                proof {
                    assert(views(nodes@) =~= before.push(node@));
                }
            },
            Err(message) => {
                proof {
                    lemma_expressions_of_error(json_views(items@), i + 1, items.len() as int);
                }
                return Err(message);
            },
        }
        i += 1;
    }
    Ok(nodes)
}

/// Once a document encodes no expression, no longer run of documents does.
pub proof fn lemma_expressions_of_error(items: Seq<Json>, failed: int, count: int)
    requires
        0 <= failed <= count <= items.len(),
        expressions_of(items, failed) is Err,
    ensures
        expressions_of(items, count) == expressions_of(items, failed),
    decreases count - failed,
{
    if failed < count {
        lemma_expressions_of_error(items, failed, count - 1);
    }
}

/// The JSON documents that encode the trees of `nodes`.
fn jsons_of(nodes: &Vec<AuthorizationExpression>) -> (items: Vec<JsonValue>)
    ensures
        json_views(items@) == jsons(views(nodes@), nodes.len() as int),
    decreases nodes, 1nat,
{
    let mut items: Vec<JsonValue> = Vec::new();
    let mut i: usize = 0;
    proof {
        assert(json_views(items@) =~= jsons(views(nodes@), 0));
    }
    while i < nodes.len()
        invariant
            0 <= i <= nodes.len(),
            json_views(items@) == jsons(views(nodes@), i as int),
        decreases nodes.len() - i,
    {
        let ghost before = json_views(items@);
        let item = nodes[i].to_json();
        items.push(item);
        proof {
            assert(json_views(items@) =~= before.push(item@));
        }
        i += 1;
    }
    items
}

/// The JSON texts of the trees of `nodes`.
fn json_texts_of(nodes: &Vec<AuthorizationExpression>) -> (texts: Vec<String>)
    ensures
        string_views(texts@) == json_texts(views(nodes@), nodes.len() as int),
    decreases nodes, 1nat,
{
    let mut texts: Vec<String> = Vec::new();
    let mut i: usize = 0;
    while i < nodes.len()
        invariant
            0 <= i <= nodes.len(),
            string_views(texts@) == json_texts(views(nodes@), i as int),
        decreases nodes.len() - i,
    {
        let ghost before = texts@;
        let item = nodes[i].to_json_str();
        texts.push(item);
        proof {
            assert(string_views(texts@) =~= string_views(before).push(item@));
        }
        i += 1;
    }
    texts
}

/// The text of the JSON object that encodes a composite with the given
/// operator, from the texts that encode its children.
pub fn composite_json_text(operator: Operator, items: &Vec<String>) -> (text: String)
    ensures
        text@ == composite_text(operator, string_views(items@)),
{
    let mut text = match operator {
        Operator::Conjunction => "{\"and\":[".to_owned(),
        Operator::Disjunction => "{\"or\":[".to_owned(),
    };
    let ghost head = text@;
    let mut i: usize = 0;
    while i < items.len()
        invariant
            0 <= i <= items.len(),
            text@ == head + comma_joined(string_views(items@), i as int),
        decreases items.len() - i,
    {
        let ghost before = text@;
        if i > 0 {
            text.push(',');
        }
        text.append(items[i].as_str());
        proof {
            let joined = comma_joined(string_views(items@), i as int);
            assert(string_views(items@)[i as int] == items@[i as int]@);
            if i > 0 {
                assert(text@ =~= head + (joined + seq![','] + items@[i as int]@));
            } else {
                assert(text@ =~= head + items@[i as int]@);
            }
        }
        i += 1;
    }
    text.append("]}");
    text
}

/// The object with the one member `key`, an array of `items`.
fn object_of(key: &str, items: Vec<JsonValue>) -> (object: JsonValue)
    ensures
        object@ == Json::Object(seq![Member { key: key@, value: Json::Array(json_views(items@)) }]),
{
    let mut members: Vec<JsonMember> = Vec::new();
    let member = JsonMember { key: key.to_owned(), value: JsonValue::Array(items) };
    members.push(member);
    proof {
        lemma_array_view(items);
        lemma_object_view(members);
        assert(member_views(members@) =~= seq![
            Member { key: key@, value: Json::Array(json_views(items@)) },
        ]);
    }
    JsonValue::Object(members)
}

impl AuthorizationExpression {
    /// The tree that the JSON document `json` encodes; a message if it
    /// encodes none.
    pub fn from_json(json: &JsonValue) -> (result: Result<Self, String>)
        ensures
            decoded_view(result) == expression_of(json@),
        decreases json, 0nat,
    {
        match json {
            JsonValue::Null => Ok(AuthorizationExpression::Nil),
            JsonValue::String(token) => Ok(AuthorizationExpression::AccessToken(token.clone())),
            JsonValue::Object(members) => {
                proof {
                    lemma_object_view(*members);
                }
                let (children, is_conjunction) = match find_member(members, "and") {
                    Some(value) => (value, true),
                    None => match find_member(members, "or") {
                        Some(value) => (value, false),
                        None => {
                            return Err("Invalid JSON object".to_owned());
                        },
                    },
                };
                match children {
                    JsonValue::Array(items) => {
                        proof {
                            lemma_array_view(*items);
                        }
                        match trees_of(items) {
                            Ok(nodes) => {
                                proof {
                                    lemma_view_children(nodes);
                                }
                                if is_conjunction {
                                    Ok(AuthorizationExpression::ConjunctionOf(nodes))
                                } else {
                                    Ok(AuthorizationExpression::DisjunctionOf(nodes))
                                }
                            },
                            Err(message) => Err(message),
                        }
                    },
                    _ => Err("Invalid JSON object".to_owned()),
                }
            },
            _ => Err("Invalid JSON value".to_owned()),
        }
    }

    /// The JSON document that encodes the tree.
    pub fn to_json(&self) -> (json: JsonValue)
        ensures
            json@ == self@.json(),
        decreases self, 0nat,
    {
        match self {
            AuthorizationExpression::Nil => JsonValue::Null,
            AuthorizationExpression::AccessToken(token) => JsonValue::String(token.clone()),
            AuthorizationExpression::ConjunctionOf(nodes) => {
                proof {
                    lemma_view_children(*nodes);
                }
                object_of("and", jsons_of(nodes))
            },
            AuthorizationExpression::DisjunctionOf(nodes) => {
                proof {
                    lemma_view_children(*nodes);
                }
                object_of("or", jsons_of(nodes))
            },
        }
    }

    /// The text of the JSON document that encodes the tree, without any
    /// white space.
    pub fn to_json_str(&self) -> (text: String)
        ensures
            text@ == self@.json_text(),
        decreases self, 0nat,
    {
        match self {
            AuthorizationExpression::Nil => "null".to_owned(),
            AuthorizationExpression::AccessToken(token) => write_json_string(token.as_str()),
            AuthorizationExpression::ConjunctionOf(nodes) => {
                proof {
                    lemma_view_children(*nodes);
                }
                composite_json_text(Operator::Conjunction, &json_texts_of(nodes))
            },
            AuthorizationExpression::DisjunctionOf(nodes) => {
                proof {
                    lemma_view_children(*nodes);
                }
                composite_json_text(Operator::Disjunction, &json_texts_of(nodes))
            },
        }
    }
}

/// Decoding the document that encodes an expression gives the expression
/// back.
pub proof fn lemma_json_round_trip(e: Expression)
    ensures
        expression_of(e.json()) == Ok::<Expression, Seq<char>>(e),
    decreases e, 0nat,
{
    match e {
        Expression::ConjunctionOf(children) => {
            lemma_jsons_round_trip(children, children.len() as int);
            let items = jsons(children, children.len() as int);
            let members = seq![Member { key: and_key(), value: Json::Array(items) }];
            assert(e.json() == Json::Object(members));
            assert(members[0].key == and_key());
            assert(member_index(members, and_key(), 0) == 0);
            assert(members[0].value == Json::Array(items));
            assert(children.take(children.len() as int) == children);
        },
        Expression::DisjunctionOf(children) => {
            lemma_jsons_round_trip(children, children.len() as int);
            let items = jsons(children, children.len() as int);
            let members = seq![Member { key: or_key(), value: Json::Array(items) }];
            assert(e.json() == Json::Object(members));
            assert(and_key() != or_key()) by {
                reveal_strlit("and");
                reveal_strlit("or");
                assert(and_key().len() == 3);
                assert(or_key().len() == 2);
            }
            assert(members[0].key == or_key());
            assert(member_index(members, and_key(), 1) == 1);
            assert(member_index(members, and_key(), 0) == 1);
            assert(member_index(members, or_key(), 0) == 0);
            assert(members[0].value == Json::Array(items));
            assert(children.take(children.len() as int) == children);
        },
        _ => {},
    }
}

/// The same of the first `count` of a composite's children.
pub proof fn lemma_jsons_round_trip(children: Seq<Expression>, count: int)
    requires
        0 <= count <= children.len(),
    ensures
        jsons(children, count).len() == count,
        forall|k: int| 0 <= k < count ==> jsons(children, count)[k] == (#[trigger] children[k]).json(),
        expressions_of(jsons(children, count), count) == Ok::<Seq<Expression>, Seq<char>>(
            children.take(count),
        ),
    decreases children, count,
{
    if count > 0 {
        lemma_jsons_round_trip(children, count - 1);
        lemma_json_round_trip(children[count - 1]);
        let shorter = jsons(children, count - 1);
        let longer = jsons(children, count);
        lemma_expressions_of_prefix(shorter, longer, count - 1);
        assert(children.take(count) =~= children.take(count - 1).push(children[count - 1]));
    } else {
        assert(children.take(0) =~= Seq::<Expression>::empty());
    }
}

/// What the first documents of a sequence encode does not depend on the
/// documents that follow them.
pub proof fn lemma_expressions_of_prefix(shorter: Seq<Json>, longer: Seq<Json>, count: int)
    requires
        0 <= count <= shorter.len() <= longer.len(),
        forall|k: int| 0 <= k < count ==> shorter[k] == longer[k],
    ensures
        expressions_of(shorter, count) == expressions_of(longer, count),
    decreases count,
{
    if count > 0 {
        lemma_expressions_of_prefix(shorter, longer, count - 1);
    }
}

} // verus!
