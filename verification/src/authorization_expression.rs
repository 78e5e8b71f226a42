//! The expression tree and its operations.
//!
//! [`Expression`] is the mathematical tree; what an operation computes is
//! defined on it. [`AuthorizationExpression`] is the tree in memory; each of
//! its operations states which function of its view it computes.

use vstd::prelude::*;
use vstd::string::StringExecFns;
use crate::authorizations::Authorizations;
use crate::lexer::Operator;
use crate::text::str_eq;
use crate::text::Comparison;
use crate::text::compare_chars;
use crate::text::compare_str;
use crate::text::lemma_compare_chars_equal;
use crate::text::lemma_compare_chars_flip;

verus! {

/// An authorization expression as a tree.
#[derive(Debug)]
pub enum AuthorizationExpression {
    /// A conjunction of expressions: all of them are asked for.
    ConjunctionOf(Vec<AuthorizationExpression>),
    /// A disjunction of expressions: one of them is asked for.
    DisjunctionOf(Vec<AuthorizationExpression>),
    /// An access token.
    AccessToken(String),
    /// The empty expression, which asks for nothing.
    Nil,
}

/// The mathematical value of an [`AuthorizationExpression`].
pub ghost enum Expression {
    ConjunctionOf(Seq<Expression>),
    DisjunctionOf(Seq<Expression>),
    AccessToken(Seq<char>),
    Nil,
}

/// The values of the trees of `nodes`, in order.
pub open spec fn views(nodes: Seq<AuthorizationExpression>) -> Seq<Expression> {
    Seq::new(nodes.len(), |i: int| nodes[i]@)
}

impl View for AuthorizationExpression {
    type V = Expression;

    open spec fn view(&self) -> Expression
        decreases self,
    {
        match self {
            AuthorizationExpression::ConjunctionOf(nodes) => Expression::ConjunctionOf(
                Seq::new(
                    nodes@.len(),
                    |i: int|
                        if 0 <= i < nodes@.len() {
                            nodes@[i]@
                        } else {
                            Expression::Nil
                        },
                ),
            ),
            AuthorizationExpression::DisjunctionOf(nodes) => Expression::DisjunctionOf(
                Seq::new(
                    nodes@.len(),
                    |i: int|
                        if 0 <= i < nodes@.len() {
                            nodes@[i]@
                        } else {
                            Expression::Nil
                        },
                ),
            ),
            AuthorizationExpression::AccessToken(token) => Expression::AccessToken(token@),
            AuthorizationExpression::Nil => Expression::Nil,
        }
    }
}

/// The value of a composite tree is the composite of its children's values.
pub proof fn lemma_view_children(nodes: Vec<AuthorizationExpression>)
    ensures
        AuthorizationExpression::ConjunctionOf(nodes)@ == Expression::ConjunctionOf(views(nodes@)),
        AuthorizationExpression::DisjunctionOf(nodes)@ == Expression::DisjunctionOf(views(nodes@)),
{
    assert(AuthorizationExpression::ConjunctionOf(nodes)@->ConjunctionOf_0 =~= views(nodes@));
    assert(AuthorizationExpression::DisjunctionOf(nodes)@->DisjunctionOf_0 =~= views(nodes@));
}

impl Expression {
    /// Whether the expression is satisfied by the tokens of `held`.
    ///
    /// The empty expression is satisfied; an access token, if it is held; a
    /// conjunction, if all of its children are; a disjunction, if one is.
    pub open spec fn eval(self, held: Set<Seq<char>>) -> bool
        decreases self,
    {
        match self {
            Expression::Nil => true,
            Expression::AccessToken(token) => held.contains(token),
            Expression::ConjunctionOf(children) => forall|i: int|
                0 <= i < children.len() ==> (#[trigger] children[i]).eval(held),
            Expression::DisjunctionOf(children) => exists|i: int|
                0 <= i < children.len() && (#[trigger] children[i]).eval(held),
        }
    }

    /// Equality of expressions. A composite is taken as the set of its
    /// children: two conjunctions are equal if each child of one is equal to
    /// some child of the other, and two disjunctions likewise. In what order
    /// the children stand and how often one is repeated makes no difference.
    pub open spec fn equiv(self, other: Expression) -> bool
        decreases self, 0nat, 0int,
    {
        match (self, other) {
            (Expression::ConjunctionOf(a), Expression::ConjunctionOf(b)) => same_members(a, b),
            (Expression::DisjunctionOf(a), Expression::DisjunctionOf(b)) => same_members(a, b),
            (Expression::AccessToken(a), Expression::AccessToken(b)) => a == b,
            (Expression::Nil, Expression::Nil) => true,
            _ => false,
        }
    }

    /// The total order by which the children of a composite are sorted.
    ///
    /// The empty expression comes first, then the composites, then the access
    /// tokens. Access tokens are ordered as their character sequences are.
    /// Composites are ordered as the sequences of their children are; of a
    /// conjunction and a disjunction with the same children, the conjunction
    /// comes first.
    pub open spec fn compare(self, other: Expression) -> Comparison
        decreases self, 0nat,
    {
        match (self, other) {
            (Expression::Nil, Expression::Nil) => Comparison::Equal,
            (Expression::Nil, _) => Comparison::Less,
            (_, Expression::Nil) => Comparison::Greater,
            (Expression::AccessToken(a), Expression::AccessToken(b)) => compare_chars(a, b),
            (Expression::AccessToken(_), _) => Comparison::Greater,
            (_, Expression::AccessToken(_)) => Comparison::Less,
            (Expression::ConjunctionOf(a), Expression::ConjunctionOf(b)) => compare_children(
                a,
                b,
                0,
            ),
            (Expression::DisjunctionOf(a), Expression::DisjunctionOf(b)) => compare_children(
                a,
                b,
                0,
            ),
            (Expression::ConjunctionOf(a), Expression::DisjunctionOf(b)) => match compare_children(
                a,
                b,
                0,
            ) {
                Comparison::Equal => Comparison::Less,
                decided => decided,
            },
            (Expression::DisjunctionOf(a), Expression::ConjunctionOf(b)) => match compare_children(
                a,
                b,
                0,
            ) {
                Comparison::Equal => Comparison::Greater,
                decided => decided,
            },
        }
    }

    /// The expression in the compact textual syntax. The children of a
    /// composite are joined by its operator; a child that is a composite of
    /// the other kind stands in parentheses. An access token is written as it
    /// is, and the empty expression as the empty text.
    pub open spec fn text(self) -> Seq<char>
        decreases self, 0nat,
    {
        match self {
            Expression::Nil => Seq::empty(),
            Expression::AccessToken(token) => token,
            Expression::ConjunctionOf(children) => joined(
                children,
                children.len() as int,
                Operator::Conjunction,
            ),
            Expression::DisjunctionOf(children) => joined(
                children,
                children.len() as int,
                Operator::Disjunction,
            ),
        }
    }

    /// Whether the expression is in normal form: the children of each
    /// composite in it stand in strictly ascending order.
    pub open spec fn is_normal(self) -> bool
        decreases self,
    {
        match self {
            Expression::ConjunctionOf(children) => {
                &&& ascending(children)
                &&& forall|i: int| 0 <= i < children.len() ==> (#[trigger] children[i]).is_normal()
            },
            Expression::DisjunctionOf(children) => {
                &&& ascending(children)
                &&& forall|i: int| 0 <= i < children.len() ==> (#[trigger] children[i]).is_normal()
            },
            _ => true,
        }
    }

    /// The normal form of the expression: in each composite, children first
    /// brought to normal form themselves, then sorted, each kept once.
    pub open spec fn normal_form(self) -> Expression
        decreases self, 0nat,
    {
        match self {
            Expression::ConjunctionOf(children) => Expression::ConjunctionOf(
                sorted_normal_forms(children, 0),
            ),
            Expression::DisjunctionOf(children) => Expression::DisjunctionOf(
                sorted_normal_forms(children, 0),
            ),
            _ => self,
        }
    }
}

/// Whether one of the first `count` expressions of `others` is equal to
/// `item`.
pub open spec fn found_in(item: Expression, others: Seq<Expression>, count: int) -> bool
    decreases item, 1nat, count,
{
    0 < count <= others.len() && (item.equiv(others[count - 1]) || found_in(
        item,
        others,
        count - 1,
    ))
}

/// Whether one of the first `count` expressions of `items` is equal to
/// `other`.
pub open spec fn covered_by(items: Seq<Expression>, count: int, other: Expression) -> bool
    decreases items, 0nat, count,
{
    0 < count <= items.len() && (items[count - 1].equiv(other) || covered_by(
        items,
        count - 1,
        other,
    ))
}

/// Whether each expression of `a` is equal to one of `b`, and each of `b` to
/// one of `a`.
pub open spec fn same_members(a: Seq<Expression>, b: Seq<Expression>) -> bool
    decreases a, 1nat, 0int,
{
    &&& forall|i: int| #![trigger a[i]] 0 <= i < a.len() ==> found_in(a[i], b, b.len() as int)
    &&& forall|j: int| #![trigger b[j]] 0 <= j < b.len() ==> covered_by(a, a.len() as int, b[j])
}

/// Two composites of one kind are equal exactly when their children are the
/// same up to order and repetition.
pub proof fn lemma_equiv_composites(a: Seq<Expression>, b: Seq<Expression>)
    ensures
        Expression::ConjunctionOf(a).equiv(Expression::ConjunctionOf(b)) <==> same_members(a, b),
        Expression::DisjunctionOf(a).equiv(Expression::DisjunctionOf(b)) <==> same_members(a, b),
{
}

/// An expression that is found among the first expressions of a sequence is
/// found among more of them.
pub proof fn lemma_found_in_more(item: Expression, others: Seq<Expression>, count: int, more: int)
    requires
        found_in(item, others, count),
        count <= more <= others.len(),
    ensures
        found_in(item, others, more),
    decreases more - count,
{
    if count < more {
        lemma_found_in_more(item, others, count, more - 1);
    }
}

/// An expression that is covered by the first expressions of a sequence is
/// covered by more of them.
pub proof fn lemma_covered_by_more(items: Seq<Expression>, count: int, more: int, other: Expression)
    requires
        covered_by(items, count, other),
        count <= more <= items.len(),
    ensures
        covered_by(items, more, other),
    decreases more - count,
{
    if count < more {
        lemma_covered_by_more(items, count, more - 1, other);
    }
}

/// The character that joins the children of a composite.
pub open spec fn separator(parent: Operator) -> char {
    match parent {
        Operator::Conjunction => '&',
        Operator::Disjunction => '|',
    }
}

/// Whether `child` is a composite of the other kind than its parent.
pub open spec fn needs_parentheses(child: Expression, parent: Operator) -> bool {
    match (child, parent) {
        (Expression::ConjunctionOf(_), Operator::Disjunction) => true,
        (Expression::DisjunctionOf(_), Operator::Conjunction) => true,
        _ => false,
    }
}

/// The texts of the first `count` expressions of `children`, joined by the
/// operator of their parent.
pub open spec fn joined(children: Seq<Expression>, count: int, parent: Operator) -> Seq<char>
    decreases children, count,
{
    if count <= 0 || count > children.len() {
        Seq::empty()
    } else {
        let inner = children[count - 1].text();
        let operand = if needs_parentheses(children[count - 1], parent) {
            seq!['('] + inner + seq![')']
        } else {
            inner
        };
        if count == 1 {
            operand
        } else {
            joined(children, count - 1, parent) + seq![separator(parent)] + operand
        }
    }
}

/// Lexicographic comparison of two sequences of expressions from index `i`
/// on; a proper prefix comes first.
pub open spec fn compare_children(a: Seq<Expression>, b: Seq<Expression>, i: int) -> Comparison
    decreases a, a.len() - i,
{
    if !(0 <= i < a.len()) || !(i < b.len()) {
        if a.len() < b.len() {
            Comparison::Less
        } else if a.len() > b.len() {
            Comparison::Greater
        } else {
            Comparison::Equal
        }
    } else {
        match a[i].compare(b[i]) {
            Comparison::Equal => compare_children(a, b, i + 1),
            decided => decided,
        }
    }
}

/// The expression at index `i` of `items` comes before the one that follows
/// it.
pub open spec fn in_order_at(items: Seq<Expression>, i: int) -> bool {
    items[i].compare(items[i + 1]) == Comparison::Less
}

/// Each expression of `items` comes before the one that follows it.
pub open spec fn ascending(items: Seq<Expression>) -> bool {
    forall|i: int| 0 <= i && i + 1 < items.len() ==> #[trigger] in_order_at(items, i)
}

/// `item` put at its place in the ascending sequence `sorted`, unless it
/// stands there already.
pub open spec fn insert_sorted(sorted: Seq<Expression>, item: Expression) -> Seq<Expression>
    decreases sorted.len(),
{
    if sorted.len() == 0 {
        seq![item]
    } else {
        match item.compare(sorted[0]) {
            Comparison::Less => seq![item] + sorted,
            Comparison::Equal => sorted,
            Comparison::Greater => seq![sorted[0]] + insert_sorted(sorted.drop_first(), item),
        }
    }
}

/// The normal forms of the expressions of `children` from index `from` on, in
/// ascending order, each once.
pub open spec fn sorted_normal_forms(children: Seq<Expression>, from: int) -> Seq<Expression>
    decreases children, children.len() - from,
{
    if 0 <= from < children.len() {
        insert_sorted(sorted_normal_forms(children, from + 1), children[from].normal_form())
    } else {
        Seq::empty()
    }
}

/// Two expressions compare as equal exactly when they are the same tree.
pub proof fn lemma_compare_equal(a: Expression, b: Expression)
    ensures
        a.compare(b) == Comparison::Equal <==> a == b,
    decreases a, 0nat,
{
    match (a, b) {
        (Expression::AccessToken(x), Expression::AccessToken(y)) => {
            lemma_compare_chars_equal(x, y);
        },
        (Expression::ConjunctionOf(x), Expression::ConjunctionOf(y)) => {
            lemma_compare_children_equal(x, y, 0);
            assert(x.skip(0) == x && y.skip(0) == y);
        },
        (Expression::DisjunctionOf(x), Expression::DisjunctionOf(y)) => {
            lemma_compare_children_equal(x, y, 0);
            assert(x.skip(0) == x && y.skip(0) == y);
        },
        _ => {},
    }
}

/// Two sequences compare as equal from `i` on exactly when they are the same
/// from `i` on.
pub proof fn lemma_compare_children_equal(a: Seq<Expression>, b: Seq<Expression>, i: int)
    requires
        0 <= i <= a.len(),
        i <= b.len(),
    ensures
        compare_children(a, b, i) == Comparison::Equal <==> a.skip(i) == b.skip(i),
    decreases a, a.len() - i,
{
    if i < a.len() && i < b.len() {
        lemma_compare_equal(a[i], b[i]);
        lemma_compare_children_equal(a, b, i + 1);
        if a[i] == b[i] && a.skip(i + 1) == b.skip(i + 1) {
            assert(a.skip(i) =~= seq![a[i]] + a.skip(i + 1));
            assert(b.skip(i) =~= seq![b[i]] + b.skip(i + 1));
        }
        if a.skip(i) == b.skip(i) {
            assert(a.skip(i)[0] == b.skip(i)[0]);
            assert(a.skip(i + 1) =~= a.skip(i).skip(1));
            assert(b.skip(i + 1) =~= b.skip(i).skip(1));
        }
    } else {
        if a.len() == b.len() {
            assert(a.skip(i) =~= b.skip(i));
        } else {
            assert(a.skip(i).len() != b.skip(i).len());
        }
    }
}

/// Exchanging the two sides of a comparison exchanges `Less` and `Greater`.
pub proof fn lemma_compare_flip(a: Expression, b: Expression)
    ensures
        a.compare(b) == Comparison::Less <==> b.compare(a) == Comparison::Greater,
        a.compare(b) == Comparison::Equal <==> b.compare(a) == Comparison::Equal,
    decreases a, 0nat,
{
    match (a, b) {
        (Expression::AccessToken(x), Expression::AccessToken(y)) => {
            lemma_compare_chars_flip(x, y);
        },
        (Expression::ConjunctionOf(x), Expression::ConjunctionOf(y)) => {
            lemma_compare_children_flip(x, y, 0);
        },
        (Expression::DisjunctionOf(x), Expression::DisjunctionOf(y)) => {
            lemma_compare_children_flip(x, y, 0);
        },
        (Expression::ConjunctionOf(x), Expression::DisjunctionOf(y)) => {
            lemma_compare_children_flip(x, y, 0);
        },
        (Expression::DisjunctionOf(x), Expression::ConjunctionOf(y)) => {
            lemma_compare_children_flip(x, y, 0);
        },
        _ => {},
    }
}

/// The same of two sequences.
pub proof fn lemma_compare_children_flip(a: Seq<Expression>, b: Seq<Expression>, i: int)
    requires
        0 <= i <= a.len(),
        i <= b.len(),
    ensures
        compare_children(a, b, i) == Comparison::Less <==> compare_children(b, a, i)
            == Comparison::Greater,
        compare_children(a, b, i) == Comparison::Equal <==> compare_children(b, a, i)
            == Comparison::Equal,
    decreases a, a.len() - i,
{
    if i < a.len() && i < b.len() {
        lemma_compare_flip(a[i], b[i]);
        lemma_compare_children_flip(a, b, i + 1);
    }
}

impl Clone for AuthorizationExpression {
    fn clone(&self) -> (copy: Self)
        ensures
            copy@ == self@,
        decreases self, 0nat,
    {
        match self {
            AuthorizationExpression::Nil => AuthorizationExpression::Nil,
            AuthorizationExpression::AccessToken(token) => AuthorizationExpression::AccessToken(
                token.clone(),
            ),
            AuthorizationExpression::ConjunctionOf(nodes) => {
                let copies = clone_nodes(nodes);
                proof {
                    lemma_view_children(*nodes);
                    lemma_view_children(copies);
                }
                AuthorizationExpression::ConjunctionOf(copies)
            },
            AuthorizationExpression::DisjunctionOf(nodes) => {
                let copies = clone_nodes(nodes);
                proof {
                    lemma_view_children(*nodes);
                    lemma_view_children(copies);
                }
                AuthorizationExpression::DisjunctionOf(copies)
            },
        }
    }
}

/// Copies of the trees of `nodes`, in order.
fn clone_nodes(nodes: &Vec<AuthorizationExpression>) -> (copies: Vec<AuthorizationExpression>)
    ensures
        views(copies@) == views(nodes@),
    decreases nodes, 1nat,
{
    let mut copies: Vec<AuthorizationExpression> = Vec::new();
    let mut i: usize = 0;
    while i < nodes.len()
        invariant
            0 <= i <= nodes.len(),
            copies@.len() == i,
            forall|k: int| 0 <= k < i ==> (#[trigger] copies@[k])@ == nodes@[k]@,
        decreases nodes.len() - i,
    {
        copies.push(nodes[i].clone());
        i += 1;
    }
    proof {
        assert(views(copies@) =~= views(nodes@));
    }
    copies
}

impl AuthorizationExpression {
    /// The conjunction of `expressions`.
    pub fn and(expressions: Vec<AuthorizationExpression>) -> (tree: AuthorizationExpression)
        ensures
            tree == AuthorizationExpression::ConjunctionOf(expressions),
            tree@ == Expression::ConjunctionOf(views(expressions@)),
    {
        proof {
            lemma_view_children(expressions);
        }
        AuthorizationExpression::ConjunctionOf(expressions)
    }

    /// The disjunction of `expressions`.
    pub fn or(expressions: Vec<AuthorizationExpression>) -> (tree: AuthorizationExpression)
        ensures
            tree == AuthorizationExpression::DisjunctionOf(expressions),
            tree@ == Expression::DisjunctionOf(views(expressions@)),
    {
        proof {
            lemma_view_children(expressions);
        }
        AuthorizationExpression::DisjunctionOf(expressions)
    }

    /// The expression that asks for the one access token `token`.
    pub fn access_token(token: String) -> (tree: AuthorizationExpression)
        ensures
            tree == AuthorizationExpression::AccessToken(token),
            tree@ == Expression::AccessToken(token@),
    {
        AuthorizationExpression::AccessToken(token)
    }

    /// Whether the expression is satisfied by the given authorizations.
    pub fn evaluate(&self, authorizations: &Authorizations) -> (granted: bool)
        ensures
            granted == self@.eval(authorizations@),
        decreases self,
    {
        match self {
            AuthorizationExpression::Nil => true,
            AuthorizationExpression::AccessToken(token) => authorizations.contains(token.as_str()),
            AuthorizationExpression::ConjunctionOf(nodes) => {
                let mut i: usize = 0;
                while i < nodes.len()
                    invariant
                        0 <= i <= nodes.len(),
                        self == AuthorizationExpression::ConjunctionOf(*nodes),
                        forall|k: int| 0 <= k < i ==> (#[trigger] nodes@[k])@.eval(authorizations@),
                    decreases nodes.len() - i,
                {
                    if !nodes[i].evaluate(authorizations) {
                        assert(!self@->ConjunctionOf_0[i as int].eval(authorizations@));
                        return false;
                    }
                    i += 1;
                }
                assert forall|k: int| 0 <= k < self@->ConjunctionOf_0.len() implies (
                #[trigger] self@->ConjunctionOf_0[k]).eval(authorizations@) by {
                    assert(nodes@[k]@.eval(authorizations@));
                }
                true
            },
            AuthorizationExpression::DisjunctionOf(nodes) => {
                let mut i: usize = 0;
                while i < nodes.len()
                    invariant
                        0 <= i <= nodes.len(),
                        self == AuthorizationExpression::DisjunctionOf(*nodes),
                        forall|k: int| 0 <= k < i ==> !(#[trigger] nodes@[k])@.eval(authorizations@),
                    decreases nodes.len() - i,
                {
                    if nodes[i].evaluate(authorizations) {
                        assert(self@->DisjunctionOf_0[i as int].eval(authorizations@));
                        return true;
                    }
                    i += 1;
                }
                assert forall|k: int| 0 <= k < self@->DisjunctionOf_0.len() implies !(
                #[trigger] self@->DisjunctionOf_0[k]).eval(authorizations@) by {
                    assert(!nodes@[k]@.eval(authorizations@));
                }
                false
            },
        }
    }

    /// Whether two trees are equal as expressions: composites as the sets of
    /// their children.
    pub fn equals(&self, other: &AuthorizationExpression) -> (same: bool)
        ensures
            same == self@.equiv(other@),
        decreases self, 0nat,
    {
        match (self, other) {
            (
                AuthorizationExpression::ConjunctionOf(a),
                AuthorizationExpression::ConjunctionOf(b),
            ) => {
                proof {
                    lemma_view_children(*a);
                    lemma_view_children(*b);
                    lemma_equiv_composites(views(a@), views(b@));
                }
                each_found(a, b) && each_covered(a, b)
            },
            (
                AuthorizationExpression::DisjunctionOf(a),
                AuthorizationExpression::DisjunctionOf(b),
            ) => {
                proof {
                    lemma_view_children(*a);
                    lemma_view_children(*b);
                    lemma_equiv_composites(views(a@), views(b@));
                }
                each_found(a, b) && each_covered(a, b)
            },
            (
                AuthorizationExpression::AccessToken(a),
                AuthorizationExpression::AccessToken(b),
            ) => str_eq(a.as_str(), b.as_str()),
            (AuthorizationExpression::Nil, AuthorizationExpression::Nil) => true,
            _ => false,
        }
    }

    /// Brings the tree to normal form: in each composite, the children are
    /// normalized, sorted, and each kept once.
    pub fn normalize(&mut self)
        ensures
            final(self)@ == old(self)@.normal_form(),
        decreases *old(self), 0nat,
    {
        let mut taken = AuthorizationExpression::Nil;
        core::mem::swap(self, &mut taken);
        match taken {
            AuthorizationExpression::ConjunctionOf(nodes) => {
                proof {
                    lemma_view_children(nodes);
                }
                let sorted = normalize_nodes(nodes);
                proof {
                    lemma_view_children(sorted);
                }
                *self = AuthorizationExpression::ConjunctionOf(sorted);
            },
            AuthorizationExpression::DisjunctionOf(nodes) => {
                proof {
                    lemma_view_children(nodes);
                }
                let sorted = normalize_nodes(nodes);
                proof {
                    lemma_view_children(sorted);
                }
                *self = AuthorizationExpression::DisjunctionOf(sorted);
            },
            other => {
                *self = other;
            },
        }
    }

    /// The expression in the compact textual syntax.
    pub fn to_expression_str(&self) -> (text: String)
        ensures
            text@ == self@.text(),
        decreases self, 0nat,
    {
        match self {
            AuthorizationExpression::Nil => String::new(),
            AuthorizationExpression::AccessToken(token) => token.clone(),
            AuthorizationExpression::ConjunctionOf(nodes) => {
                proof {
                    lemma_view_children(*nodes);
                }
                join_nodes(nodes, Operator::Conjunction)
            },
            AuthorizationExpression::DisjunctionOf(nodes) => {
                proof {
                    lemma_view_children(*nodes);
                }
                join_nodes(nodes, Operator::Disjunction)
            },
        }
    }

    /// Compares two expressions under the order by which `normalize` sorts.
    pub fn compare(&self, other: &AuthorizationExpression) -> (order: Comparison)
        ensures
            order == self@.compare(other@),
        decreases self, 0nat,
    {
        match (self, other) {
            (AuthorizationExpression::Nil, AuthorizationExpression::Nil) => Comparison::Equal,
            (AuthorizationExpression::Nil, _) => Comparison::Less,
            (_, AuthorizationExpression::Nil) => Comparison::Greater,
            (
                AuthorizationExpression::AccessToken(a),
                AuthorizationExpression::AccessToken(b),
            ) => compare_str(a.as_str(), b.as_str()),
            (AuthorizationExpression::AccessToken(_), _) => Comparison::Greater,
            (_, AuthorizationExpression::AccessToken(_)) => Comparison::Less,
            (
                AuthorizationExpression::ConjunctionOf(a),
                AuthorizationExpression::ConjunctionOf(b),
            ) => {
                proof {
                    lemma_view_children(*a);
                    lemma_view_children(*b);
                }
                compare_nodes(a, b)
            },
            (
                AuthorizationExpression::DisjunctionOf(a),
                AuthorizationExpression::DisjunctionOf(b),
            ) => {
                proof {
                    lemma_view_children(*a);
                    lemma_view_children(*b);
                }
                compare_nodes(a, b)
            },
            (
                AuthorizationExpression::ConjunctionOf(a),
                AuthorizationExpression::DisjunctionOf(b),
            ) => {
                proof {
                    lemma_view_children(*a);
                    lemma_view_children(*b);
                }
                match compare_nodes(a, b) {
                    Comparison::Equal => Comparison::Less,
                    decided => decided,
                }
            },
            (
                AuthorizationExpression::DisjunctionOf(a),
                AuthorizationExpression::ConjunctionOf(b),
            ) => {
                proof {
                    lemma_view_children(*a);
                    lemma_view_children(*b);
                }
                match compare_nodes(a, b) {
                    Comparison::Equal => Comparison::Greater,
                    decided => decided,
                }
            },
        }
    }
}

/// Whether some tree of `others` is equal to `item`.
fn is_found(item: &AuthorizationExpression, others: &Vec<AuthorizationExpression>) -> (found: bool)
    ensures
        found == found_in(item@, views(others@), others.len() as int),
    decreases item, 1nat,
{
    let mut j: usize = 0;
    while j < others.len()
        invariant
            0 <= j <= others.len(),
            !found_in(item@, views(others@), j as int),
        decreases others.len() - j,
    {
        if item.equals(&others[j]) {
            proof {
                assert(item@.equiv(views(others@)[j as int]));
                assert(found_in(item@, views(others@), j + 1));
                lemma_found_in_more(item@, views(others@), j + 1, others.len() as int);
            }
            return true;
        }
        proof {
            assert(!item@.equiv(views(others@)[j as int]));
            assert(!found_in(item@, views(others@), j + 1));
        }
        j += 1;
    }
    false
}

/// Whether some tree of `items` is equal to `other`.
fn is_covered(items: &Vec<AuthorizationExpression>, other: &AuthorizationExpression) -> (found:
    bool)
    ensures
        found == covered_by(views(items@), items.len() as int, other@),
    decreases items, 1nat,
{
    let mut i: usize = 0;
    while i < items.len()
        invariant
            0 <= i <= items.len(),
            !covered_by(views(items@), i as int, other@),
        decreases items.len() - i,
    {
        if items[i].equals(other) {
            proof {
                assert(views(items@)[i as int].equiv(other@));
                assert(covered_by(views(items@), i + 1, other@));
                lemma_covered_by_more(views(items@), i + 1, items.len() as int, other@);
            }
            return true;
        }
        proof {
            assert(!views(items@)[i as int].equiv(other@));
            assert(!covered_by(views(items@), i + 1, other@));
        }
        i += 1;
    }
    false
}

/// Whether each tree of `a` is equal to some tree of `b`.
fn each_found(a: &Vec<AuthorizationExpression>, b: &Vec<AuthorizationExpression>) -> (all: bool)
    ensures
        all == forall|i: int|
            #![trigger views(a@)[i]]
            0 <= i < a.len() ==> found_in(views(a@)[i], views(b@), b.len() as int),
    decreases a, 2nat,
{
    let mut i: usize = 0;
    while i < a.len()
        invariant
            0 <= i <= a.len(),
            forall|k: int|
                #![trigger views(a@)[k]]
                0 <= k < i ==> found_in(views(a@)[k], views(b@), b.len() as int),
        decreases a.len() - i,
    {
        if !is_found(&a[i], b) {
            assert(!found_in(views(a@)[i as int], views(b@), b.len() as int));
            return false;
        }
        i += 1;
    }
    true
}

/// Whether each tree of `b` is equal to some tree of `a`.
fn each_covered(a: &Vec<AuthorizationExpression>, b: &Vec<AuthorizationExpression>) -> (all: bool)
    ensures
        all == forall|j: int|
            #![trigger views(b@)[j]]
            0 <= j < b.len() ==> covered_by(views(a@), a.len() as int, views(b@)[j]),
    decreases a, 2nat,
{
    let mut j: usize = 0;
    while j < b.len()
        invariant
            0 <= j <= b.len(),
            forall|k: int|
                #![trigger views(b@)[k]]
                0 <= k < j ==> covered_by(views(a@), a.len() as int, views(b@)[k]),
        decreases b.len() - j,
    {
        if !is_covered(a, &b[j]) {
            assert(!covered_by(views(a@), a.len() as int, views(b@)[j as int]));
            return false;
        }
        j += 1;
    }
    true
}

/// Puts `item` at its place in the ascending list `sorted`, unless it stands
/// there already.
fn insert_node(sorted: &mut Vec<AuthorizationExpression>, item: AuthorizationExpression)
    ensures
        views(final(sorted)@) == insert_sorted(views(old(sorted)@), item@),
{
    let ghost before = views(sorted@);
    let mut i: usize = 0;
    proof {
        assert(before.take(0) + insert_sorted(before.skip(0), item@) == insert_sorted(
            before,
            item@,
        )) by {
            assert(before.skip(0) == before);
            assert(before.take(0) + insert_sorted(before, item@) =~= insert_sorted(before, item@));
        }
    }
    while i < sorted.len()
        invariant
            0 <= i <= sorted.len(),
            sorted@ == old(sorted)@,
            before == views(sorted@),
            before.take(i as int) + insert_sorted(before.skip(i as int), item@) == insert_sorted(
                before,
                item@,
            ),
        ensures
            0 <= i <= sorted.len(),
            sorted@ == old(sorted)@,
            before == views(sorted@),
            before.insert(i as int, item@) == insert_sorted(before, item@),
        decreases sorted.len() - i,
    {
        let ghost rest = before.skip(i as int);
        proof {
            assert(rest[0] == before[i as int]);
            assert(rest.drop_first() == before.skip(i + 1));
        }
        match item.compare(&sorted[i]) {
            Comparison::Less => {
                proof {
                    assert(before.take(i as int) + (seq![item@] + rest) =~= before.insert(
                        i as int,
                        item@,
                    ));
                }
                break ;
            },
            Comparison::Equal => {
                proof {
                    assert(before.take(i as int) + rest =~= before);
                }
                return ;
            },
            Comparison::Greater => {
                proof {
                    assert(before.take(i as int) + (seq![rest[0]] + insert_sorted(
                        before.skip(i + 1),
                        item@,
                    )) =~= before.take(i + 1) + insert_sorted(before.skip(i + 1), item@));
                }
                i += 1;
            },
        }
    }
    proof {
        if i == sorted.len() {
            assert(before.skip(i as int) =~= Seq::empty());
            assert(before.take(i as int) + seq![item@] =~= before.insert(i as int, item@));
        }
    }
    sorted.insert(i, item);
    proof {
        assert(views(sorted@) =~= before.insert(i as int, item@));
    }
}

/// The trees of `nodes` in normal form, sorted, each once.
fn normalize_nodes(nodes: Vec<AuthorizationExpression>) -> (sorted: Vec<AuthorizationExpression>)
    ensures
        views(sorted@) == sorted_normal_forms(views(nodes@), 0),
    decreases nodes, 1nat,
{
    let ghost children = views(nodes@);
    let mut pending = nodes;
    let mut sorted: Vec<AuthorizationExpression> = Vec::new();
    proof {
        assert(views(sorted@) =~= sorted_normal_forms(children, pending.len() as int));
    }
    loop
        invariant
            pending@ == nodes@.take(pending.len() as int),
            pending.len() <= nodes.len(),
            children == views(nodes@),
            views(sorted@) == sorted_normal_forms(children, pending.len() as int),
        ensures
            views(sorted@) == sorted_normal_forms(children, 0),
        decreases pending.len(),
    {
        match pending.pop() {
            None => {
                break ;
            },
            Some(child) => {
                let mut child = child;
                proof {
                    assert(child == nodes@[pending.len() as int]);
                    assert(pending@ == nodes@.take(pending.len() as int));
                }
                child.normalize();
                insert_node(&mut sorted, child);
            },
        }
    }
    sorted
}

/// The texts of the trees of `nodes`, joined by the operator of their parent.
fn join_nodes(nodes: &Vec<AuthorizationExpression>, parent: Operator) -> (text: String)
    ensures
        text@ == joined(views(nodes@), nodes.len() as int, parent),
    decreases nodes, 1nat,
{
    let mut text = String::new();
    let mut i: usize = 0;
    while i < nodes.len()
        invariant
            0 <= i <= nodes.len(),
            text@ == joined(views(nodes@), i as int, parent),
        decreases nodes.len() - i,
    {
        let ghost before = text@;
        if i > 0 {
            match parent {
                Operator::Conjunction => text.push('&'),
                Operator::Disjunction => text.push('|'),
            }
        }
        let inner = nodes[i].to_expression_str();
        let in_parentheses = match (&nodes[i], parent) {
            (AuthorizationExpression::ConjunctionOf(_), Operator::Disjunction) => true,
            (AuthorizationExpression::DisjunctionOf(_), Operator::Conjunction) => true,
            _ => false,
        };
        if in_parentheses {
            text.push('(');
            text.append(inner.as_str());
            text.push(')');
        } else {
            text.append(inner.as_str());
        }
        proof {
            let children = views(nodes@);
            let operand = if needs_parentheses(children[i as int], parent) {
                seq!['('] + inner@ + seq![')']
            } else {
                inner@
            };
            if i > 0 {
                assert(text@ =~= before + seq![separator(parent)] + operand);
            } else {
                assert(text@ =~= operand);
            }
        }
        i += 1;
    }
    text
}

/// Compares two lists of trees lexicographically.
fn compare_nodes(a: &Vec<AuthorizationExpression>, b: &Vec<AuthorizationExpression>) -> (order:
    Comparison)
    ensures
        order == compare_children(views(a@), views(b@), 0),
    decreases a, 1nat,
{
    let mut i: usize = 0;
    while i < a.len() && i < b.len()
        invariant
            0 <= i <= a.len(),
            i <= b.len(),
            compare_children(views(a@), views(b@), i as int) == compare_children(
                views(a@),
                views(b@),
                0,
            ),
        decreases a.len() - i,
    {
        match a[i].compare(&b[i]) {
            Comparison::Equal => {},
            decided => {
                return decided;
            },
        }
        i += 1;
    }
    if a.len() < b.len() {
        Comparison::Less
    } else if a.len() > b.len() {
        Comparison::Greater
    } else {
        Comparison::Equal
    }
}

} // verus!
