//! What holds of the order of expressions: it is transitive, and a set of
//! expressions stands in ascending order in one way only. So equal
//! expressions have one normal form.

use vstd::prelude::*;
use crate::authorization_expression::ascending;
use crate::authorization_expression::compare_children;
use crate::authorization_expression::in_order_at;
use crate::authorization_expression::lemma_compare_children_equal;
use crate::authorization_expression::lemma_compare_equal;
use crate::authorization_expression::covered_by;
use crate::authorization_expression::found_in;
use crate::authorization_expression::same_members;
use crate::authorization_expression::sorted_normal_forms;
use crate::authorization_expression::Expression;
use crate::laws::lemma_covered_by_means;
use crate::laws::lemma_equiv_symmetric;
use crate::laws::lemma_equiv_transitive;
use crate::laws::lemma_found_in_means;
use crate::laws::lemma_normal_form_is_equal;
use crate::laws::lemma_sorted_normal_forms_ascending;
use crate::laws::lemma_sorted_normal_forms_members;
use crate::text::compare_chars;
use crate::text::Comparison;

verus! {

/// If a character sequence comes before a second, and the second before a
/// third, the first comes before the third.
pub proof fn lemma_compare_chars_transitive(a: Seq<char>, b: Seq<char>, c: Seq<char>)
    requires
        compare_chars(a, b) == Comparison::Less,
        compare_chars(b, c) == Comparison::Less,
    ensures
        compare_chars(a, c) == Comparison::Less,
    decreases a.len(),
{
    if a.len() > 0 && b.len() > 0 && c.len() > 0 && a[0] == b[0] && b[0] == c[0] {
        lemma_compare_chars_transitive(a.drop_first(), b.drop_first(), c.drop_first());
    }
}

/// The place of an expression among the kinds: the empty expression, then
/// the composites, then the access tokens.
pub open spec fn rank(e: Expression) -> int {
    match e {
        Expression::Nil => 0,
        Expression::ConjunctionOf(_) => 1,
        Expression::DisjunctionOf(_) => 1,
        Expression::AccessToken(_) => 2,
    }
}

/// The children of a composite.
pub open spec fn children_of(e: Expression) -> Seq<Expression> {
    match e {
        Expression::ConjunctionOf(children) => children,
        Expression::DisjunctionOf(children) => children,
        _ => Seq::empty(),
    }
}

/// The characters of an access token.
pub open spec fn value_of(e: Expression) -> Seq<char> {
    match e {
        Expression::AccessToken(value) => value,
        _ => Seq::empty(),
    }
}

/// Whether `a` comes before `b`, said by their kinds, their values and their
/// children.
pub open spec fn precedes(a: Expression, b: Expression) -> bool {
    ||| rank(a) < rank(b)
    ||| rank(a) == 2 && rank(b) == 2 && compare_chars(value_of(a), value_of(b))
        == Comparison::Less
    ||| rank(a) == 1 && rank(b) == 1 && compare_children(children_of(a), children_of(b), 0)
        == Comparison::Less
    ||| rank(a) == 1 && rank(b) == 1 && compare_children(children_of(a), children_of(b), 0)
        == Comparison::Equal && a is ConjunctionOf && b is DisjunctionOf
}

/// An expression comes before another exactly when it precedes it.
pub proof fn lemma_less_means_precedes(a: Expression, b: Expression)
    ensures
        a.compare(b) == Comparison::Less <==> precedes(a, b),
{
}

/// If the children of a composite from index `i` on come before those of a
/// second, and those of the second before those of a third, those of the
/// first come before those of the third.
pub proof fn lemma_compare_children_transitive(
    x: Seq<Expression>,
    y: Seq<Expression>,
    z: Seq<Expression>,
    i: int,
)
    requires
        0 <= i,
        compare_children(x, y, i) == Comparison::Less,
        compare_children(y, z, i) == Comparison::Less,
    ensures
        compare_children(x, z, i) == Comparison::Less,
    decreases x, x.len() - i,
{
    if i < x.len() && i < y.len() && i < z.len() {
        lemma_compare_equal(x[i], y[i]);
        lemma_compare_equal(y[i], z[i]);
        lemma_compare_equal(x[i], z[i]);
        let first = x[i].compare(y[i]);
        let second = y[i].compare(z[i]);
        if first == Comparison::Less && second == Comparison::Less {
            lemma_compare_transitive(x[i], y[i], z[i]);
        } else if first == Comparison::Equal && second == Comparison::Equal {
            lemma_compare_children_transitive(x, y, z, i + 1);
        }
    }
}

/// If an expression comes before a second, and the second before a third,
/// the first comes before the third.
pub proof fn lemma_compare_transitive(a: Expression, b: Expression, c: Expression)
    requires
        a.compare(b) == Comparison::Less,
        b.compare(c) == Comparison::Less,
    ensures
        a.compare(c) == Comparison::Less,
    decreases a, 0nat,
{
    lemma_less_means_precedes(a, b);
    lemma_less_means_precedes(b, c);
    lemma_less_means_precedes(a, c);
    if rank(a) == rank(b) && rank(b) == rank(c) {
        if rank(a) == 2 {
            lemma_compare_chars_transitive(value_of(a), value_of(b), value_of(c));
        } else if rank(a) == 1 {
            let x = children_of(a);
            let y = children_of(b);
            let z = children_of(c);
            lemma_compare_children_equal(x, y, 0);
            lemma_compare_children_equal(y, z, 0);
            assert(x.skip(0) == x);
            assert(y.skip(0) == y);
            assert(z.skip(0) == z);
            if compare_children(x, y, 0) == Comparison::Less && compare_children(y, z, 0)
                == Comparison::Less {
                lemma_compare_children_transitive(x, y, z, 0);
            }
        }
    }
}

/// In an ascending sequence each expression comes before each that stands
/// after it.
pub proof fn lemma_ascending_pairs(items: Seq<Expression>, i: int, j: int)
    requires
        ascending(items),
        0 <= i < j < items.len(),
    ensures
        items[i].compare(items[j]) == Comparison::Less,
    decreases j - i,
{
    assert(in_order_at(items, j - 1));
    if i + 1 < j {
        lemma_ascending_pairs(items, i, j - 1);
        lemma_compare_transitive(items[i], items[j - 1], items[j]);
    }
}

/// What is left of an ascending sequence without its first expression is
/// ascending.
pub proof fn lemma_ascending_rest(items: Seq<Expression>)
    requires
        ascending(items),
        items.len() > 0,
    ensures
        ascending(items.drop_first()),
{
    let rest = items.drop_first();
    assert forall|i: int| 0 <= i && i + 1 < rest.len() implies #[trigger] in_order_at(rest, i) by {
        assert(in_order_at(items, i + 1));
        assert(rest[i] == items[i + 1]);
        assert(rest[i + 1] == items[i + 2]);
    }
}

/// Two ascending sequences that hold the same expressions are the same
/// sequence.
pub proof fn lemma_ascending_unique(a: Seq<Expression>, b: Seq<Expression>)
    requires
        ascending(a),
        ascending(b),
        forall|e: Expression| a.contains(e) <==> b.contains(e),
    ensures
        a == b,
    decreases a.len(),
{
    if a.len() == 0 {
        if b.len() > 0 {
            assert(b.contains(b[0]));
            assert(a.contains(b[0]));
        }
        assert(a =~= b);
    } else {
        assert(a.contains(a[0]));
        assert(b.contains(a[0]));
        let p = choose|p: int| 0 <= p < b.len() && b[p] == a[0];
        assert(b.contains(b[0]));
        assert(a.contains(b[0]));
        let q = choose|q: int| 0 <= q < a.len() && a[q] == b[0];
        lemma_compare_equal(a[0], a[0]);
        if p > 0 {
            lemma_ascending_pairs(b, 0, p);
            if q > 0 {
                lemma_ascending_pairs(a, 0, q);
                lemma_compare_transitive(a[0], b[0], a[0]);
            }
            assert(false);
        }
        assert(a[0] == b[0]);
        let a_rest = a.drop_first();
        let b_rest = b.drop_first();
        lemma_ascending_rest(a);
        lemma_ascending_rest(b);
        assert forall|e: Expression| a_rest.contains(e) <==> b_rest.contains(e) by {
            if a_rest.contains(e) {
                let i = choose|i: int| 0 <= i < a_rest.len() && a_rest[i] == e;
                assert(a[i + 1] == e);
                assert(a.contains(e));
                assert(b.contains(e));
                let r = choose|r: int| 0 <= r < b.len() && b[r] == e;
                if r == 0 {
                    lemma_ascending_pairs(a, 0, i + 1);
                    assert(false);
                }
                assert(b_rest[r - 1] == e);
            }
            if b_rest.contains(e) {
                let i = choose|i: int| 0 <= i < b_rest.len() && b_rest[i] == e;
                assert(b[i + 1] == e);
                assert(b.contains(e));
                assert(a.contains(e));
                let r = choose|r: int| 0 <= r < a.len() && a[r] == e;
                if r == 0 {
                    lemma_ascending_pairs(b, 0, i + 1);
                    assert(false);
                }
                assert(a_rest[r - 1] == e);
            }
        }
        lemma_ascending_unique(a_rest, b_rest);
        assert(a =~= seq![a[0]] + a_rest);
        assert(b =~= seq![b[0]] + b_rest);
    }
}

/// Equal expressions have the same normal form.
pub proof fn lemma_equal_have_one_normal_form(a: Expression, b: Expression)
    requires
        a.equiv(b),
    ensures
        a.normal_form() == b.normal_form(),
    decreases a, 0int,
{
    match a {
        Expression::ConjunctionOf(x) => {
            let y = b->ConjunctionOf_0;
            lemma_same_members_sorted_alike(x, y);
        },
        Expression::DisjunctionOf(x) => {
            let y = b->DisjunctionOf_0;
            lemma_same_members_sorted_alike(x, y);
        },
        _ => {},
    }
}

/// Two sequences with the same members have the same sorted normal forms.
proof fn lemma_same_members_sorted_alike(a: Seq<Expression>, b: Seq<Expression>)
    requires
        same_members(a, b),
    ensures
        sorted_normal_forms(a, 0) == sorted_normal_forms(b, 0),
    decreases a, 1int,
{
    let sorted_a = sorted_normal_forms(a, 0);
    let sorted_b = sorted_normal_forms(b, 0);
    lemma_sorted_normal_forms_ascending(a, 0);
    lemma_sorted_normal_forms_ascending(b, 0);
    assert forall|e: Expression| sorted_a.contains(e) <==> sorted_b.contains(e) by {
        lemma_sorted_normal_forms_members(a, 0, e);
        lemma_sorted_normal_forms_members(b, 0, e);
        if sorted_a.contains(e) {
            let k = choose|k: int| 0 <= k < a.len() && (#[trigger] a[k]).normal_form() == e;
            assert(found_in(a[k], b, b.len() as int));
            lemma_found_in_means(a[k], b);
            let j = choose|j: int| 0 <= j < b.len() && a[k].equiv(#[trigger] b[j]);
            lemma_equal_have_one_normal_form(a[k], b[j]);
            assert(b[j].normal_form() == e);
        }
        if sorted_b.contains(e) {
            let j = choose|j: int| 0 <= j < b.len() && (#[trigger] b[j]).normal_form() == e;
            assert(covered_by(a, a.len() as int, b[j]));
            lemma_covered_by_means(a, b[j]);
            let k = choose|k: int| 0 <= k < a.len() && (#[trigger] a[k]).equiv(b[j]);
            lemma_equal_have_one_normal_form(a[k], b[j]);
            assert(a[k].normal_form() == e);
        }
    }
    lemma_ascending_unique(sorted_a, sorted_b);
}

/// Two expressions are equal exactly if they have the same normal form.
pub proof fn lemma_equal_means_one_normal_form(a: Expression, b: Expression)
    ensures
        a.equiv(b) <==> a.normal_form() == b.normal_form(),
{
    if a.equiv(b) {
        lemma_equal_have_one_normal_form(a, b);
    }
    if a.normal_form() == b.normal_form() {
        lemma_normal_form_is_equal(a);
        lemma_normal_form_is_equal(b);
        lemma_equiv_symmetric(a.normal_form(), a);
        lemma_equiv_transitive(a, a.normal_form(), b);
    }
}

} // verus!
