//! What holds of expressions: of their equality, of their normal form, and of
//! what evaluates them.

use vstd::prelude::*;
use crate::authorization_expression::ascending;
use crate::authorization_expression::covered_by;
use crate::authorization_expression::found_in;
use crate::authorization_expression::in_order_at;
use crate::authorization_expression::insert_sorted;
use crate::authorization_expression::lemma_compare_equal;
use crate::authorization_expression::lemma_compare_flip;
use crate::authorization_expression::lemma_covered_by_more;
use crate::authorization_expression::lemma_found_in_more;
use crate::authorization_expression::same_members;
use crate::authorization_expression::sorted_normal_forms;
use crate::authorization_expression::Expression;
use crate::text::Comparison;

verus! {

/// An expression that is equal to the one at index `j` of `others` is found
/// in `others`.
pub proof fn lemma_member_is_found(item: Expression, others: Seq<Expression>, j: int)
    requires
        0 <= j < others.len(),
        item.equiv(others[j]),
    ensures
        found_in(item, others, others.len() as int),
{
    assert(found_in(item, others, j + 1));
    lemma_found_in_more(item, others, j + 1, others.len() as int);
}

/// The expression at index `i` of `items` covers any expression that it is
/// equal to.
pub proof fn lemma_member_is_covered(items: Seq<Expression>, i: int, other: Expression)
    requires
        0 <= i < items.len(),
        items[i].equiv(other),
    ensures
        covered_by(items, items.len() as int, other),
{
    assert(covered_by(items, i + 1, other));
    lemma_covered_by_more(items, i + 1, items.len() as int, other);
}

/// An index of `others` at which stands an expression that `item`, which is
/// found among the first `count` of `others`, is equal to.
pub proof fn lemma_found_at(item: Expression, others: Seq<Expression>, count: int) -> (j: int)
    requires
        found_in(item, others, count),
    ensures
        0 <= j < count,
        j < others.len(),
        item.equiv(others[j]),
    decreases count,
{
    if item.equiv(others[count - 1]) {
        count - 1
    } else {
        lemma_found_at(item, others, count - 1)
    }
}

/// An index of `items` at which stands an expression that is equal to
/// `other`, which the first `count` of `items` cover.
pub proof fn lemma_covered_at(items: Seq<Expression>, count: int, other: Expression) -> (i: int)
    requires
        covered_by(items, count, other),
    ensures
        0 <= i < count,
        i < items.len(),
        items[i].equiv(other),
    decreases count,
{
    if items[count - 1].equiv(other) {
        count - 1
    } else {
        lemma_covered_at(items, count - 1, other)
    }
}

/// Whether an expression is found in a sequence: whether it is equal to one
/// of the expressions of the sequence.
pub proof fn lemma_found_in_means(item: Expression, others: Seq<Expression>)
    ensures
        found_in(item, others, others.len() as int) <==> exists|j: int|
            0 <= j < others.len() && item.equiv(#[trigger] others[j]),
{
    if found_in(item, others, others.len() as int) {
        let j = lemma_found_at(item, others, others.len() as int);
        assert(item.equiv(others[j]));
    }
    if exists|j: int| 0 <= j < others.len() && item.equiv(#[trigger] others[j]) {
        let j = choose|j: int| 0 <= j < others.len() && item.equiv(#[trigger] others[j]);
        lemma_member_is_found(item, others, j);
    }
}

/// Whether a sequence covers an expression: whether one of its expressions
/// is equal to it.
pub proof fn lemma_covered_by_means(items: Seq<Expression>, other: Expression)
    ensures
        covered_by(items, items.len() as int, other) <==> exists|i: int|
            0 <= i < items.len() && (#[trigger] items[i]).equiv(other),
{
    if covered_by(items, items.len() as int, other) {
        let i = lemma_covered_at(items, items.len() as int, other);
        assert(items[i].equiv(other));
    }
    if exists|i: int| 0 <= i < items.len() && (#[trigger] items[i]).equiv(other) {
        let i = choose|i: int| 0 <= i < items.len() && (#[trigger] items[i]).equiv(other);
        lemma_member_is_covered(items, i, other);
    }
}

/// Each expression of one of two sequences with the same members is found
/// in the other.
pub proof fn lemma_members_are_found(a: Seq<Expression>, b: Seq<Expression>, i: int)
    requires
        same_members(a, b),
        0 <= i < a.len(),
    ensures
        found_in(a[i], b, b.len() as int),
{
}

/// Each expression of one of two sequences with the same members is covered
/// by the other.
pub proof fn lemma_members_are_covered(a: Seq<Expression>, b: Seq<Expression>, j: int)
    requires
        same_members(a, b),
        0 <= j < b.len(),
    ensures
        covered_by(a, a.len() as int, b[j]),
{
}

/// Two composites of one kind whose children are the same up to order and
/// repetition are equal.
pub proof fn lemma_same_members_equal(a: Seq<Expression>, b: Seq<Expression>)
    requires
        same_members(a, b),
    ensures
        Expression::ConjunctionOf(a).equiv(Expression::ConjunctionOf(b)),
        Expression::DisjunctionOf(a).equiv(Expression::DisjunctionOf(b)),
{
}

/// Two sequences have the same members if each expression of the first is
/// found in the second and each expression of the second is covered by the
/// first.
pub proof fn lemma_members_suffice(a: Seq<Expression>, b: Seq<Expression>)
    requires
        forall|i: int| 0 <= i < a.len() ==> found_in(#[trigger] a[i], b, b.len() as int),
        forall|j: int| 0 <= j < b.len() ==> covered_by(a, a.len() as int, #[trigger] b[j]),
    ensures
        same_members(a, b),
{
}

/// A sequence of expressions has the same members as itself.
proof fn lemma_same_members_reflexive(a: Seq<Expression>)
    requires
        forall|i: int| 0 <= i < a.len() ==> (#[trigger] a[i]).equiv(a[i]),
    ensures
        same_members(a, a),
{
    assert forall|i: int| 0 <= i < a.len() implies found_in(#[trigger] a[i], a, a.len() as int) by {
        lemma_member_is_found(a[i], a, i);
    }
    assert forall|j: int| 0 <= j < a.len() implies covered_by(a, a.len() as int, #[trigger] a[j]) by {
        lemma_member_is_covered(a, j, a[j]);
    }
    lemma_members_suffice(a, a);
}

/// Every expression is equal to itself.
pub proof fn lemma_equiv_reflexive(e: Expression)
    ensures
        e.equiv(e),
    decreases e,
{
    match e {
        Expression::ConjunctionOf(children) => {
            assert forall|i: int| 0 <= i < children.len() implies (#[trigger] children[i]).equiv(
                children[i],
            ) by {
                lemma_equiv_reflexive(children[i]);
            }
            lemma_same_members_reflexive(children);
        },
        Expression::DisjunctionOf(children) => {
            assert forall|i: int| 0 <= i < children.len() implies (#[trigger] children[i]).equiv(
                children[i],
            ) by {
                lemma_equiv_reflexive(children[i]);
            }
            lemma_same_members_reflexive(children);
        },
        _ => {},
    }
}

/// If an expression is equal to another, the other is equal to it.
pub proof fn lemma_equiv_symmetric(a: Expression, b: Expression)
    requires
        a.equiv(b),
    ensures
        b.equiv(a),
    decreases a, 1nat,
{
    match a {
        Expression::ConjunctionOf(x) => {
            let y = b->ConjunctionOf_0;
            lemma_same_members_symmetric(x, y);
            lemma_same_members_equal(y, x);
        },
        Expression::DisjunctionOf(x) => {
            let y = b->DisjunctionOf_0;
            lemma_same_members_symmetric(x, y);
            lemma_same_members_equal(y, x);
        },
        _ => {},
    }
}

/// The same of the children of two composites.
proof fn lemma_same_members_symmetric(x: Seq<Expression>, y: Seq<Expression>)
    requires
        same_members(x, y),
    ensures
        same_members(y, x),
    decreases x, 0nat,
{
    assert forall|j: int| 0 <= j < y.len() implies found_in(#[trigger] y[j], x, x.len() as int) by {
        lemma_members_are_covered(x, y, j);
        let i = lemma_covered_at(x, x.len() as int, y[j]);
        lemma_equiv_symmetric(x[i], y[j]);
        lemma_member_is_found(y[j], x, i);
    }
    assert forall|i: int| 0 <= i < x.len() implies covered_by(y, y.len() as int, #[trigger] x[i]) by {
        lemma_members_are_found(x, y, i);
        let j = lemma_found_at(x[i], y, y.len() as int);
        lemma_equiv_symmetric(x[i], y[j]);
        lemma_member_is_covered(y, j, x[i]);
    }
    lemma_members_suffice(y, x);
}

/// Two expressions that are equal to a third are equal to one another.
pub proof fn lemma_equiv_transitive(a: Expression, b: Expression, c: Expression)
    requires
        a.equiv(b),
        b.equiv(c),
    ensures
        a.equiv(c),
    decreases a, 1nat,
{
    match a {
        Expression::ConjunctionOf(x) => {
            let y = b->ConjunctionOf_0;
            let z = c->ConjunctionOf_0;
            lemma_same_members_transitive(x, y, z);
            lemma_same_members_equal(x, z);
        },
        Expression::DisjunctionOf(x) => {
            let y = b->DisjunctionOf_0;
            let z = c->DisjunctionOf_0;
            lemma_same_members_transitive(x, y, z);
            lemma_same_members_equal(x, z);
        },
        _ => {},
    }
}

/// The same of the children of three composites.
proof fn lemma_same_members_transitive(
    x: Seq<Expression>,
    y: Seq<Expression>,
    z: Seq<Expression>,
)
    requires
        same_members(x, y),
        same_members(y, z),
    ensures
        same_members(x, z),
    decreases x, 0nat,
{
    assert forall|i: int| 0 <= i < x.len() implies found_in(#[trigger] x[i], z, z.len() as int) by {
        lemma_members_are_found(x, y, i);
        let j = lemma_found_at(x[i], y, y.len() as int);
        lemma_members_are_found(y, z, j);
        let k = lemma_found_at(y[j], z, z.len() as int);
        lemma_equiv_transitive(x[i], y[j], z[k]);
        lemma_member_is_found(x[i], z, k);
    }
    assert forall|k: int| 0 <= k < z.len() implies covered_by(x, x.len() as int, #[trigger] z[k]) by {
        lemma_members_are_covered(y, z, k);
        let j = lemma_covered_at(y, y.len() as int, z[k]);
        lemma_members_are_covered(x, y, j);
        let i = lemma_covered_at(x, x.len() as int, y[j]);
        lemma_equiv_transitive(x[i], y[j], z[k]);
        lemma_member_is_covered(x, i, z[k]);
    }
    lemma_members_suffice(x, z);
}

/// A composite is equal to any composite of the same kind that has the same
/// children, in whatever order they stand there and however often each is
/// repeated.
pub proof fn lemma_composites_equal_as_sets(a: Seq<Expression>, b: Seq<Expression>)
    requires
        forall|e: Expression| a.contains(e) <==> b.contains(e),
    ensures
        Expression::ConjunctionOf(a).equiv(Expression::ConjunctionOf(b)),
        Expression::DisjunctionOf(a).equiv(Expression::DisjunctionOf(b)),
{
    assert forall|i: int| 0 <= i < a.len() implies found_in(#[trigger] a[i], b, b.len() as int) by {
        assert(a.contains(a[i]));
        assert(b.contains(a[i]));
        let j = choose|j: int| 0 <= j < b.len() && b[j] == a[i];
        lemma_equiv_reflexive(a[i]);
        lemma_member_is_found(a[i], b, j);
    }
    assert forall|j: int| 0 <= j < b.len() implies covered_by(a, a.len() as int, #[trigger] b[j]) by {
        assert(b.contains(b[j]));
        assert(a.contains(b[j]));
        let i = choose|i: int| 0 <= i < a.len() && a[i] == b[j];
        lemma_equiv_reflexive(b[j]);
        lemma_member_is_covered(a, i, b[j]);
    }
    lemma_members_suffice(a, b);
    lemma_same_members_equal(a, b);
}

/// A composite is equal to the composite of its children in another order:
/// here, with the two parts of the sequence exchanged.
pub proof fn lemma_composite_order_is_irrelevant(front: Seq<Expression>, back: Seq<Expression>)
    ensures
        Expression::ConjunctionOf(front + back).equiv(Expression::ConjunctionOf(back + front)),
        Expression::DisjunctionOf(front + back).equiv(Expression::DisjunctionOf(back + front)),
{
    let a = front + back;
    let b = back + front;
    assert forall|e: Expression| a.contains(e) <==> b.contains(e) by {
        if a.contains(e) {
            let i = choose|i: int| 0 <= i < a.len() && a[i] == e;
            if i < front.len() {
                assert(b[back.len() + i] == e);
            } else {
                assert(b[i - front.len()] == e);
            }
        }
        if b.contains(e) {
            let i = choose|i: int| 0 <= i < b.len() && b[i] == e;
            if i < back.len() {
                assert(a[front.len() + i] == e);
            } else {
                assert(a[i - back.len()] == e);
            }
        }
    }
    lemma_composites_equal_as_sets(a, b);
}

/// A composite is equal to the composite in which one of its children is
/// repeated.
pub proof fn lemma_composite_repetition_is_irrelevant(children: Seq<Expression>, i: int)
    requires
        0 <= i < children.len(),
    ensures
        Expression::ConjunctionOf(children.push(children[i])).equiv(
            Expression::ConjunctionOf(children),
        ),
        Expression::DisjunctionOf(children.push(children[i])).equiv(
            Expression::DisjunctionOf(children),
        ),
{
    let longer = children.push(children[i]);
    assert forall|e: Expression| longer.contains(e) <==> children.contains(e) by {
        if longer.contains(e) {
            let k = choose|k: int| 0 <= k < longer.len() && longer[k] == e;
            if k < children.len() {
                assert(children[k] == e);
            } else {
                assert(children[i] == e);
            }
        }
        if children.contains(e) {
            let k = choose|k: int| 0 <= k < children.len() && children[k] == e;
            assert(longer[k] == e);
        }
    }
    lemma_composites_equal_as_sets(longer, children);
}

/// What `insert_sorted` gives holds the item and what the sequence held, and
/// nothing else.
pub proof fn lemma_insert_sorted_members(sorted: Seq<Expression>, item: Expression, e: Expression)
    ensures
        insert_sorted(sorted, item).contains(e) <==> (sorted.contains(e) || e == item),
    decreases sorted.len(),
{
    let result = insert_sorted(sorted, item);
    if sorted.len() == 0 {
        assert(result[0] == item);
    } else {
        let rest = sorted.drop_first();
        assert(sorted =~= seq![sorted[0]] + rest);
        match item.compare(sorted[0]) {
            Comparison::Less => {
                lemma_contains_after_head(item, sorted, e);
            },
            Comparison::Equal => {
                lemma_compare_equal(item, sorted[0]);
                assert(sorted.contains(item));
            },
            Comparison::Greater => {
                lemma_insert_sorted_members(rest, item, e);
                lemma_contains_after_head(sorted[0], insert_sorted(rest, item), e);
                lemma_contains_after_head(sorted[0], rest, e);
            },
        }
    }
}

/// A sequence with one more expression at its head holds that expression and
/// what the sequence held.
proof fn lemma_contains_after_head(head: Expression, tail: Seq<Expression>, e: Expression)
    ensures
        (seq![head] + tail).contains(e) <==> (e == head || tail.contains(e)),
{
    let whole = seq![head] + tail;
    if whole.contains(e) {
        let i = choose|i: int| 0 <= i < whole.len() && whole[i] == e;
        if i > 0 {
            assert(tail[i - 1] == e);
        }
    }
    if e == head {
        assert(whole[0] == e);
    }
    if tail.contains(e) {
        let i = choose|i: int| 0 <= i < tail.len() && tail[i] == e;
        assert(whole[i + 1] == e);
    }
}

/// The sorted normal forms of the children of a composite are the normal
/// forms of these children, and nothing else.
pub proof fn lemma_sorted_normal_forms_members(
    children: Seq<Expression>,
    from: int,
    e: Expression,
)
    requires
        0 <= from <= children.len(),
    ensures
        sorted_normal_forms(children, from).contains(e) <==> exists|k: int|
            from <= k < children.len() && (#[trigger] children[k]).normal_form() == e,
    decreases children.len() - from,
{
    if from < children.len() {
        let rest = sorted_normal_forms(children, from + 1);
        lemma_sorted_normal_forms_members(children, from + 1, e);
        lemma_insert_sorted_members(rest, children[from].normal_form(), e);
        if rest.contains(e) {
            let k = choose|k: int|
                from + 1 <= k < children.len() && (#[trigger] children[k]).normal_form() == e;
            assert(from <= k < children.len() && children[k].normal_form() == e);
        }
        if exists|k: int| from <= k < children.len() && (#[trigger] children[k]).normal_form() == e {
            let k = choose|k: int|
                from <= k < children.len() && (#[trigger] children[k]).normal_form() == e;
            if k > from {
                assert(from + 1 <= k < children.len() && children[k].normal_form() == e);
            }
        }
    } else {
        assert(sorted_normal_forms(children, from) =~= Seq::<Expression>::empty());
    }
}

/// The normal forms of the children of a composite, sorted, are satisfied
/// all together exactly when the children are.
proof fn lemma_sorted_all_satisfied(
    children: Seq<Expression>,
    sorted: Seq<Expression>,
    held: Set<Seq<char>>,
)
    requires
        sorted == sorted_normal_forms(children, 0),
        forall|k: int|
            0 <= k < children.len() ==> (#[trigger] children[k]).normal_form().eval(held)
                == children[k].eval(held),
    ensures
        (forall|i: int| 0 <= i < sorted.len() ==> (#[trigger] sorted[i]).eval(held)) <==> (forall|
            k: int,
        | 0 <= k < children.len() ==> (#[trigger] children[k]).eval(held)),
{
    if forall|k: int| 0 <= k < children.len() ==> (#[trigger] children[k]).eval(held) {
        assert forall|i: int| 0 <= i < sorted.len() implies (#[trigger] sorted[i]).eval(held) by {
            assert(sorted.contains(sorted[i]));
            lemma_sorted_normal_forms_members(children, 0, sorted[i]);
            let k = choose|k: int|
                0 <= k < children.len() && (#[trigger] children[k]).normal_form() == sorted[i];
            assert(children[k].eval(held));
        }
    }
    if forall|i: int| 0 <= i < sorted.len() ==> (#[trigger] sorted[i]).eval(held) {
        assert forall|k: int| 0 <= k < children.len() implies (#[trigger] children[k]).eval(
            held,
        ) by {
            let normal = children[k].normal_form();
            lemma_sorted_normal_forms_members(children, 0, normal);
            assert(sorted.contains(normal));
            let i = choose|i: int| 0 <= i < sorted.len() && sorted[i] == normal;
            assert(sorted[i].eval(held));
        }
    }
}

/// One of the normal forms of the children of a composite, sorted, is
/// satisfied exactly when one of the children is.
proof fn lemma_sorted_one_satisfied(
    children: Seq<Expression>,
    sorted: Seq<Expression>,
    held: Set<Seq<char>>,
)
    requires
        sorted == sorted_normal_forms(children, 0),
        forall|k: int|
            0 <= k < children.len() ==> (#[trigger] children[k]).normal_form().eval(held)
                == children[k].eval(held),
    ensures
        (exists|i: int| 0 <= i < sorted.len() && (#[trigger] sorted[i]).eval(held)) <==> (exists|
            k: int,
        | 0 <= k < children.len() && (#[trigger] children[k]).eval(held)),
{
    if exists|k: int| 0 <= k < children.len() && (#[trigger] children[k]).eval(held) {
        let k = choose|k: int| 0 <= k < children.len() && (#[trigger] children[k]).eval(held);
        let normal = children[k].normal_form();
        lemma_sorted_normal_forms_members(children, 0, normal);
        assert(sorted.contains(normal));
        let i = choose|i: int| 0 <= i < sorted.len() && sorted[i] == normal;
        assert(sorted[i].eval(held));
    }
    if exists|i: int| 0 <= i < sorted.len() && (#[trigger] sorted[i]).eval(held) {
        let i = choose|i: int| 0 <= i < sorted.len() && (#[trigger] sorted[i]).eval(held);
        assert(sorted.contains(sorted[i]));
        lemma_sorted_normal_forms_members(children, 0, sorted[i]);
        let k = choose|k: int|
            0 <= k < children.len() && (#[trigger] children[k]).normal_form() == sorted[i];
        assert(children[k].eval(held));
    }
}

/// Bringing an expression to normal form does not change which tokens
/// satisfy it.
pub proof fn lemma_normal_form_keeps_evaluation(e: Expression, held: Set<Seq<char>>)
    ensures
        e.normal_form().eval(held) == e.eval(held),
    decreases e,
{
    match e {
        Expression::ConjunctionOf(children) => {
            let sorted = sorted_normal_forms(children, 0);
            assert forall|k: int| 0 <= k < children.len() implies (
            #[trigger] children[k]).normal_form().eval(held) == children[k].eval(held) by {
                lemma_normal_form_keeps_evaluation(children[k], held);
            }
            lemma_sorted_all_satisfied(children, sorted, held);
            let normal = e.normal_form();
            assert(normal->ConjunctionOf_0 == sorted);
            assert(e->ConjunctionOf_0 == children);
        },
        Expression::DisjunctionOf(children) => {
            let sorted = sorted_normal_forms(children, 0);
            assert forall|k: int| 0 <= k < children.len() implies (
            #[trigger] children[k]).normal_form().eval(held) == children[k].eval(held) by {
                lemma_normal_form_keeps_evaluation(children[k], held);
            }
            lemma_sorted_one_satisfied(children, sorted, held);
            let normal = e.normal_form();
            assert(normal->DisjunctionOf_0 == sorted);
            assert(e->DisjunctionOf_0 == children);
        },
        _ => {},
    }
}

/// The sorted normal forms of the children of a composite have the same
/// members as the children.
proof fn lemma_sorted_same_members(children: Seq<Expression>, sorted: Seq<Expression>)
    requires
        sorted == sorted_normal_forms(children, 0),
        forall|k: int|
            0 <= k < children.len() ==> (#[trigger] children[k]).normal_form().equiv(children[k]),
    ensures
        same_members(sorted, children),
{
    assert forall|i: int| 0 <= i < sorted.len() implies found_in(#[trigger] sorted[i], children, children.len() as int) by {
        assert(sorted.contains(sorted[i]));
        lemma_sorted_normal_forms_members(children, 0, sorted[i]);
        let k = choose|k: int|
            0 <= k < children.len() && (#[trigger] children[k]).normal_form() == sorted[i];
        assert(children[k].normal_form().equiv(children[k]));
        lemma_member_is_found(sorted[i], children, k);
    }
    assert forall|k: int| 0 <= k < children.len() implies covered_by(
        sorted,
        sorted.len() as int,
        #[trigger] children[k],
    ) by {
        let normal = children[k].normal_form();
        lemma_sorted_normal_forms_members(children, 0, normal);
        assert(sorted.contains(normal));
        let i = choose|i: int| 0 <= i < sorted.len() && sorted[i] == normal;
        assert(children[k].normal_form().equiv(children[k]));
        lemma_member_is_covered(sorted, i, children[k]);
    }
    lemma_members_suffice(sorted, children);
}

/// The normal form of an expression is equal to the expression.
pub proof fn lemma_normal_form_is_equal(e: Expression)
    ensures
        e.normal_form().equiv(e),
    decreases e,
{
    match e {
        Expression::ConjunctionOf(children) => {
            let sorted = sorted_normal_forms(children, 0);
            assert forall|k: int| 0 <= k < children.len() implies (
            #[trigger] children[k]).normal_form().equiv(children[k]) by {
                lemma_normal_form_is_equal(children[k]);
            }
            lemma_sorted_same_members(children, sorted);
            lemma_same_members_equal(sorted, children);
        },
        Expression::DisjunctionOf(children) => {
            let sorted = sorted_normal_forms(children, 0);
            assert forall|k: int| 0 <= k < children.len() implies (
            #[trigger] children[k]).normal_form().equiv(children[k]) by {
                lemma_normal_form_is_equal(children[k]);
            }
            lemma_sorted_same_members(children, sorted);
            lemma_same_members_equal(sorted, children);
        },
        _ => {},
    }
}

/// Putting an expression at its place in an ascending sequence leaves the
/// sequence ascending; the result starts with that expression or as the
/// sequence did.
pub proof fn lemma_insert_sorted_ascending(sorted: Seq<Expression>, item: Expression)
    requires
        ascending(sorted),
    ensures
        ascending(insert_sorted(sorted, item)),
        insert_sorted(sorted, item).len() > 0,
        insert_sorted(sorted, item)[0] == item || (sorted.len() > 0 && insert_sorted(
            sorted,
            item,
        )[0] == sorted[0]),
    decreases sorted.len(),
{
    if sorted.len() > 0 {
        let rest = sorted.drop_first();
        match item.compare(sorted[0]) {
            Comparison::Less => {
                let result = seq![item] + sorted;
                assert forall|i: int| 0 <= i && i + 1 < result.len() implies #[trigger] in_order_at(
                    result,
                    i,
                ) by {
                    if i > 0 {
                        assert(in_order_at(sorted, i - 1));
                        assert(result[i] == sorted[i - 1]);
                        assert(result[i + 1] == sorted[i]);
                    } else {
                        assert(result[0] == item);
                        assert(result[1] == sorted[0]);
                    }
                }
            },
            Comparison::Equal => {},
            Comparison::Greater => {
                assert forall|i: int| 0 <= i && i + 1 < rest.len() implies #[trigger] in_order_at(
                    rest,
                    i,
                ) by {
                    assert(in_order_at(sorted, i + 1));
                    assert(rest[i] == sorted[i + 1]);
                    assert(rest[i + 1] == sorted[i + 2]);
                }
                lemma_insert_sorted_ascending(rest, item);
                lemma_compare_flip(sorted[0], item);
                lemma_compare_flip(item, sorted[0]);
                let inner = insert_sorted(rest, item);
                let result = seq![sorted[0]] + inner;
                assert forall|i: int| 0 <= i && i + 1 < result.len() implies #[trigger] in_order_at(
                    result,
                    i,
                ) by {
                    if i > 0 {
                        assert(in_order_at(inner, i - 1));
                        assert(result[i] == inner[i - 1]);
                        assert(result[i + 1] == inner[i]);
                    } else {
                        assert(result[0] == sorted[0]);
                        assert(result[1] == inner[0]);
                        if inner[0] != item {
                            assert(inner[0] == rest[0]);
                            assert(rest[0] == sorted[1]);
                            assert(in_order_at(sorted, 0));
                        }
                    }
                }
            },
        }
    } else {
        let result = insert_sorted(sorted, item);
        assert(result.len() == 1);
    }
}

/// The sorted normal forms of the children of a composite are ascending.
pub proof fn lemma_sorted_normal_forms_ascending(children: Seq<Expression>, from: int)
    requires
        0 <= from <= children.len(),
    ensures
        ascending(sorted_normal_forms(children, from)),
    decreases children.len() - from,
{
    if from < children.len() {
        lemma_sorted_normal_forms_ascending(children, from + 1);
        lemma_insert_sorted_ascending(
            sorted_normal_forms(children, from + 1),
            children[from].normal_form(),
        );
    }
}

/// The sorted normal forms of the children of a composite are all in normal
/// form.
proof fn lemma_sorted_all_normal(children: Seq<Expression>, sorted: Seq<Expression>)
    requires
        sorted == sorted_normal_forms(children, 0),
        forall|k: int| 0 <= k < children.len() ==> (#[trigger] children[k]).normal_form().is_normal(),
    ensures
        forall|i: int| 0 <= i < sorted.len() ==> (#[trigger] sorted[i]).is_normal(),
{
    assert forall|i: int| 0 <= i < sorted.len() implies (#[trigger] sorted[i]).is_normal() by {
        assert(sorted.contains(sorted[i]));
        lemma_sorted_normal_forms_members(children, 0, sorted[i]);
        let k = choose|k: int|
            0 <= k < children.len() && (#[trigger] children[k]).normal_form() == sorted[i];
        assert(children[k].normal_form().is_normal());
    }
}

/// A composite is in normal form if its children are ascending and in normal
/// form.
proof fn lemma_composite_is_normal(children: Seq<Expression>)
    requires
        ascending(children),
        forall|i: int| 0 <= i < children.len() ==> (#[trigger] children[i]).is_normal(),
    ensures
        Expression::ConjunctionOf(children).is_normal(),
        Expression::DisjunctionOf(children).is_normal(),
{
    let conjunction = Expression::ConjunctionOf(children);
    let disjunction = Expression::DisjunctionOf(children);
    assert(conjunction->ConjunctionOf_0 == children);
    assert(disjunction->DisjunctionOf_0 == children);
}

/// The children of a composite in normal form are ascending and in normal
/// form.
proof fn lemma_normal_composite(e: Expression, children: Seq<Expression>)
    requires
        e.is_normal(),
        e == Expression::ConjunctionOf(children) || e == Expression::DisjunctionOf(children),
    ensures
        ascending(children),
        forall|i: int| 0 <= i < children.len() ==> (#[trigger] children[i]).is_normal(),
{
    if e is ConjunctionOf {
        assert(e->ConjunctionOf_0 == children);
    } else {
        assert(e->DisjunctionOf_0 == children);
    }
}

/// The normal form of an expression is in normal form.
pub proof fn lemma_normal_form_is_normal(e: Expression)
    ensures
        e.normal_form().is_normal(),
    decreases e,
{
    match e {
        Expression::ConjunctionOf(children) => {
            let sorted = sorted_normal_forms(children, 0);
            lemma_sorted_normal_forms_ascending(children, 0);
            assert forall|k: int| 0 <= k < children.len() implies (
            #[trigger] children[k]).normal_form().is_normal() by {
                lemma_normal_form_is_normal(children[k]);
            }
            lemma_sorted_all_normal(children, sorted);
            lemma_composite_is_normal(sorted);
        },
        Expression::DisjunctionOf(children) => {
            let sorted = sorted_normal_forms(children, 0);
            lemma_sorted_normal_forms_ascending(children, 0);
            assert forall|k: int| 0 <= k < children.len() implies (
            #[trigger] children[k]).normal_form().is_normal() by {
                lemma_normal_form_is_normal(children[k]);
            }
            lemma_sorted_all_normal(children, sorted);
            lemma_composite_is_normal(sorted);
        },
        _ => {},
    }
}

/// An expression in normal form is its own normal form.
pub proof fn lemma_normal_is_fixed(e: Expression)
    requires
        e.is_normal(),
    ensures
        e.normal_form() == e,
    decreases e, 1nat,
{
    match e {
        Expression::ConjunctionOf(children) => {
            lemma_normal_composite(e, children);
            lemma_normal_children_are_fixed(children, 0);
            assert(children.skip(0) =~= children);
        },
        Expression::DisjunctionOf(children) => {
            lemma_normal_composite(e, children);
            lemma_normal_children_are_fixed(children, 0);
            assert(children.skip(0) =~= children);
        },
        _ => {},
    }
}

/// The sorted normal forms of ascending children in normal form are these
/// children as they stand.
proof fn lemma_normal_children_are_fixed(children: Seq<Expression>, from: int)
    requires
        0 <= from <= children.len(),
        ascending(children),
        forall|i: int| 0 <= i < children.len() ==> (#[trigger] children[i]).is_normal(),
    ensures
        sorted_normal_forms(children, from) == children.skip(from),
    decreases children, children.len() - from,
{
    if from < children.len() {
        lemma_normal_children_are_fixed(children, from + 1);
        assert(children[from].is_normal());
        lemma_normal_is_fixed(children[from]);
        let rest = children.skip(from + 1);
        let item = children[from];
        if rest.len() > 0 {
            assert(rest[0] == children[from + 1]);
            assert(in_order_at(children, from));
            assert(item.compare(rest[0]) == Comparison::Less);
        }
        assert(insert_sorted(rest, item) =~= children.skip(from));
    } else {
        assert(sorted_normal_forms(children, from) =~= children.skip(from));
    }
}

/// Normalizing twice gives what normalizing once gives.
pub proof fn lemma_normal_form_idempotent(e: Expression)
    ensures
        e.normal_form().normal_form() == e.normal_form(),
{
    lemma_normal_form_is_normal(e);
    lemma_normal_is_fixed(e.normal_form());
}

} // verus!
