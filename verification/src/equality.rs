//! `==` and `<` on expression trees, and `==` on sets of authorizations.

use vstd::prelude::*;
use vstd::std_specs::cmp::PartialEqSpecImpl;
use vstd::std_specs::cmp::PartialOrdSpecImpl;
use std::cmp::Ordering;
use crate::authorization_expression::AuthorizationExpression;
use crate::authorizations::Authorizations;
use crate::text::Comparison;

verus! {

impl PartialEq for AuthorizationExpression {
    /// Two trees are equal if they are equal as expressions: composites are
    /// compared as the sets of their children.
    fn eq(&self, other: &Self) -> (same: bool) {
        self.equals(other)
    }
}

impl PartialEqSpecImpl for AuthorizationExpression {
    open spec fn obeys_eq_spec() -> bool {
        true
    }

    open spec fn eq_spec(&self, other: &Self) -> bool {
        self@.equiv(other@)
    }
}

impl Eq for AuthorizationExpression {

}

impl AuthorizationExpression {
    /// Compares two trees under the order by which `normalize` sorts. Trees
    /// that are equal as expressions and differ in shape are told apart.
    pub fn cmp(&self, other: &Self) -> (order: Ordering)
        ensures
            order matches Ordering::Less <==> self@.compare(other@) == Comparison::Less,
            order matches Ordering::Equal <==> self@.compare(other@) == Comparison::Equal,
            order matches Ordering::Greater <==> self@.compare(other@) == Comparison::Greater,
    {
        match self.compare(other) {
            Comparison::Less => Ordering::Less,
            Comparison::Equal => Ordering::Equal,
            Comparison::Greater => Ordering::Greater,
        }
    }
}

impl PartialOrd for AuthorizationExpression {
    /// Any two trees are ordered, by the order by which `normalize` sorts.
    fn partial_cmp(&self, other: &Self) -> (order: Option<Ordering>) {
        Some(self.cmp(other))
    }
}

impl PartialOrdSpecImpl for AuthorizationExpression {
    open spec fn obeys_partial_cmp_spec() -> bool {
        true
    }

    open spec fn partial_cmp_spec(&self, other: &Self) -> Option<Ordering> {
        Some(
            match self@.compare(other@) {
                Comparison::Less => Ordering::Less,
                Comparison::Equal => Ordering::Equal,
                Comparison::Greater => Ordering::Greater,
            },
        )
    }
}

impl PartialEq for Authorizations {
    /// Two sets of authorizations are equal if they hold the same access
    /// tokens.
    fn eq(&self, other: &Self) -> (same: bool) {
        self.same_as(other)
    }
}

impl PartialEqSpecImpl for Authorizations {
    open spec fn obeys_eq_spec() -> bool {
        true
    }

    open spec fn eq_spec(&self, other: &Self) -> bool {
        self@ == other@
    }
}

} // verus!
