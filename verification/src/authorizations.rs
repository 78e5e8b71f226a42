//! The set of access tokens that a caller holds.

use vstd::prelude::*;
use std::collections::HashSet;
use crate::text::str_eq;

verus! {

/// The set of the character sequences that the strings of `tokens` hold.
pub open spec fn token_set(tokens: Seq<String>) -> Set<Seq<char>> {
    Set::new(|token: Seq<char>| exists|i: int| 0 <= i < tokens.len() && (#[trigger] tokens[i])@ == token)
}

/// The set of the character sequences that the string slices of `values` hold.
pub open spec fn str_set(values: Seq<&str>) -> Set<Seq<char>> {
    Set::new(|token: Seq<char>| exists|i: int| 0 <= i < values.len() && (#[trigger] values[i])@ == token)
}

/// No two strings of `tokens` hold the same characters.
pub open spec fn distinct(tokens: Seq<String>) -> bool {
    forall|i: int, j: int|
        0 <= i < j < tokens.len() ==> (#[trigger] tokens[i])@ != (#[trigger] tokens[j])@
}

/// Adding a string to a sequence adds its characters to the set.
pub proof fn lemma_token_set_push(tokens: Seq<String>, token: String)
    ensures
        token_set(tokens.push(token)) == token_set(tokens).insert(token@),
{
    let longer = tokens.push(token);
    assert forall|t: Seq<char>| token_set(longer).contains(t) implies token_set(tokens).insert(
        token@,
    ).contains(t) by {
        let i = choose|i: int| 0 <= i < longer.len() && (#[trigger] longer[i])@ == t;
        if i < tokens.len() {
            assert(tokens[i]@ == t);
        }
    }
    assert forall|t: Seq<char>| token_set(tokens).insert(token@).contains(t) implies token_set(
        longer,
    ).contains(t) by {
        if t == token@ {
            assert(longer[tokens.len() as int]@ == t);
        } else {
            let i = choose|i: int| 0 <= i < tokens.len() && (#[trigger] tokens[i])@ == t;
            assert(longer[i]@ == t);
        }
    }
    assert(token_set(longer) =~= token_set(tokens).insert(token@));
}

/// Whether one of `tokens` holds the characters of `token`.
fn holds_in(tokens: &Vec<String>, token: &str) -> (found: bool)
    ensures
        found == token_set(tokens@).contains(token@),
{
    let mut i: usize = 0;
    while i < tokens.len()
        invariant
            0 <= i <= tokens.len(),
            forall|k: int| 0 <= k < i ==> (#[trigger] tokens@[k])@ != token@,
        decreases tokens.len() - i,
    {
        if str_eq(tokens[i].as_str(), token) {
            return true;
        }
        i += 1;
    }
    false
}

/// Whether each string of `tokens` holds the characters of one of `others`.
fn all_held(tokens: &Vec<String>, others: &Vec<String>) -> (all: bool)
    ensures
        all == token_set(tokens@).subset_of(token_set(others@)),
{
    let mut i: usize = 0;
    while i < tokens.len()
        invariant
            0 <= i <= tokens.len(),
            forall|k: int| 0 <= k < i ==> token_set(others@).contains((#[trigger] tokens@[k])@),
        decreases tokens.len() - i,
    {
        if !holds_in(others, tokens[i].as_str()) {
            proof {
                assert(token_set(tokens@).contains(tokens@[i as int]@));
            }
            return false;
        }
        i += 1;
    }
    proof {
        assert forall|token: Seq<char>| token_set(tokens@).contains(token) implies token_set(
            others@,
        ).contains(token) by {
            let k = choose|k: int| 0 <= k < tokens@.len() && (#[trigger] tokens@[k])@ == token;
            assert(token_set(others@).contains(tokens@[k]@));
        }
    }
    true
}

/// Whether the strings of `set` hold the characters that the strings of
/// `tokens` hold: each string of the set holds the characters of one of the
/// tokens, and the characters of each token are held by a string of the set.
pub open spec fn holds_the_same(set: Set<String>, tokens: Seq<String>) -> bool {
    &&& forall|held: String| #[trigger]
        set.contains(held) ==> exists|i: int|
            0 <= i < tokens.len() && (#[trigger] tokens[i])@ == held@
    &&& forall|i: int|
        0 <= i < tokens.len() ==> exists|held: String| #[trigger]
            set.contains(held) && held@ == (#[trigger] tokens[i])@
}

/// `HashSet::from_iter` on a vector gives a set of the vector's items.
#[verifier::external_body]
fn set_of(tokens: Vec<String>) -> (set: HashSet<String>)
    ensures
        holds_the_same(set@, tokens@),
{
    HashSet::from_iter(tokens)
}

/// An immutable set of access tokens. It is made once and answers whether a
/// token is in it.
///
/// The tokens are kept in a vector in which none occurs twice, and are found
/// by comparing characters: of a hash set keyed by `String` nothing could be
/// proved, since vstd states no key model for `String`.
#[derive(Debug)]
pub struct Authorizations {
    auths: Vec<String>,
}

impl View for Authorizations {
    type V = Set<Seq<char>>;

    closed spec fn view(&self) -> Set<Seq<char>> {
        token_set(self.auths@)
    }
}

impl Clone for Authorizations {
    fn clone(&self) -> (copy: Self)
        ensures
            copy@ == self@,
    {
        proof {
            use_type_invariant(self);
        }
        let mut auths: Vec<String> = Vec::new();
        let mut i: usize = 0;
        while i < self.auths.len()
            invariant
                0 <= i <= self.auths.len(),
                auths@ == self.auths@.take(i as int),
            decreases self.auths.len() - i,
        {
            auths.push(self.auths[i].clone());
            proof {
                assert(self.auths@.take(i + 1) == self.auths@.take(i as int).push(self.auths@[i as int]));
            }
            i += 1;
        }
        proof {
            assert(self.auths@.take(self.auths.len() as int) == self.auths@);
        }
        Authorizations { auths }
    }
}

impl Authorizations {
    #[verifier::type_invariant]
    spec fn nothing_twice(&self) -> bool {
        distinct(self.auths@)
    }

    /// The set that holds exactly the given authorizations.
    pub fn of(authorizations: &[String]) -> (held: Self)
        ensures
            held@ == token_set(authorizations@),
    {
        let mut auths: Vec<String> = Vec::new();
        let mut i: usize = 0;
        proof {
            assert(token_set(auths@) =~= token_set(authorizations@.take(0)));
        }
        while i < authorizations.len()
            invariant
                0 <= i <= authorizations@.len(),
                distinct(auths@),
                token_set(auths@) == token_set(authorizations@.take(i as int)),
            decreases authorizations@.len() - i,
        {
            let token = &authorizations[i];
            proof {
                lemma_token_set_push(authorizations@.take(i as int), *token);
                assert(authorizations@.take(i + 1) == authorizations@.take(i as int).push(*token));
            }
            if !holds_in(&auths, token.as_str()) {
                proof {
                    lemma_token_set_push(auths@, *token);
                }
                auths.push(token.clone());
            } else {
                assert(token_set(auths@).insert(token@) =~= token_set(auths@));
            }
            i += 1;
        }
        proof {
            assert(authorizations@.take(authorizations@.len() as int) == authorizations@);
        }
        Authorizations { auths }
    }

    /// The set that holds exactly the given values.
    pub fn new(values: &[&str]) -> (held: Self)
        ensures
            held@ == str_set(values@),
    {
        let mut owned: Vec<String> = Vec::new();
        let mut i: usize = 0;
        while i < values.len()
            invariant
                0 <= i <= values@.len(),
                owned@.len() == i,
                forall|k: int| 0 <= k < i ==> (#[trigger] owned@[k])@ == values@[k]@,
            decreases values@.len() - i,
        {
            owned.push(values[i].to_owned());
            i += 1;
        }
        let held = Authorizations::of(owned.as_slice());
        proof {
            assert forall|t: Seq<char>| token_set(owned@).contains(t) implies str_set(
                values@,
            ).contains(t) by {
                let k = choose|k: int| 0 <= k < owned@.len() && (#[trigger] owned@[k])@ == t;
                assert(values@[k]@ == t);
            }
            assert forall|t: Seq<char>| str_set(values@).contains(t) implies token_set(
                owned@,
            ).contains(t) by {
                let k = choose|k: int| 0 <= k < values@.len() && (#[trigger] values@[k])@ == t;
                assert(owned@[k]@ == t);
            }
            assert(token_set(owned@) =~= str_set(values@));
        }
        held
    }

    /// Whether `auth` is in the set.
    pub fn contains(&self, auth: &str) -> (found: bool)
        ensures
            found == self@.contains(auth@),
    {
        holds_in(&self.auths, auth)
    }

    /// Whether the set authorizes `value`: whether it is in the set.
    pub fn is_authorized_for(&self, value: &str) -> (authorized: bool)
        ensures
            authorized == self@.contains(value@),
    {
        self.contains(value)
    }

    /// Whether the two sets hold the same access tokens.
    pub fn same_as(&self, other: &Authorizations) -> (same: bool)
        ensures
            same == (self@ == other@),
    {
        let same = all_held(&self.auths, &other.auths) && all_held(&other.auths, &self.auths);
        proof {
            if same {
                assert(self@ =~= other@);
            }
        }
        same
    }

    /// The authorizations as a `HashSet`: a string is in it exactly if its
    /// characters are in this set.
    pub fn to_set(&self) -> (set: HashSet<String>)
        ensures
            forall|token: String| set@.contains(token) ==> self@.contains(token@),
            forall|token: Seq<char>|
                self@.contains(token) ==> exists|held: String| #[trigger]
                    set@.contains(held) && held@ == token,
    {
        let copy = self.clone();
        let ghost tokens = copy.auths@;
        let set = set_of(copy.auths);
        proof {
            assert forall|token: Seq<char>| self@.contains(token) implies exists|held: String| #[trigger]
                set@.contains(held) && held@ == token by {
                let i = choose|i: int| 0 <= i < tokens.len() && (#[trigger] tokens[i])@ == token;
                let held = choose|held: String| #[trigger]
                    set@.contains(held) && held@ == tokens[i]@;
                assert(set@.contains(held) && held@ == token);
            }
            assert forall|token: String| set@.contains(token) implies self@.contains(token@) by {
                let i = choose|i: int| 0 <= i < tokens.len() && (#[trigger] tokens[i])@ == token@;
                assert(tokens[i]@ == token@);
            }
        }
        set
    }
}

} // verus!
