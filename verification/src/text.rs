//! Character streams and string building.

use vstd::prelude::*;
use vstd::string::StrSliceExecFns;
use vstd::string::StringSliceAdditionalSpecFns;
use vstd::utf8::*;

verus! {

/// `String::push` appends one character to the end of the string.
pub assume_specification[ std::string::String::push ](s: &mut std::string::String, ch: char)
    ensures
        final(s)@ == old(s)@.push(ch),
;

/// Every character takes at least one byte in UTF-8.
pub proof fn lemma_encoding_not_shorter(chars: Seq<char>)
    ensures
        chars.len() <= encode_utf8(chars).len(),
    decreases chars.len(),
{
    if chars.len() > 0 {
        lemma_encoding_not_shorter(chars.drop_first());
    }
}

/// Number of bytes that the UTF-8 encoding of `c` takes.
fn utf8_width(c: char) -> (n: usize)
    ensures
        n == encode_scalar(c as u32).len(),
        1 <= n <= 4,
{
    let u: u32 = c as u32;
    proof {
        char_is_scalar(c);
    }
    if u < 0x80 {
        1
    } else if u < 0x800 {
        2
    } else if u < 0x10000 {
        3
    } else {
        4
    }
}

/// Splits the first character off a non-empty string slice.
pub(crate) fn split_first_char<'a>(s: &'a str) -> (r: (char, &'a str))
    requires
        s@.len() > 0,
    ensures
        r.0 == s@[0],
        r.1@ == s@.skip(1),
{
    let c = s.get_char(0);
    let n = utf8_width(c);
    let ghost bytes = s.spec_bytes();
    proof {
        encode_utf8_valid_utf8(s@);
        encode_utf8_first_scalar(s@);
        assert(pop_first_scalar(bytes) =~= encode_utf8(s@.drop_first()));
        assert(is_char_boundary(pop_first_scalar(bytes), 0));
        assert(is_char_boundary(bytes, n as int));
    }
    let (_, tail) = s.split_at(n);
    proof {
        assert(tail.spec_bytes() =~= encode_utf8(s@.drop_first()));
        encode_utf8_decode_utf8(tail@);
        encode_utf8_decode_utf8(s@.drop_first());
        assert(s@.drop_first() =~= s@.skip(1));
    }
    (c, tail)
}

/// The decimal digit for `d`.
pub open spec fn digit(d: nat) -> char {
    if d == 0 {
        '0'
    } else if d == 1 {
        '1'
    } else if d == 2 {
        '2'
    } else if d == 3 {
        '3'
    } else if d == 4 {
        '4'
    } else if d == 5 {
        '5'
    } else if d == 6 {
        '6'
    } else if d == 7 {
        '7'
    } else if d == 8 {
        '8'
    } else {
        '9'
    }
}

/// The number `n` written in decimal digits, without leading zeros.
pub open spec fn decimal(n: nat) -> Seq<char>
    decreases n,
{
    if n < 10 {
        seq![digit(n)]
    } else {
        decimal(n / 10).push(digit(n % 10))
    }
}

/// The decimal digit for `d`.
fn digit_char(d: usize) -> (c: char)
    requires
        d < 10,
    ensures
        c == digit(d as nat),
{
    if d == 0 {
        '0'
    } else if d == 1 {
        '1'
    } else if d == 2 {
        '2'
    } else if d == 3 {
        '3'
    } else if d == 4 {
        '4'
    } else if d == 5 {
        '5'
    } else if d == 6 {
        '6'
    } else if d == 7 {
        '7'
    } else if d == 8 {
        '8'
    } else {
        '9'
    }
}

/// Appends `n` in decimal digits to `text`.
pub(crate) fn push_decimal(text: &mut String, n: usize)
    ensures
        final(text)@ == old(text)@ + decimal(n as nat),
    decreases n,
{
    if n >= 10 {
        push_decimal(text, n / 10);
    }
    text.push(digit_char(n % 10));
    proof {
        if n >= 10 {
            assert(old(text)@ + decimal((n / 10) as nat).push(digit((n % 10) as nat)) =~= (old(
                text,
            )@ + decimal((n / 10) as nat)).push(digit((n % 10) as nat)));
        } else {
            assert(old(text)@ + seq![digit(n as nat)] =~= old(text)@.push(digit(n as nat)));
        }
    }
}

/// What Rust's `Debug` formatting writes for a string that holds `text`: the
/// text between quotes, with the characters escaped that Rust escapes there.
pub uninterp spec fn debug_text(text: Seq<char>) -> Seq<char>;

/// `format!("{:?}", text)` writes a string as a Rust string literal. The
/// result is a function of the text alone; [`debug_text`] is its name.
#[verifier::external_body]
pub(crate) fn write_debug(text: &str) -> (quoted: String)
    ensures
        quoted@ == debug_text(text@),
{
    format!("{:?}", text)
}

/// What Rust's `Debug` formatting writes for a character: the character
/// between single quotes, with the escapes of a Rust character literal.
pub uninterp spec fn char_debug_text(c: char) -> Seq<char>;

/// `format!("{:?}", c)` writes the character as a Rust character literal. The
/// result is a function of the character alone; [`char_debug_text`] is its
/// name.
#[verifier::external_body]
pub(crate) fn write_char_debug(c: char) -> (quoted: String)
    ensures
        quoted@ == char_debug_text(c),
{
    format!("{:?}", c)
}

/// The values that stand between the commas of a text: what is left of
/// `rest` after `current`, the value that was being read, goes on with it.
pub open spec fn split_values(rest: Seq<char>, current: Seq<char>) -> Seq<Seq<char>>
    decreases rest.len(),
{
    if rest.len() == 0 {
        seq![current]
    } else if rest[0] == ',' {
        seq![current] + split_values(rest.drop_first(), Seq::empty())
    } else {
        split_values(rest.drop_first(), current.push(rest[0]))
    }
}

/// The values that stand between the commas of `text`. A text without a
/// comma is one value, be it empty.
pub open spec fn comma_separated(text: Seq<char>) -> Seq<Seq<char>> {
    split_values(text, Seq::empty())
}

/// The character sequences that the strings of `values` hold, in order.
pub open spec fn string_views(values: Seq<String>) -> Seq<Seq<char>> {
    Seq::new(values.len(), |i: int| values[i]@)
}

/// Splits `text` at its commas.
pub fn split_at_commas(text: &str) -> (values: Vec<String>)
    ensures
        string_views(values@) == comma_separated(text@),
{
    let mut values: Vec<String> = Vec::new();
    let mut current = String::new();
    let mut rest = text;
    proof {
        assert(string_views(values@) + split_values(rest@, current@) =~= comma_separated(text@));
    }
    loop
        invariant_except_break
            string_views(values@) + split_values(rest@, current@) == comma_separated(text@),
        ensures
            string_views(values@) == comma_separated(text@),
        decreases rest@.len(),
    {
        let ghost done = string_views(values@);
        if rest.is_empty() {
            values.push(current);
            proof {
                assert(string_views(values@) =~= done + seq![current@]);
            }
            break ;
        }
        let (c, tail) = split_first_char(rest);
        proof {
            assert(rest@.skip(1) == rest@.drop_first());
        }
        if c == ',' {
            values.push(current);
            proof {
                assert(string_views(values@) =~= done + seq![current@]);
                assert(done + (seq![current@] + split_values(tail@, Seq::empty())) =~= (done
                    + seq![current@]) + split_values(tail@, Seq::empty()));
            }
            current = String::new();
        } else {
            current.push(c);
        }
        rest = tail;
    }
    values
}

/// The outcome of comparing two values under a total order.
#[derive(Debug, PartialEq, Eq, Structural, Clone, Copy)]
pub enum Comparison {
    Less,
    Equal,
    Greater,
}

/// Lexicographic comparison of two character sequences, character by
/// character in the order of the code points; a proper prefix comes first.
pub open spec fn compare_chars(a: Seq<char>, b: Seq<char>) -> Comparison
    decreases a.len(),
{
    if a.len() == 0 && b.len() == 0 {
        Comparison::Equal
    } else if a.len() == 0 {
        Comparison::Less
    } else if b.len() == 0 {
        Comparison::Greater
    } else if a[0] < b[0] {
        Comparison::Less
    } else if a[0] > b[0] {
        Comparison::Greater
    } else {
        compare_chars(a.drop_first(), b.drop_first())
    }
}

/// Two character sequences compare equal exactly when they are the same.
pub proof fn lemma_compare_chars_equal(a: Seq<char>, b: Seq<char>)
    ensures
        compare_chars(a, b) == Comparison::Equal <==> a == b,
    decreases a.len(),
{
    if a.len() > 0 && b.len() > 0 && a[0] == b[0] {
        lemma_compare_chars_equal(a.drop_first(), b.drop_first());
        if a.drop_first() == b.drop_first() {
            assert(a =~= seq![a[0]] + a.drop_first());
            assert(b =~= seq![b[0]] + b.drop_first());
        }
    } else if a.len() == 0 && b.len() == 0 {
        assert(a =~= b);
    }
}

/// Exchanging the two sides of a comparison exchanges `Less` and `Greater`.
pub proof fn lemma_compare_chars_flip(a: Seq<char>, b: Seq<char>)
    ensures
        compare_chars(a, b) == Comparison::Less <==> compare_chars(b, a) == Comparison::Greater,
        compare_chars(a, b) == Comparison::Equal <==> compare_chars(b, a) == Comparison::Equal,
    decreases a.len(),
{
    if a.len() > 0 && b.len() > 0 && a[0] == b[0] {
        lemma_compare_chars_flip(a.drop_first(), b.drop_first());
    }
}

/// Compares two strings lexicographically by their characters.
pub fn compare_str(a: &str, b: &str) -> (order: Comparison)
    ensures
        order == compare_chars(a@, b@),
{
    let mut x = a;
    let mut y = b;
    loop
        invariant
            compare_chars(x@, y@) == compare_chars(a@, b@),
        decreases x@.len(),
    {
        if x.is_empty() {
            if y.is_empty() {
                return Comparison::Equal;
            } else {
                return Comparison::Less;
            }
        }
        if y.is_empty() {
            return Comparison::Greater;
        }
        let (c, x_tail) = split_first_char(x);
        let (d, y_tail) = split_first_char(y);
        if c < d {
            return Comparison::Less;
        }
        if c > d {
            return Comparison::Greater;
        }
        proof {
            assert(x@.skip(1) == x@.drop_first());
            assert(y@.skip(1) == y@.drop_first());
        }
        x = x_tail;
        y = y_tail;
    }
}

/// Whether two strings hold the same characters.
pub fn str_eq(a: &str, b: &str) -> (same: bool)
    ensures
        same == (a@ == b@),
{
    proof {
        lemma_compare_chars_equal(a@, b@);
    }
    match compare_str(a, b) {
        Comparison::Equal => true,
        _ => false,
    }
}

} // verus!
