//! Text of instance, port and cell names: order, joining and printing.

use vstd::prelude::*;
use vstd::relations::total_ordering;
use vstd::string::*;

use crate::seqs::{lemma_lex_order, lex_le};

verus! {

/// A name, character by character.
pub type Name = Seq<char>;

/// Order of characters by code point.
pub open spec fn char_le(a: char, b: char) -> bool {
    (a as int) <= (b as int)
}

/// Lexicographic order of names by code point.
pub open spec fn name_le(a: Name, b: Name) -> bool {
    lex_le(|x: char, y: char| char_le(x, y), a, b)
}

/// [`name_le`] is a total order.
pub proof fn lemma_name_order()
    ensures
        total_ordering(|a: Name, b: Name| name_le(a, b)),
        forall|a: Name| name_le(a, a),
        forall|a: Name, b: Name| #[trigger] name_le(a, b) && #[trigger] name_le(b, a) ==> a == b,
        forall|a: Name, b: Name, c: Name| #[trigger]
            name_le(a, b) && #[trigger] name_le(b, c) ==> name_le(a, c),
        forall|a: Name, b: Name| #[trigger] name_le(a, b) || name_le(b, a),
{
    let chars = |x: char, y: char| char_le(x, y);
    assert(total_ordering(chars));
    lemma_lex_order(chars);
    let le = |a: Name, b: Name| name_le(a, b);
    let lex = |a: Name, b: Name| lex_le(chars, a, b);
    assert forall|a: Name| name_le(a, a) by {
        assert(lex(a, a));
    }
    assert forall|a: Name, b: Name| #[trigger] name_le(a, b) && #[trigger] name_le(b, a) implies a
        == b by {
        assert(lex(a, b) && lex(b, a));
    }
    assert forall|a: Name, b: Name, c: Name| #[trigger]
        name_le(a, b) && #[trigger] name_le(b, c) implies name_le(a, c) by {
        assert(lex(a, b) && lex(b, c));
        assert(lex(a, c));
    }
    assert forall|a: Name, b: Name| #[trigger] name_le(a, b) || name_le(b, a) by {
        assert(lex(a, b) || lex(b, a));
    }
    assert(total_ordering(le));
}

/// `<=` of `str`: byte order of the encoded text, which is code point order.
#[verifier::external_body]
pub(crate) fn name_at_most(a: &str, b: &str) -> (res: bool)
    ensures
        res == name_le(a@, b@),
{
    a <= b
}

/// What `{:?}` prints for a string: the text in double quotes with its
/// special characters escaped.
pub uninterp spec fn quoted_text(s: Seq<char>) -> Seq<char>;

/// `format!("{:?}")` of a `str`. Which characters are escaped is left to
/// [`quoted_text`].
#[verifier::external_body]
pub(crate) fn quoted(s: &str) -> (res: String)
    ensures
        res@ == quoted_text(s@),
{
    format!("{:?}", s)
}

/// The character of a decimal digit.
pub open spec fn digit_char(d: nat) -> char {
    (d + 48) as char
}

/// Decimal digits of a number, without leading zeros.
pub open spec fn decimal_text(n: nat) -> Seq<char>
    decreases n,
{
    if n < 10 {
        seq![digit_char(n)]
    } else {
        decimal_text(n / 10).push(digit_char(n % 10))
    }
}

/// A digit as text.
fn digit(d: usize) -> (res: &'static str)
    requires
        d < 10,
    ensures
        res@ == seq![digit_char(d as nat)],
{
    proof {
        reveal_strlit("0");
        reveal_strlit("1");
        reveal_strlit("2");
        reveal_strlit("3");
        reveal_strlit("4");
        reveal_strlit("5");
        reveal_strlit("6");
        reveal_strlit("7");
        reveal_strlit("8");
        reveal_strlit("9");
    }
    let res = match d {
        0 => "0",
        1 => "1",
        2 => "2",
        3 => "3",
        4 => "4",
        5 => "5",
        6 => "6",
        7 => "7",
        8 => "8",
        _ => "9",
    };
    assert(res@ =~= seq![digit_char(d as nat)]);
    res
}

/// A number in decimal digits.
pub(crate) fn decimal(n: usize) -> (res: String)
    ensures
        res@ == decimal_text(n as nat),
    decreases n,
{
    if n < 10 {
        digit(n).to_owned()
    } else {
        let mut out = decimal(n / 10);
        let ghost head = out@;
        out.append(digit(n % 10));
        assert(out@ =~= head.push(digit_char((n % 10) as nat)));
        out
    }
}

/// Name of an inlined instance: parent name, separator, inner name.
pub open spec fn joined_name(parent: Name, separator: Name, inner: Name) -> Name {
    parent + separator + inner
}

/// Joins the parent's and the inner instance's name.
pub fn join_name(parent: &str, separator: &str, inner: &str) -> (res: String)
    ensures
        res@ == joined_name(parent@, separator@, inner@),
{
    let mut out = parent.to_owned();
    out.append(separator);
    out.append(inner);
    out
}

/// Two names are the same text.
pub(crate) fn same_name(a: &String, b: &String) -> (res: bool)
    ensures
        res == (a@ == b@),
{
    *a == *b
}

} // verus!
