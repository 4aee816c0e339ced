//! Decimal and hexadecimal text, and the joining of strings.

use vstd::prelude::*;
use vstd::string::StringExecFns;

verus! {

/// The character of one decimal digit.
pub open spec fn digit_char(d: nat) -> char {
    if d == 0 { '0' } else if d == 1 { '1' } else if d == 2 { '2' } else if d == 3 { '3' }
    else if d == 4 { '4' } else if d == 5 { '5' } else if d == 6 { '6' } else if d == 7 { '7' }
    else if d == 8 { '8' } else if d == 9 { '9' } else if d == 10 { 'a' } else if d == 11 { 'b' }
    else if d == 12 { 'c' } else if d == 13 { 'd' } else if d == 14 { 'e' } else { 'f' }
}

/// `n` in decimal, without leading zeros.
pub open spec fn decimal_text(n: nat) -> Seq<char>
    decreases n,
{
    if n < 10 {
        seq![digit_char(n)]
    } else {
        decimal_text(n / 10).push(digit_char(n % 10))
    }
}

/// `n` in lowercase hexadecimal, `width` digits wide.
pub open spec fn hex_text(n: nat, width: nat) -> Seq<char>
    decreases width,
{
    if width == 0 {
        Seq::empty()
    } else {
        hex_text(n / 16, (width - 1) as nat).push(digit_char(n % 16))
    }
}

pub open spec fn pow16(width: nat) -> nat
    decreases width,
{
    if width == 0 { 1 } else { 16 * pow16((width - 1) as nat) }
}

/// A number that fits is told by its hexadecimal digits.
pub proof fn lemma_hex_is_faithful(a: nat, b: nat, width: nat)
    ensures
        hex_text(a, width).len() == width,
        hex_text(b, width).len() == width,
        hex_text(a, width) == hex_text(b, width) && a < pow16(width) && b < pow16(width) ==> a == b,
    decreases width,
{
    if width > 0 {
        let w = (width - 1) as nat;
        lemma_hex_is_faithful(a / 16, b / 16, w);
        let x = hex_text(a, width);
        let y = hex_text(b, width);
        assert(x.drop_last() =~= hex_text(a / 16, w) && x.last() == digit_char(a % 16));
        assert(y.drop_last() =~= hex_text(b / 16, w) && y.last() == digit_char(b % 16));
    }
}

/// A number is told by its decimal digits, none of which is a hyphen or a
/// colon.
pub proof fn lemma_decimal_is_faithful(a: nat, b: nat)
    ensures
        decimal_text(a).len() > 0,
        a >= 10 ==> decimal_text(a).len() > 1,
        b >= 10 ==> decimal_text(b).len() > 1,
        forall|i: int| 0 <= i < decimal_text(a).len() ==> #[trigger] decimal_text(a)[i] != '-' && decimal_text(a)[i] != ':',
        decimal_text(a) == decimal_text(b) ==> a == b,
    decreases a + b,
{
    if a >= 10 && b >= 10 {
        lemma_decimal_is_faithful(a / 10, b / 10);
        let x = decimal_text(a);
        let y = decimal_text(b);
        assert(x.drop_last() =~= decimal_text(a / 10) && x.last() == digit_char(a % 10));
        assert(y.drop_last() =~= decimal_text(b / 10) && y.last() == digit_char(b % 10));
    } else if a >= 10 {
        lemma_decimal_is_faithful(a / 10, b);
    } else if b >= 10 {
        lemma_decimal_is_faithful(a, b / 10);
        lemma_decimal_is_faithful(b / 10, a);
    } else {
        assert(decimal_text(a)[0] == digit_char(a) && decimal_text(b)[0] == digit_char(b));
    }
}

/// Whether a text stands somewhere within another.
pub open spec fn holds_text(s: Seq<char>, t: Seq<char>) -> bool {
    exists|i: int| 0 <= i && i + t.len() <= s.len() && #[trigger] s.subrange(i, i + t.len()) == t
}

/// A text stands within whatever it is a piece of.
pub proof fn lemma_holds_piece(a: Seq<char>, t: Seq<char>, b: Seq<char>)
    ensures
        holds_text(a + t + b, t),
{
    let s = a + t + b;
    let i = a.len() as int;
    assert(s.subrange(i, i + t.len()) =~= t);
}

/// What stands within a piece stands within the whole.
pub proof fn lemma_holds_in_piece(a: Seq<char>, b: Seq<char>, c: Seq<char>, t: Seq<char>)
    requires
        holds_text(b, t),
    ensures
        holds_text(a + b + c, t),
{
    let i = choose|i: int| 0 <= i && i + t.len() <= b.len() && #[trigger] b.subrange(i, i + t.len()) == t;
    let s = a + b + c;
    let j = a.len() + i;
    assert(s.subrange(j, j + t.len()) =~= b.subrange(i, i + t.len()));
}

fn digit_str(d: u64) -> (r: &'static str)
    requires
        d < 16,
    ensures
        r@ == seq![digit_char(d as nat)],
{
    proof {
        reveal_strlit("0"); reveal_strlit("1"); reveal_strlit("2"); reveal_strlit("3");
        reveal_strlit("4"); reveal_strlit("5"); reveal_strlit("6"); reveal_strlit("7");
        reveal_strlit("8"); reveal_strlit("9"); reveal_strlit("a"); reveal_strlit("b");
        reveal_strlit("c"); reveal_strlit("d"); reveal_strlit("e"); reveal_strlit("f");
    }
    let r = if d == 0 { "0" } else if d == 1 { "1" } else if d == 2 { "2" } else if d == 3 { "3" }
        else if d == 4 { "4" } else if d == 5 { "5" } else if d == 6 { "6" } else if d == 7 { "7" }
        else if d == 8 { "8" } else if d == 9 { "9" } else if d == 10 { "a" } else if d == 11 { "b" }
        else if d == 12 { "c" } else if d == 13 { "d" } else if d == 14 { "e" } else { "f" };
    assert(r@ =~= seq![digit_char(d as nat)]);
    r
}

/// `n` in decimal.
pub fn decimal(n: u64) -> (r: String)
    ensures
        r@ == decimal_text(n as nat),
    decreases n,
{
    if n < 10 {
        String::from_str(digit_str(n))
    } else {
        let mut s = decimal(n / 10);
        s.append(digit_str(n % 10));
        assert(s@ =~= decimal_text(n as nat));
        s
    }
}

/// `n` in lowercase hexadecimal, `width` digits wide.
pub fn hex(n: u64, width: usize) -> (r: String)
    ensures
        r@ == hex_text(n as nat, width as nat),
    decreases width,
{
    if width == 0 {
        let s = String::new();
        assert(s@ =~= hex_text(n as nat, width as nat));
        s
    } else {
        let mut s = hex(n / 16, width - 1);
        s.append(digit_str(n % 16));
        assert(s@ =~= hex_text(n as nat, width as nat));
        s
    }
}

/// Three pieces of text joined.
pub fn join3(a: &str, b: &str, c: &str) -> (r: String)
    ensures
        r@ == a@ + b@ + c@,
{
    let mut s = String::from_str(a);
    s.append(b);
    s.append(c);
    s
}

/// A number between two pieces of text.
pub fn with_number(a: &str, n: u64, c: &str) -> (r: String)
    ensures
        r@ == a@ + decimal_text(n as nat) + c@,
{
    join3(a, decimal(n).as_str(), c)
}

/// A copy of an optional string.
pub fn copy_opt_string(s: &Option<String>) -> (r: Option<String>)
    ensures
        opt_text(r) == opt_text(*s),
{
    match s {
        None => None,
        Some(t) => Some(t.clone()),
    }
}

/// The text of an optional string.
pub open spec fn opt_text(s: Option<String>) -> Option<Seq<char>> {
    match s {
        None => None,
        Some(t) => Some(t@),
    }
}

/// Whether two optional strings hold the same text.
pub fn opt_str_eq(a: Option<&str>, b: Option<&str>) -> (r: bool)
    ensures
        r == (match (a, b) {
            (None, None) => true,
            (Some(x), Some(y)) => x@ == y@,
            _ => false,
        }),
{
    match (a, b) {
        (None, None) => true,
        (Some(x), Some(y)) => str_eq(x, y),
        _ => false,
    }
}

/// Whether two strings hold the same text.
pub fn str_eq(a: &str, b: &str) -> (r: bool)
    ensures
        r == (a@ == b@),
{
    String::from_str(a) == String::from_str(b)
}

} // verus!
