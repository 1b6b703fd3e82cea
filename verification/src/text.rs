//! Text that the markup is made of: decimal numbers, and the order of names.

use vstd::prelude::*;
use vstd::string::*;
use vstd::utf8::{encode_utf8, encode_utf8_decode_utf8};

verus! {

/// The text of a decimal digit.
pub open spec fn digit_text(d: int) -> Seq<char>
    recommends
        0 <= d < 10,
{
    if d == 0 {
        "0"@
    } else if d == 1 {
        "1"@
    } else if d == 2 {
        "2"@
    } else if d == 3 {
        "3"@
    } else if d == 4 {
        "4"@
    } else if d == 5 {
        "5"@
    } else if d == 6 {
        "6"@
    } else if d == 7 {
        "7"@
    } else if d == 8 {
        "8"@
    } else {
        "9"@
    }
}

/// The decimal text of a number, without sign or leading zeros.
pub open spec fn decimal_text(n: nat) -> Seq<char>
    decreases n,
{
    if n < 10 {
        digit_text(n as int)
    } else {
        decimal_text(n / 10) + digit_text((n % 10) as int)
    }
}

/// The decimal text of half of a number: a whole number, or one that ends
/// in `.5`.
pub open spec fn half_text(n: nat) -> Seq<char> {
    if n % 2 == 0 {
        decimal_text(n / 2)
    } else {
        decimal_text(n / 2) + ".5"@
    }
}

/// The text of a digit is one character, and different digits have different
/// texts.
pub proof fn lemma_digit_text(a: int, b: int)
    requires
        0 <= a < 10,
        0 <= b < 10,
    ensures
        digit_text(a).len() == 1,
        a != b ==> digit_text(a)[0] != digit_text(b)[0],
{
    reveal_strlit("0");
    reveal_strlit("1");
    reveal_strlit("2");
    reveal_strlit("3");
    reveal_strlit("4");
    reveal_strlit("5");
    reveal_strlit("6");
    reveal_strlit("7");
    reveal_strlit("8");
    reveal_strlit("9");
}

/// A number below ten has one digit, a greater one has more.
pub proof fn lemma_decimal_text_len(n: nat)
    ensures
        n < 10 ==> decimal_text(n).len() == 1,
        n >= 10 ==> decimal_text(n).len() >= 2,
    decreases n,
{
    lemma_digit_text((n % 10) as int, 0);
    if n >= 10 {
        lemma_decimal_text_len(n / 10);
    }
}

/// Different numbers have different decimal texts.
pub proof fn lemma_decimal_texts_differ(a: nat, b: nat)
    requires
        a != b,
    ensures
        decimal_text(a) != decimal_text(b),
    decreases a,
{
    lemma_decimal_text_len(a);
    lemma_decimal_text_len(b);
    lemma_digit_text((a % 10) as int, (b % 10) as int);
    lemma_digit_text((b % 10) as int, (a % 10) as int);
    if a < 10 && b < 10 {
    } else if a >= 10 && b >= 10 {
        let x = decimal_text(a);
        let y = decimal_text(b);
        assert(x.last() == digit_text((a % 10) as int)[0]);
        assert(y.last() == digit_text((b % 10) as int)[0]);
        assert(x.drop_last() =~= decimal_text(a / 10));
        assert(y.drop_last() =~= decimal_text(b / 10));
        if a % 10 == b % 10 {
            lemma_decimal_texts_differ(a / 10, b / 10);
        }
    }
}

fn digit_str(d: usize) -> (text: &'static str)
    requires
        d < 10,
    ensures
        text@ == digit_text(d as int),
{
    if d == 0 {
        "0"
    } else if d == 1 {
        "1"
    } else if d == 2 {
        "2"
    } else if d == 3 {
        "3"
    } else if d == 4 {
        "4"
    } else if d == 5 {
        "5"
    } else if d == 6 {
        "6"
    } else if d == 7 {
        "7"
    } else if d == 8 {
        "8"
    } else {
        "9"
    }
}

/// Writes a number in decimal.
pub fn decimal(n: usize) -> (text: String)
    ensures
        text@ == decimal_text(n as nat),
    decreases n,
{
    if n < 10 {
        String::from_str(digit_str(n))
    } else {
        let mut text = decimal(n / 10);
        text.append(digit_str(n % 10));
        text
    }
}

/// Writes half of a number in decimal.
pub fn half(n: usize) -> (text: String)
    ensures
        text@ == half_text(n as nat),
{
    let mut text = decimal(n / 2);
    if n % 2 != 0 {
        text.append(".5");
    }
    text
}

/// Byte string `a` comes before byte string `b` in dictionary order, both
/// read from position `i` on, where all before `i` is equal.
pub open spec fn bytes_before_from(a: Seq<u8>, b: Seq<u8>, i: int) -> bool
    recommends
        0 <= i,
    decreases a.len() - i,
{
    if i >= b.len() {
        false
    } else if i >= a.len() {
        true
    } else if a[i] != b[i] {
        a[i] < b[i]
    } else {
        bytes_before_from(a, b, i + 1)
    }
}

/// Name `a` comes before name `b`: the order of strings, which compares
/// their UTF-8 bytes in dictionary order.
pub open spec fn name_before(a: Seq<char>, b: Seq<char>) -> bool {
    bytes_before_from(encode_utf8(a), encode_utf8(b), 0)
}

/// How one name stands to another in the order of names.
#[derive(Debug, Clone, Copy, PartialEq, Eq, Structural)]
pub enum NameOrder {
    Before,
    Same,
    After,
}

proof fn lemma_bytes_order_total(a: Seq<u8>, b: Seq<u8>, i: int)
    requires
        0 <= i <= a.len(),
        i <= b.len(),
        a.subrange(0, i) == b.subrange(0, i),
    ensures
        bytes_before_from(a, b, i) || bytes_before_from(b, a, i) || a == b,
        !(bytes_before_from(a, b, i) && bytes_before_from(b, a, i)),
        a == b ==> !bytes_before_from(a, b, i),
    decreases a.len() - i,
{
    if i < a.len() && i < b.len() && a[i] == b[i] {
        assert(a.subrange(0, i + 1) =~= a.subrange(0, i).push(a[i]));
        assert(b.subrange(0, i + 1) =~= b.subrange(0, i).push(b[i]));
        lemma_bytes_order_total(a, b, i + 1);
    } else if i == a.len() && i == b.len() {
        assert(a =~= a.subrange(0, i));
        assert(b =~= b.subrange(0, i));
    }
}

proof fn lemma_bytes_order_transitive(a: Seq<u8>, b: Seq<u8>, c: Seq<u8>, i: int)
    requires
        0 <= i,
        bytes_before_from(a, b, i),
        bytes_before_from(b, c, i),
    ensures
        bytes_before_from(a, c, i),
    decreases a.len() - i,
{
    if i < a.len() && i < b.len() && i < c.len() && a[i] == b[i] && b[i] == c[i] {
        lemma_bytes_order_transitive(a, b, c, i + 1);
    }
}

/// Of two names, one comes before the other or they are the same name, and
/// only one of the three holds.
pub proof fn lemma_name_order_total(a: Seq<char>, b: Seq<char>)
    ensures
        name_before(a, b) || name_before(b, a) || a == b,
        !(name_before(a, b) && name_before(b, a)),
        a == b ==> !name_before(a, b),
{
    let x = encode_utf8(a);
    let y = encode_utf8(b);
    assert(x.subrange(0, 0) =~= y.subrange(0, 0));
    lemma_bytes_order_total(x, y, 0);
    if x == y {
        encode_utf8_decode_utf8(a);
        encode_utf8_decode_utf8(b);
    }
}

/// The order of names is transitive.
pub proof fn lemma_name_order_transitive(a: Seq<char>, b: Seq<char>, c: Seq<char>)
    requires
        name_before(a, b),
        name_before(b, c),
    ensures
        name_before(a, c),
{
    lemma_bytes_order_transitive(encode_utf8(a), encode_utf8(b), encode_utf8(c), 0);
}

/// Tells how name `a` stands to name `b`.
pub fn order_of_names(a: &str, b: &str) -> (order: NameOrder)
    ensures
        order == NameOrder::Before <==> name_before(a@, b@),
        order == NameOrder::Same <==> a@ == b@,
        order == NameOrder::After <==> name_before(b@, a@),
{
    let x = a.as_bytes();
    let y = b.as_bytes();
    proof {
        lemma_name_order_total(a@, b@);
    }
    let mut i: usize = 0;
    while i < x.len() && i < y.len()
        invariant
            i <= x.len(),
            i <= y.len(),
            x@ == encode_utf8(a@),
            y@ == encode_utf8(b@),
            bytes_before_from(x@, y@, 0) == bytes_before_from(x@, y@, i as int),
            bytes_before_from(y@, x@, 0) == bytes_before_from(y@, x@, i as int),
        decreases x.len() - i,
    {
        if x[i] < y[i] {
            return NameOrder::Before;
        }
        if x[i] > y[i] {
            return NameOrder::After;
        }
        i += 1;
    }
    if i < y.len() {
        NameOrder::Before
    } else if i < x.len() {
        NameOrder::After
    } else {
        NameOrder::Same
    }
}

} // verus!
