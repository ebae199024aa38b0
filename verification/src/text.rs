//! Text helpers: decimal and hexadecimal notation, and lists of texts.

use vstd::prelude::*;
use vstd::string::*;

verus! {

/// The sixteen lower-case hexadecimal digits, in order.
pub open spec fn hex_digits() -> Seq<char> {
    seq!['0', '1', '2', '3', '4', '5', '6', '7', '8', '9', 'a', 'b', 'c', 'd', 'e', 'f']
}

/// Lower-case hexadecimal notation of a byte string: two digits per byte,
/// the high half first.
pub open spec fn hex_lower(bytes: Seq<u8>) -> Seq<char> {
    Seq::new(
        2 * bytes.len(),
        |i: int| if i % 2 == 0 {
            hex_digits()[bytes[i / 2] as int / 16]
        } else {
            hex_digits()[bytes[i / 2] as int % 16]
        },
    )
}

/// Decimal notation of a natural number, without leading zeros.
pub open spec fn decimal_digits(n: nat) -> Seq<char>
    decreases n,
{
    if n < 10 {
        seq![hex_digits()[n as int]]
    } else {
        decimal_digits(n / 10).push(hex_digits()[(n % 10) as int])
    }
}

/// Decimal notation of an integer, with a minus sign where it is negative.
pub open spec fn decimal(n: int) -> Seq<char> {
    if n < 0 {
        seq!['-'] + decimal_digits((-n) as nat)
    } else {
        decimal_digits(n as nat)
    }
}

/// The text of one hexadecimal digit.
fn digit_str(d: u8) -> (s: &'static str)
    requires
        d < 16,
    ensures
        s@ == seq![hex_digits()[d as int]],
{
    proof {
        reveal_strlit("0");
        reveal_strlit("1");
        reveal_strlit("2");
        reveal_strlit("3");
        reveal_strlit("4");
        reveal_strlit("5");
        reveal_strlit("6");
        reveal_strlit("7");
        reveal_strlit("8");
        reveal_strlit("9");
        reveal_strlit("a");
        reveal_strlit("b");
        reveal_strlit("c");
        reveal_strlit("d");
        reveal_strlit("e");
        reveal_strlit("f");
    }
    let s = match d {
        0 => "0",
        1 => "1",
        2 => "2",
        3 => "3",
        4 => "4",
        5 => "5",
        6 => "6",
        7 => "7",
        8 => "8",
        9 => "9",
        10 => "a",
        11 => "b",
        12 => "c",
        13 => "d",
        14 => "e",
        _ => "f",
    };
    assert(s@ =~= seq![hex_digits()[d as int]]);
    s
}

/// Writes a byte string in lower-case hexadecimal notation.
pub fn to_hex_lower(bytes: &Vec<u8>) -> (s: String)
    ensures
        s@ == hex_lower(bytes@),
{
    let mut s = String::new();
    let mut i: usize = 0;
    while i < bytes.len()
        invariant
            i <= bytes.len(),
            s@.len() == 2 * i,
            forall|k: int| 0 <= k < 2 * i ==> s@[k] == hex_lower(bytes@)[k],
        decreases bytes.len() - i,
    {
        let b: u8 = bytes[i];
        let ghost before = s@;
        s.append(digit_str(b / 16));
        s.append(digit_str(b % 16));
        proof {
            assert(s@ =~= before.push(hex_digits()[b as int / 16]).push(hex_digits()[b as int % 16]));
            assert((2 * i) / 2 == i && (2 * i) % 2 == 0);
            assert((2 * i + 1) / 2 == i && (2 * i + 1) % 2 == 1);
        }
        i = i + 1;
    }
    assert(s@ =~= hex_lower(bytes@));
    s
}

/// Writes a natural number in decimal notation.
pub fn natural_string(m: u64) -> (s: String)
    ensures
        s@ == decimal(m as int),
{
    decimal_digits_string(m)
}

fn decimal_digits_string(m: u64) -> (s: String)
    ensures
        s@ == decimal_digits(m as nat),
    decreases m,
{
    if m < 10 {
        let mut s = String::new();
        s.append(digit_str(m as u8));
        assert(s@ =~= decimal_digits(m as nat));
        s
    } else {
        let mut s = decimal_digits_string(m / 10);
        s.append(digit_str((m % 10) as u8));
        assert(s@ =~= decimal_digits(m as nat));
        s
    }
}

/// Writes an integer in decimal notation.
pub fn decimal_string(n: i64) -> (s: String)
    ensures
        s@ == decimal(n as int),
{
    if n < 0 {
        let m: u64 = if n == i64::MIN {
            0x8000_0000_0000_0000u64
        } else {
            (-n) as u64
        };
        let digits = decimal_digits_string(m);
        let mut s = String::new();
        proof {
            reveal_strlit("-");
        }
        s.append("-");
        s.append(digits.as_str());
        assert(s@ =~= decimal(n as int));
        s
    } else {
        decimal_digits_string(n as u64)
    }
}

/// Whether a list of texts holds a given text.
pub open spec fn has_text(list: Seq<Seq<char>>, t: Seq<char>) -> bool {
    exists|i: int| 0 <= i < list.len() && #[trigger] list[i] == t
}

/// A text is among the first `i + 1` of a list when it is among the first
/// `i` or is the next one.
pub proof fn lemma_has_text_step(list: Seq<Seq<char>>, t: Seq<char>, i: int)
    requires
        0 <= i < list.len(),
    ensures
        has_text(list.take(i + 1), t) <==> (has_text(list.take(i), t) || list[i] == t),
{
    if has_text(list.take(i + 1), t) {
        let j = choose|j: int| 0 <= j < list.take(i + 1).len() && #[trigger] list.take(i + 1)[j] == t;
        if j < i {
            assert(list.take(i)[j] == t);
        }
    }
    if has_text(list.take(i), t) {
        let j = choose|j: int| 0 <= j < list.take(i).len() && #[trigger] list.take(i)[j] == t;
        assert(list.take(i + 1)[j] == t);
    }
    if list[i] == t {
        assert(list.take(i + 1)[i] == t);
    }
}

/// Whether a list of texts holds a given text.
pub fn contains_text(list: &Vec<String>, t: &String) -> (found: bool)
    ensures
        found == has_text(list.deep_view(), t@),
{
    let mut i: usize = 0;
    while i < list.len()
        invariant
            i <= list.len(),
            forall|k: int| 0 <= k < i ==> list[k]@ != t@,
        decreases list.len() - i,
    {
        if list[i] == *t {
            assert(list.deep_view()[i as int] == t@);
            return true;
        }
        i = i + 1;
    }
    assert forall|k: int| 0 <= k < list.deep_view().len() implies list.deep_view()[k] != t@ by {
        assert(list.deep_view()[k] == list[k]@);
    }
    false
}

/// Whether two texts are the same.
pub fn str_eq(a: &str, b: &str) -> (same: bool)
    ensures
        same == (a@ == b@),
{
    let x: String = a.to_owned();
    let y: String = b.to_owned();
    x == y
}

} // verus!
