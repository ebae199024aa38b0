//! That the bytes hashed for an issue tell its substantive fields apart.

use vstd::prelude::*;
use vstd::utf8::*;
use crate::hash::{content_bytes, field_bytes, same_content, FIELD_SEPARATOR};
use crate::text::{decimal, decimal_digits, hex_digits};
use crate::types::{IssueType, IssueView, Status};

verus! {

/// Whether a text is free of the character that the separator encodes.
pub open spec fn no_nul(t: Seq<char>) -> bool {
    forall|i: int| 0 <= i < t.len() ==> (#[trigger] t[i]) as u32 != 0
}

/// Whether a byte string is free of the separator.
pub open spec fn no_separator(b: Seq<u8>) -> bool {
    forall|i: int| 0 <= i < b.len() ==> #[trigger] b[i] != FIELD_SEPARATOR
}

/// Whether the texts of an issue can be told apart in the bytes hashed:
/// none of its free texts holds the character that the separator encodes,
/// and its external reference, if it has one, is not empty.
pub open spec fn plain_text(i: IssueView) -> bool {
    &&& no_nul(i.title)
    &&& no_nul(i.description)
    &&& no_nul(i.design)
    &&& no_nul(i.acceptance_criteria)
    &&& no_nul(i.notes)
    &&& no_nul(i.assignee)
    &&& i.external_ref != Some(Seq::<char>::empty())
}

proof fn lemma_byte_bits(x: u8)
    ensures
        0x80u8 | x != 0,
        0xC0u8 | x != 0,
        0xE0u8 | x != 0,
        0xF0u8 | x != 0,
{
    assert(0x80u8 | x != 0) by (bit_vector);
    assert(0xC0u8 | x != 0) by (bit_vector);
    assert(0xE0u8 | x != 0) by (bit_vector);
    assert(0xF0u8 | x != 0) by (bit_vector);
}

proof fn lemma_scalar_no_separator(s: u32)
    requires
        s != 0,
    ensures
        no_separator(encode_scalar(s)),
        encode_scalar(s).len() >= 1,
{
    let e = encode_scalar(s);
    if has_width_1_encoding(s) {
        assert((s & 0x7F) as u8 != 0) by (bit_vector)
            requires
                s != 0,
                s <= 0x7F,
        ;
        assert(e[0] != 0);
    } else if has_width_2_encoding(s) {
        lemma_byte_bits(((s >> 6) & 0x1F) as u8);
        lemma_byte_bits((s & 0x3F) as u8);
    } else if has_width_3_encoding(s) {
        lemma_byte_bits(((s >> 12) & 0x0F) as u8);
        lemma_byte_bits(((s >> 6) & 0x3F) as u8);
        lemma_byte_bits((s & 0x3F) as u8);
    } else {
        lemma_byte_bits(((s >> 18) & 0x7) as u8);
        lemma_byte_bits(((s >> 12) & 0x3F) as u8);
        lemma_byte_bits(((s >> 6) & 0x3F) as u8);
        lemma_byte_bits((s & 0x3F) as u8);
    }
}

/// The encoding of a text without the character that the separator
/// encodes is free of the separator.
pub proof fn lemma_encoding_no_separator(t: Seq<char>)
    requires
        no_nul(t),
    ensures
        no_separator(encode_utf8(t)),
    decreases t.len(),
{
    if t.len() > 0 {
        let rest = t.drop_first();
        assert forall|i: int| 0 <= i < rest.len() implies (#[trigger] rest[i]) as u32 != 0 by {
            assert(rest[i] == t[i + 1]);
        }
        lemma_encoding_no_separator(rest);
        lemma_scalar_no_separator(t[0] as u32);
        let head = encode_scalar(t[0] as u32);
        let tail = encode_utf8(rest);
        assert forall|i: int| 0 <= i < encode_utf8(t).len() implies #[trigger] encode_utf8(t)[i]
            != FIELD_SEPARATOR by {
            if i < head.len() {
                assert(encode_utf8(t)[i] == head[i]);
            } else {
                assert(encode_utf8(t)[i] == tail[i - head.len()]);
            }
        }
    }
}

/// Two texts with the same encoding are the same.
pub proof fn lemma_encoding_injective(a: Seq<char>, b: Seq<char>)
    requires
        encode_utf8(a) == encode_utf8(b),
    ensures
        a == b,
{
    encode_utf8_decode_utf8(a);
    encode_utf8_decode_utf8(b);
}

/// A byte string falls apart at its first separator in one way only.
proof fn lemma_split(a: Seq<u8>, b: Seq<u8>, c: Seq<u8>, d: Seq<u8>)
    requires
        no_separator(a),
        no_separator(c),
        a.push(FIELD_SEPARATOR) + b == c.push(FIELD_SEPARATOR) + d,
    ensures
        a == c,
        b == d,
{
    let left = a.push(FIELD_SEPARATOR) + b;
    let right = c.push(FIELD_SEPARATOR) + d;
    if a.len() < c.len() {
        assert(left[a.len() as int] == FIELD_SEPARATOR);
        assert(right[a.len() as int] == c[a.len() as int]);
        assert(false);
    }
    if c.len() < a.len() {
        assert(right[c.len() as int] == FIELD_SEPARATOR);
        assert(left[c.len() as int] == a[c.len() as int]);
        assert(false);
    }
    assert(left.len() == right.len());
    assert forall|i: int| 0 <= i < a.len() implies a[i] == c[i] by {
        assert(left[i] == a[i]);
        assert(right[i] == c[i]);
    }
    assert(a =~= c);
    assert forall|i: int| 0 <= i < b.len() implies b[i] == d[i] by {
        assert(left[a.len() + 1 + i] == b[i]);
        assert(right[c.len() + 1 + i] == d[i]);
    }
    assert(b =~= d);
}

/// Two fields that start two equal byte strings are the same, and so is
/// what follows them.
proof fn lemma_field(x: Seq<char>, rest_x: Seq<u8>, y: Seq<char>, rest_y: Seq<u8>)
    requires
        no_nul(x),
        no_nul(y),
        field_bytes(x) + rest_x == field_bytes(y) + rest_y,
    ensures
        x == y,
        rest_x == rest_y,
{
    lemma_encoding_no_separator(x);
    lemma_encoding_no_separator(y);
    lemma_split(encode_utf8(x), rest_x, encode_utf8(y), rest_y);
    lemma_encoding_injective(x, y);
}

proof fn lemma_digits(n: nat)
    ensures
        decimal_digits(n).len() >= 1,
        n < 10 <==> decimal_digits(n).len() == 1,
        forall|i: int|
            0 <= i < decimal_digits(n).len() ==> '0' <= (#[trigger] decimal_digits(n)[i]) <= '9',
        decimal_digits(n)[decimal_digits(n).len() - 1] == hex_digits()[(n % 10) as int],
    decreases n,
{
    if n >= 10 {
        lemma_digits(n / 10);
        let d = decimal_digits(n / 10);
        let e = decimal_digits(n);
        assert(e == d.push(hex_digits()[(n % 10) as int]));
        assert forall|i: int| 0 <= i < e.len() implies '0' <= (#[trigger] e[i]) <= '9' by {
            if i < d.len() {
                assert(e[i] == d[i]);
            }
        }
    }
}

proof fn lemma_digits_injective(a: nat, b: nat)
    requires
        decimal_digits(a) == decimal_digits(b),
    ensures
        a == b,
    decreases a,
{
    lemma_digits(a);
    lemma_digits(b);
    assert(hex_digits()[(a % 10) as int] == hex_digits()[(b % 10) as int]);
    assert(a % 10 == b % 10);
    if a >= 10 {
        let da = decimal_digits(a / 10);
        let db = decimal_digits(b / 10);
        assert(decimal_digits(a) == da.push(hex_digits()[(a % 10) as int]));
        assert(decimal_digits(b) == db.push(hex_digits()[(b % 10) as int]));
        assert(da =~= decimal_digits(a).drop_last());
        assert(db =~= decimal_digits(b).drop_last());
        lemma_digits_injective(a / 10, b / 10);
    }
}

/// The decimal notation of a number holds no character that the separator
/// encodes, and tells the number.
pub proof fn lemma_decimal(a: int, b: int)
    ensures
        no_nul(decimal(a)),
        decimal(a) == decimal(b) ==> a == b,
{
    let na = if a < 0 {
        (-a) as nat
    } else {
        a as nat
    };
    let nb = if b < 0 {
        (-b) as nat
    } else {
        b as nat
    };
    lemma_digits(na);
    lemma_digits(nb);
    assert forall|i: int| 0 <= i < decimal(a).len() implies (#[trigger] decimal(a)[i]) as u32
        != 0 by {
        if a < 0 {
            if i > 0 {
                assert(decimal(a)[i] == decimal_digits(na)[i - 1]);
            }
        }
    }
    if decimal(a) == decimal(b) {
        if a < 0 && b < 0 {
            assert(decimal_digits(na) =~= decimal(a).drop_first());
            assert(decimal_digits(nb) =~= decimal(b).drop_first());
            lemma_digits_injective(na, nb);
        } else if a >= 0 && b >= 0 {
            lemma_digits_injective(na, nb);
        } else if a < 0 {
            assert(decimal(a)[0] == '-');
            assert(decimal(b)[0] == decimal_digits(nb)[0]);
        } else {
            assert(decimal(b)[0] == '-');
            assert(decimal(a)[0] == decimal_digits(na)[0]);
        }
    }
}

/// The name of a status holds no character that the separator encodes,
/// and tells the status.
pub proof fn lemma_status_names(a: Status, b: Status)
    ensures
        no_nul(a.spec_str()),
        a.spec_str() == b.spec_str() ==> a == b,
{
    reveal_strlit("open");
    reveal_strlit("in_progress");
    reveal_strlit("blocked");
    reveal_strlit("closed");
    if a.spec_str() == b.spec_str() {
        assert(a.spec_str().len() == b.spec_str().len());
    }
}

/// The name of an issue type holds no character that the separator
/// encodes, and tells the type.
pub proof fn lemma_type_names(a: IssueType, b: IssueType)
    ensures
        no_nul(a.spec_str()),
        a.spec_str() == b.spec_str() ==> a == b,
{
    reveal_strlit("bug");
    reveal_strlit("feature");
    reveal_strlit("task");
    reveal_strlit("epic");
    reveal_strlit("chore");
    if a.spec_str() == b.spec_str() {
        assert(a.spec_str()[0] == b.spec_str()[0]);
    }
}

/// The bytes hashed for an issue, field after field.
spec fn nested_bytes(i: IssueView) -> Seq<u8> {
    field_bytes(i.title) + (field_bytes(i.description) + (field_bytes(i.design) + (field_bytes(
        i.acceptance_criteria,
    ) + (field_bytes(i.notes) + (field_bytes(i.status.spec_str()) + (field_bytes(
        decimal(i.priority as int),
    ) + (field_bytes(i.issue_type.spec_str()) + (field_bytes(i.assignee) + reference_bytes(
        i,
    )))))))))
}

spec fn reference_bytes(i: IssueView) -> Seq<u8> {
    match i.external_ref {
        Some(r) => encode_utf8(r),
        None => Seq::<u8>::empty(),
    }
}

proof fn lemma_nested(i: IssueView)
    ensures
        nested_bytes(i) == content_bytes(i),
{
    assert(nested_bytes(i) =~= content_bytes(i));
}

/// Issues whose texts can be told apart and for which the same bytes are
/// hashed agree on every substantive field. So a change of a substantive
/// field changes the bytes that are hashed; that it changes the hash as
/// well is as sure as the hash function is free of collisions.
pub proof fn lemma_content_bytes_injective(a: IssueView, b: IssueView)
    requires
        plain_text(a),
        plain_text(b),
        content_bytes(a) == content_bytes(b),
    ensures
        same_content(a, b),
{
    lemma_nested(a);
    lemma_nested(b);
    lemma_status_names(a.status, b.status);
    lemma_status_names(b.status, a.status);
    lemma_type_names(a.issue_type, b.issue_type);
    lemma_type_names(b.issue_type, a.issue_type);
    lemma_decimal(a.priority as int, b.priority as int);
    lemma_decimal(b.priority as int, a.priority as int);
    let a9 = reference_bytes(a);
    let b9 = reference_bytes(b);
    let a8 = field_bytes(a.assignee) + a9;
    let b8 = field_bytes(b.assignee) + b9;
    let a7 = field_bytes(a.issue_type.spec_str()) + a8;
    let b7 = field_bytes(b.issue_type.spec_str()) + b8;
    let a6 = field_bytes(decimal(a.priority as int)) + a7;
    let b6 = field_bytes(decimal(b.priority as int)) + b7;
    let a5 = field_bytes(a.status.spec_str()) + a6;
    let b5 = field_bytes(b.status.spec_str()) + b6;
    let a4 = field_bytes(a.notes) + a5;
    let b4 = field_bytes(b.notes) + b5;
    let a3 = field_bytes(a.acceptance_criteria) + a4;
    let b3 = field_bytes(b.acceptance_criteria) + b4;
    let a2 = field_bytes(a.design) + a3;
    let b2 = field_bytes(b.design) + b3;
    let a1 = field_bytes(a.description) + a2;
    let b1 = field_bytes(b.description) + b2;
    assert(nested_bytes(a) == field_bytes(a.title) + a1);
    assert(nested_bytes(b) == field_bytes(b.title) + b1);
    lemma_field(a.title, a1, b.title, b1);
    lemma_field(a.description, a2, b.description, b2);
    lemma_field(a.design, a3, b.design, b3);
    lemma_field(a.acceptance_criteria, a4, b.acceptance_criteria, b4);
    lemma_field(a.notes, a5, b.notes, b5);
    lemma_field(a.status.spec_str(), a6, b.status.spec_str(), b6);
    lemma_field(decimal(a.priority as int), a7, decimal(b.priority as int), b7);
    lemma_field(a.issue_type.spec_str(), a8, b.issue_type.spec_str(), b8);
    lemma_field(a.assignee, a9, b.assignee, b9);
    match (a.external_ref, b.external_ref) {
        (Some(x), Some(y)) => {
            lemma_encoding_injective(x, y);
        },
        (Some(x), None) => {
            if x.len() == 0 {
                assert(x =~= Seq::<char>::empty());
            }
            lemma_nonempty_encoding(x);
        },
        (None, Some(y)) => {
            if y.len() == 0 {
                assert(y =~= Seq::<char>::empty());
            }
            lemma_nonempty_encoding(y);
        },
        (None, None) => {},
    }
}

proof fn lemma_nonempty_encoding(t: Seq<char>)
    requires
        t.len() > 0,
    ensures
        encode_utf8(t).len() > 0,
{
    let head = encode_scalar(t[0] as u32);
    assert(head.len() >= 1);
}

} // verus!
