//! A document shows one table and no other: what was written can be told
//! apart, byte by byte.

use crate::encoding::lemma_escaped_concat;
use crate::json::{
    array_json, decimal, digits, escaped, escaped_byte, member_json, member_texts, object_json,
    object_texts, quoted, separated, Member, Scalar,
};
use crate::number::{is_number, is_number_byte, lemma_number_bytes};
use vstd::prelude::*;
use vstd::utf8::{encode_utf8, encode_utf8_decode_utf8};

verus! {

/// Escaping can be read from the left: what stands for the first byte, then
/// the rest escaped.
proof fn lemma_escaped_first(text: Seq<u8>)
    requires
        text.len() > 0,
    ensures
        escaped(text) == escaped_byte(text[0]) + escaped(text.skip(1)),
{
    let first = seq![text[0]];
    assert(text =~= first + text.skip(1));
    lemma_escaped_concat(first, text.skip(1));
    assert(first.drop_last() =~= Seq::<u8>::empty());
    assert(escaped(first.drop_last()) =~= Seq::<u8>::empty());
    assert(escaped(first) =~= escaped_byte(text[0]));
}

/// What stands for a byte tells which byte it was, and where it ends:
/// no escape is the beginning of another.
proof fn lemma_escaped_byte_unique(a: u8, s: Seq<u8>, b: u8, t: Seq<u8>)
    requires
        escaped_byte(a) + s == escaped_byte(b) + t,
    ensures
        a == b,
        s == t,
{
    let x = escaped_byte(a) + s;
    let y = escaped_byte(b) + t;
    let ea = escaped_byte(a);
    let eb = escaped_byte(b);
    assert(x[0] == ea[0] && y[0] == eb[0]);
    if ea.len() >= 2 {
        assert(x[1] == ea[1]);
    }
    if eb.len() >= 2 {
        assert(y[1] == eb[1]);
    }
    if ea.len() == 6 {
        assert(x[4] == ea[4] && x[5] == ea[5]);
    }
    if eb.len() == 6 {
        assert(y[4] == eb[4] && y[5] == eb[5]);
    }
    if ea.len() == 1 && eb.len() >= 2 {
        assert(x[0] == a && y[0] == '\\' as u8);
    }
    if eb.len() == 1 && ea.len() >= 2 {
        assert(y[0] == b && x[0] == '\\' as u8);
    }
    if ea.len() == 2 && eb.len() == 6 {
        assert(y[1] == 'u' as u8);
    }
    if ea.len() == 6 && eb.len() == 2 {
        assert(x[1] == 'u' as u8);
    }
    assert(ea.len() == eb.len());
    assert(a == b);
    assert(s =~= x.skip(ea.len() as int));
    assert(t =~= y.skip(eb.len() as int));
}

/// An escaped text never holds a bare quotation mark at its start.
proof fn lemma_escaped_byte_no_mark(a: u8)
    ensures
        escaped_byte(a).len() >= 1,
        escaped_byte(a)[0] != '"' as u8,
{
}

/// An escaped text that is closed by a quotation mark tells which text it
/// was, and what follows the mark.
proof fn lemma_escaped_unique(x: Seq<u8>, r: Seq<u8>, y: Seq<u8>, s: Seq<u8>)
    requires
        escaped(x) + seq!['"' as u8] + r == escaped(y) + seq!['"' as u8] + s,
    ensures
        x == y,
        r == s,
    decreases x.len() + y.len(),
{
    let mark = seq!['"' as u8];
    let left = escaped(x) + mark + r;
    let right = escaped(y) + mark + s;
    if x.len() == 0 && y.len() == 0 {
        assert(x =~= y);
        assert(r =~= left.skip(1));
        assert(s =~= right.skip(1));
    } else if x.len() == 0 {
        lemma_escaped_first(y);
        lemma_escaped_byte_no_mark(y[0]);
        assert(left[0] == '"' as u8);
        assert(right[0] == escaped_byte(y[0])[0]);
    } else if y.len() == 0 {
        lemma_escaped_first(x);
        lemma_escaped_byte_no_mark(x[0]);
        assert(right[0] == '"' as u8);
        assert(left[0] == escaped_byte(x[0])[0]);
    } else {
        lemma_escaped_first(x);
        lemma_escaped_first(y);
        let rest_x = escaped(x.skip(1)) + mark + r;
        let rest_y = escaped(y.skip(1)) + mark + s;
        assert(left =~= escaped_byte(x[0]) + rest_x);
        assert(right =~= escaped_byte(y[0]) + rest_y);
        lemma_escaped_byte_unique(x[0], rest_x, y[0], rest_y);
        lemma_escaped_unique(x.skip(1), r, y.skip(1), s);
        assert(x =~= seq![x[0]] + x.skip(1));
        assert(y =~= seq![y[0]] + y.skip(1));
    }
}

/// A JSON string tells which text it shows, and what follows it.
pub proof fn lemma_quoted_unique(x: Seq<char>, r: Seq<u8>, y: Seq<char>, s: Seq<u8>)
    requires
        quoted(x) + r == quoted(y) + s,
    ensures
        x == y,
        r == s,
{
    let mark = seq!['"' as u8];
    let ex = escaped(encode_utf8(x));
    let ey = escaped(encode_utf8(y));
    let left = quoted(x) + r;
    let right = quoted(y) + s;
    assert(left.skip(1) =~= ex + mark + r);
    assert(right.skip(1) =~= ey + mark + s);
    lemma_escaped_unique(encode_utf8(x), r, encode_utf8(y), s);
    encode_utf8_decode_utf8(x);
    encode_utf8_decode_utf8(y);
}

/// A number's text tells which text it is where a byte follows that no
/// number holds.
pub proof fn lemma_number_unique(x: Seq<u8>, r: Seq<u8>, y: Seq<u8>, s: Seq<u8>)
    requires
        is_number(x),
        is_number(y),
        r.len() > 0 && !is_number_byte(r[0]),
        s.len() > 0 && !is_number_byte(s[0]),
        x + r == y + s,
    ensures
        x == y,
        r == s,
{
    lemma_number_bytes(x);
    lemma_number_bytes(y);
    let left = x + r;
    let right = y + s;
    if x.len() < y.len() {
        assert(left[x.len() as int] == r[0]);
        assert(right[x.len() as int] == y[x.len() as int]);
    }
    if y.len() < x.len() {
        assert(right[y.len() as int] == s[0]);
        assert(left[y.len() as int] == x[y.len() as int]);
    }
    assert(x =~= left.take(x.len() as int));
    assert(y =~= right.take(y.len() as int));
    assert(r =~= left.skip(x.len() as int));
    assert(s =~= right.skip(y.len() as int));
}

/// The natural number that a run of digits shows.
spec fn shown(text: Seq<u8>) -> nat
    decreases text.len(),
{
    if text.len() == 0 {
        0
    } else {
        (shown(text.drop_last()) * 10 + (text.last() - '0' as u8)) as nat
    }
}

/// The digits of a natural number show that number.
proof fn lemma_digits_shown(n: nat)
    ensures
        shown(digits(n)) == n,
        digits(n).len() >= 1,
        digits(n)[0] != '-' as u8,
    decreases n,
{
    if n < 10 {
        assert(digits(n).drop_last() =~= Seq::<u8>::empty());
        assert(shown(digits(n).drop_last()) == 0);
    } else {
        lemma_digits_shown(n / 10);
        assert(digits(n).drop_last() =~= digits(n / 10));
    }
}

/// An integer in decimal notation tells which integer it is.
pub proof fn lemma_decimal_unique(a: int, b: int)
    requires
        decimal(a) == decimal(b),
    ensures
        a == b,
{
    let ma: nat = if a < 0 { (-a) as nat } else { a as nat };
    let mb: nat = if b < 0 { (-b) as nat } else { b as nat };
    lemma_digits_shown(ma);
    lemma_digits_shown(mb);
    assert(decimal(a)[0] == '-' as u8 <==> a < 0);
    assert(decimal(b)[0] == '-' as u8 <==> b < 0);
    if a < 0 {
        assert(digits(ma) =~= decimal(a).skip(1));
        assert(digits(mb) =~= decimal(b).skip(1));
    }
}

/// The two members have one name, and values of one kind: numbers in JSON's
/// notation, or strings.
pub open spec fn same_kind(m: Member, n: Member) -> bool {
    &&& m.name == n.name
    &&& match (m.value, n.value) {
        (Scalar::Number(x), Scalar::Number(y)) => is_number(x) && is_number(y),
        (Scalar::Text(_), Scalar::Text(_)) => true,
        _ => false,
    }
}

/// A member tells which value it holds, where a byte follows that no number
/// holds.
pub proof fn lemma_member_unique(m: Member, r: Seq<u8>, n: Member, s: Seq<u8>)
    requires
        same_kind(m, n),
        r.len() > 0 && !is_number_byte(r[0]),
        s.len() > 0 && !is_number_byte(s[0]),
        member_json(m) + r == member_json(n) + s,
    ensures
        m == n,
        r == s,
{
    let colon = seq![':' as u8];
    let left = member_json(m) + r;
    let right = member_json(n) + s;
    match (m.value, n.value) {
        (Scalar::Number(x), Scalar::Number(y)) => {
            let rest_m = colon + x + r;
            let rest_n = colon + y + s;
            assert(left =~= quoted(m.name) + rest_m);
            assert(right =~= quoted(n.name) + rest_n);
            lemma_quoted_unique(m.name, rest_m, n.name, rest_n);
            assert(x + r =~= rest_m.skip(1));
            assert(y + s =~= rest_n.skip(1));
            lemma_number_unique(x, r, y, s);
        },
        (Scalar::Text(x), Scalar::Text(y)) => {
            let rest_m = colon + quoted(x) + r;
            let rest_n = colon + quoted(y) + s;
            assert(left =~= quoted(m.name) + rest_m);
            assert(right =~= quoted(n.name) + rest_n);
            lemma_quoted_unique(m.name, rest_m, n.name, rest_n);
            assert(quoted(x) + r =~= rest_m.skip(1));
            assert(quoted(y) + s =~= rest_n.skip(1));
            lemma_quoted_unique(x, r, y, s);
        },
        _ => {},
    }
}

/// The parts in order, each behind a comma.
spec fn more_parts(parts: Seq<Seq<u8>>) -> Seq<u8>
    decreases parts.len(),
{
    if parts.len() == 0 {
        Seq::empty()
    } else {
        seq![',' as u8] + parts[0] + more_parts(parts.skip(1))
    }
}

proof fn lemma_more_parts_push(parts: Seq<Seq<u8>>, part: Seq<u8>)
    ensures
        more_parts(parts.push(part)) == more_parts(parts) + seq![',' as u8] + part,
    decreases parts.len(),
{
    let all = parts.push(part);
    if parts.len() == 0 {
        assert(all.skip(1) =~= Seq::<Seq<u8>>::empty());
        assert(more_parts(all.skip(1)) =~= Seq::<u8>::empty());
        assert(more_parts(all) =~= more_parts(parts) + seq![',' as u8] + part);
    } else {
        assert(all.skip(1) =~= parts.skip(1).push(part));
        lemma_more_parts_push(parts.skip(1), part);
        assert(more_parts(all) =~= more_parts(parts) + seq![',' as u8] + part);
    }
}

/// Separated parts can be read from the left: the first part, then each
/// other behind a comma.
proof fn lemma_separated_from_left(parts: Seq<Seq<u8>>)
    requires
        parts.len() > 0,
    ensures
        separated(parts) == parts[0] + more_parts(parts.skip(1)),
    decreases parts.len(),
{
    if parts.len() == 1 {
        assert(parts.skip(1) =~= Seq::<Seq<u8>>::empty());
        assert(separated(parts) =~= parts[0] + more_parts(parts.skip(1)));
    } else {
        let front = parts.drop_last();
        lemma_separated_from_left(front);
        assert(parts.skip(1) =~= front.skip(1).push(parts.last()));
        lemma_more_parts_push(front.skip(1), parts.last());
        assert(separated(parts) =~= parts[0] + more_parts(parts.skip(1)));
    }
}

/// The two objects have as many members, and at each place two of one kind.
pub open spec fn same_shape(a: Seq<Member>, b: Seq<Member>) -> bool {
    &&& a.len() == b.len()
    &&& forall|i: int| 0 <= i < a.len() ==> same_kind(#[trigger] a[i], b[i])
}

/// Members behind commas, closed by a brace, tell which members they are.
proof fn lemma_more_members_unique(a: Seq<Member>, r: Seq<u8>, b: Seq<Member>, s: Seq<u8>)
    requires
        same_shape(a, b),
        more_parts(member_texts(a)) + seq!['}' as u8] + r == more_parts(member_texts(b)) + seq![
            '}' as u8,
        ] + s,
    ensures
        a == b,
        r == s,
    decreases a.len(),
{
    let close = seq!['}' as u8];
    let left = more_parts(member_texts(a)) + close + r;
    let right = more_parts(member_texts(b)) + close + s;
    if a.len() == 0 {
        assert(a =~= b);
        assert(r =~= left.skip(1));
        assert(s =~= right.skip(1));
    } else {
        assert(member_texts(a).skip(1) =~= member_texts(a.skip(1)));
        assert(member_texts(b).skip(1) =~= member_texts(b.skip(1)));
        let rest_a = more_parts(member_texts(a.skip(1))) + close + r;
        let rest_b = more_parts(member_texts(b.skip(1))) + close + s;
        assert(left.skip(1) =~= member_json(a[0]) + rest_a);
        assert(right.skip(1) =~= member_json(b[0]) + rest_b);
        assert(same_kind(a[0], b[0]));
        assert(rest_a[0] == ',' as u8 || rest_a[0] == '}' as u8);
        assert(rest_b[0] == ',' as u8 || rest_b[0] == '}' as u8);
        lemma_member_unique(a[0], rest_a, b[0], rest_b);
        assert(same_shape(a.skip(1), b.skip(1))) by {
            assert forall|i: int| 0 <= i < a.skip(1).len() implies same_kind(
                #[trigger] a.skip(1)[i],
                b.skip(1)[i],
            ) by {
                assert(same_kind(a[i + 1], b[i + 1]));
            }
        }
        lemma_more_members_unique(a.skip(1), r, b.skip(1), s);
        assert(a =~= seq![a[0]] + a.skip(1));
        assert(b =~= seq![b[0]] + b.skip(1));
    }
}

/// An object tells which members it has, given their kinds, and what follows
/// it.
pub proof fn lemma_object_unique(a: Seq<Member>, r: Seq<u8>, b: Seq<Member>, s: Seq<u8>)
    requires
        same_shape(a, b),
        object_json(a) + r == object_json(b) + s,
    ensures
        a == b,
        r == s,
{
    let close = seq!['}' as u8];
    let left = object_json(a) + r;
    let right = object_json(b) + s;
    if a.len() == 0 {
        assert(a =~= b);
        assert(r =~= left.skip(2));
        assert(s =~= right.skip(2));
    } else {
        lemma_separated_from_left(member_texts(a));
        lemma_separated_from_left(member_texts(b));
        assert(member_texts(a).skip(1) =~= member_texts(a.skip(1)));
        assert(member_texts(b).skip(1) =~= member_texts(b.skip(1)));
        let rest_a = more_parts(member_texts(a.skip(1))) + close + r;
        let rest_b = more_parts(member_texts(b.skip(1))) + close + s;
        assert(left.skip(1) =~= member_json(a[0]) + rest_a);
        assert(right.skip(1) =~= member_json(b[0]) + rest_b);
        assert(same_kind(a[0], b[0]));
        assert(rest_a[0] == ',' as u8 || rest_a[0] == '}' as u8);
        assert(rest_b[0] == ',' as u8 || rest_b[0] == '}' as u8);
        lemma_member_unique(a[0], rest_a, b[0], rest_b);
        assert(same_shape(a.skip(1), b.skip(1))) by {
            assert forall|i: int| 0 <= i < a.skip(1).len() implies same_kind(
                #[trigger] a.skip(1)[i],
                b.skip(1)[i],
            ) by {
                assert(same_kind(a[i + 1], b[i + 1]));
            }
        }
        lemma_more_members_unique(a.skip(1), r, b.skip(1), s);
        assert(a =~= seq![a[0]] + a.skip(1));
        assert(b =~= seq![b[0]] + b.skip(1));
    }
}

/// Any two objects of the two arrays have one shape.
pub open spec fn of_one_shape(a: Seq<Seq<Member>>, b: Seq<Seq<Member>>) -> bool {
    forall|i: int, j: int|
        0 <= i < a.len() && 0 <= j < b.len() ==> same_shape(#[trigger] a[i], #[trigger] b[j])
}

/// Objects behind commas, closed by a square bracket, tell which objects
/// they are.
proof fn lemma_more_objects_unique(
    a: Seq<Seq<Member>>,
    r: Seq<u8>,
    b: Seq<Seq<Member>>,
    s: Seq<u8>,
)
    requires
        of_one_shape(a, b),
        more_parts(object_texts(a)) + seq![']' as u8] + r == more_parts(object_texts(b)) + seq![
            ']' as u8,
        ] + s,
    ensures
        a == b,
        r == s,
    decreases a.len() + b.len(),
{
    let close = seq![']' as u8];
    let left = more_parts(object_texts(a)) + close + r;
    let right = more_parts(object_texts(b)) + close + s;
    if a.len() == 0 && b.len() == 0 {
        assert(a =~= b);
        assert(r =~= left.skip(1));
        assert(s =~= right.skip(1));
    } else if a.len() == 0 {
        assert(left[0] == ']' as u8);
        assert(right[0] == ',' as u8);
    } else if b.len() == 0 {
        assert(left[0] == ',' as u8);
        assert(right[0] == ']' as u8);
    } else {
        assert(object_texts(a).skip(1) =~= object_texts(a.skip(1)));
        assert(object_texts(b).skip(1) =~= object_texts(b.skip(1)));
        let rest_a = more_parts(object_texts(a.skip(1))) + close + r;
        let rest_b = more_parts(object_texts(b.skip(1))) + close + s;
        assert(left.skip(1) =~= object_json(a[0]) + rest_a);
        assert(right.skip(1) =~= object_json(b[0]) + rest_b);
        assert(same_shape(a[0], b[0]));
        lemma_object_unique(a[0], rest_a, b[0], rest_b);
        assert(of_one_shape(a.skip(1), b.skip(1))) by {
            assert forall|i: int, j: int|
                0 <= i < a.skip(1).len() && 0 <= j < b.skip(1).len() implies same_shape(
                #[trigger] a.skip(1)[i],
                #[trigger] b.skip(1)[j],
            ) by {
                assert(same_shape(a[i + 1], b[j + 1]));
            }
        }
        lemma_more_objects_unique(a.skip(1), r, b.skip(1), s);
        assert(a =~= seq![a[0]] + a.skip(1));
        assert(b =~= seq![b[0]] + b.skip(1));
    }
}

/// An array of objects of one shape tells which objects it holds.
pub proof fn lemma_array_unique(a: Seq<Seq<Member>>, b: Seq<Seq<Member>>)
    requires
        of_one_shape(a, b),
        array_json(a) == array_json(b),
    ensures
        a == b,
{
    let close = seq![']' as u8];
    let none = Seq::<u8>::empty();
    if a.len() == 0 && b.len() == 0 {
        assert(a =~= b);
    } else if a.len() == 0 {
        lemma_separated_from_left(object_texts(b));
        assert(object_texts(a) =~= Seq::<Seq<u8>>::empty());
        assert(array_json(a)[1] == ']' as u8);
        assert(array_json(b)[1] == object_json(b[0])[0]);
    } else if b.len() == 0 {
        lemma_separated_from_left(object_texts(a));
        assert(object_texts(b) =~= Seq::<Seq<u8>>::empty());
        assert(array_json(b)[1] == ']' as u8);
        assert(array_json(a)[1] == object_json(a[0])[0]);
    } else {
        lemma_separated_from_left(object_texts(a));
        lemma_separated_from_left(object_texts(b));
        assert(object_texts(a).skip(1) =~= object_texts(a.skip(1)));
        assert(object_texts(b).skip(1) =~= object_texts(b.skip(1)));
        let rest_a = more_parts(object_texts(a.skip(1))) + close + none;
        let rest_b = more_parts(object_texts(b.skip(1))) + close + none;
        assert(array_json(a).skip(1) =~= object_json(a[0]) + rest_a);
        assert(array_json(b).skip(1) =~= object_json(b[0]) + rest_b);
        assert(same_shape(a[0], b[0]));
        lemma_object_unique(a[0], rest_a, b[0], rest_b);
        assert(of_one_shape(a.skip(1), b.skip(1))) by {
            assert forall|i: int, j: int|
                0 <= i < a.skip(1).len() && 0 <= j < b.skip(1).len() implies same_shape(
                #[trigger] a.skip(1)[i],
                #[trigger] b.skip(1)[j],
            ) by {
                assert(same_shape(a[i + 1], b[j + 1]));
            }
        }
        lemma_more_objects_unique(a.skip(1), none, b.skip(1), none);
        assert(a =~= seq![a[0]] + a.skip(1));
        assert(b =~= seq![b[0]] + b.skip(1));
    }
}

} // verus!
