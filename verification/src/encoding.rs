//! Documents are text: what the writers produce is valid UTF-8.

use crate::json::{
    array_json, escaped, escaped_byte, member_json, member_texts, object_json, object_texts,
    quoted, scalar_json, separated, well_typed, Member, Scalar,
};
use crate::number::{is_number, is_number_byte, lemma_number_bytes};
use vstd::prelude::*;
use vstd::utf8::*;

verus! {

/// Every byte of `s` is below `0x80`.
pub open spec fn is_ascii_bytes(s: Seq<u8>) -> bool {
    forall|i: int| 0 <= i < s.len() ==> #[trigger] s[i] < 0x80
}

/// Bytes below `0x80` are UTF-8 text, one character each.
pub proof fn lemma_ascii_is_utf8(s: Seq<u8>)
    requires
        is_ascii_bytes(s),
    ensures
        valid_utf8(s),
    decreases s.len(),
{
    if s.len() > 0 {
        let b = s[0];
        assert(b & 0x7f <= 0x7f) by (bit_vector);
        assert(valid_first_scalar(s));
        let rest = pop_first_scalar(s);
        assert forall|i: int| 0 <= i < rest.len() implies #[trigger] rest[i] < 0x80 by {
            assert(rest[i] == s[i + 1]);
        }
        lemma_ascii_is_utf8(rest);
    }
}

/// A number in JSON's notation is made of bytes below `0x80`.
pub proof fn lemma_number_is_ascii(s: Seq<u8>)
    requires
        is_number(s),
    ensures
        is_ascii_bytes(s),
{
    lemma_number_bytes(s);
    assert forall|i: int| 0 <= i < s.len() implies #[trigger] s[i] < 0x80 by {
        assert(is_number_byte(s[i]));
    }
}

/// Escaping goes byte by byte: a text in two pieces is escaped piece by piece.
pub proof fn lemma_escaped_concat(a: Seq<u8>, b: Seq<u8>)
    ensures
        escaped(a + b) == escaped(a) + escaped(b),
    decreases b.len(),
{
    if b.len() == 0 {
        assert(a + b =~= a);
        assert(escaped(a) + escaped(b) =~= escaped(a));
    } else {
        assert((a + b).drop_last() =~= a + b.drop_last());
        assert((a + b).last() == b.last());
        lemma_escaped_concat(a, b.drop_last());
        assert(escaped(a + b) =~= escaped(a) + escaped(b));
    }
}

/// Bytes from `0x80` on are not touched by escaping.
proof fn lemma_escaped_high_bytes(s: Seq<u8>)
    requires
        forall|i: int| 0 <= i < s.len() ==> #[trigger] s[i] >= 0x80,
    ensures
        escaped(s) == s,
    decreases s.len(),
{
    if s.len() > 0 {
        lemma_escaped_high_bytes(s.drop_last());
        assert(escaped(s) =~= s);
    }
}

/// What stands for a byte below `0x80` is made of bytes below `0x80`.
proof fn lemma_escaped_byte_is_ascii(b: u8)
    requires
        b < 0x80,
    ensures
        is_ascii_bytes(escaped_byte(b)),
{
}

/// Escaping UTF-8 text gives UTF-8 text.
pub proof fn lemma_escaped_is_utf8(text: Seq<u8>)
    requires
        valid_utf8(text),
    ensures
        valid_utf8(escaped(text)),
    decreases text.len(),
{
    if text.len() > 0 {
        let width = length_of_first_scalar(text);
        let head = take_first_scalar(text);
        let tail = pop_first_scalar(text);
        assert(text =~= head + tail);
        lemma_escaped_concat(head, tail);
        lemma_escaped_is_utf8(tail);
        if width == 1 {
            assert(head =~= seq![text[0]]);
            assert(head.drop_last() =~= Seq::<u8>::empty());
            assert(escaped(head.drop_last()) =~= Seq::<u8>::empty());
            assert(escaped(head) =~= escaped_byte(text[0]));
            lemma_escaped_byte_is_ascii(text[0]);
            lemma_ascii_is_utf8(escaped(head));
        } else {
            assert forall|i: int| 0 <= i < head.len() implies #[trigger] head[i] >= 0x80 by {
                assert(head[i] == text[i]);
            }
            lemma_escaped_high_bytes(head);
            assert(valid_first_scalar(head));
            assert(pop_first_scalar(head) =~= Seq::<u8>::empty());
            assert(valid_utf8(pop_first_scalar(head)));
            assert(valid_utf8(head));
        }
        valid_utf8_concat(escaped(head), escaped(tail));
    }
}

/// A text as a JSON string is UTF-8 text.
pub proof fn lemma_quoted_is_utf8(text: Seq<char>)
    ensures
        valid_utf8(quoted(text)),
{
    encode_utf8_valid_utf8(text);
    lemma_escaped_is_utf8(encode_utf8(text));
    let mark = seq!['"' as u8];
    lemma_ascii_is_utf8(mark);
    valid_utf8_concat(mark, escaped(encode_utf8(text)));
    valid_utf8_concat(mark + escaped(encode_utf8(text)), mark);
}

/// A member whose value is of its type is UTF-8 text.
pub proof fn lemma_member_is_utf8(member: Member)
    requires
        well_typed(member.value),
    ensures
        valid_utf8(member_json(member)),
{
    lemma_quoted_is_utf8(member.name);
    let colon = seq![':' as u8];
    lemma_ascii_is_utf8(colon);
    match member.value {
        Scalar::Number(text) => {
            lemma_number_is_ascii(text);
            lemma_ascii_is_utf8(text);
        },
        Scalar::Text(text) => {
            lemma_quoted_is_utf8(text);
        },
    }
    valid_utf8_concat(quoted(member.name), colon);
    valid_utf8_concat(quoted(member.name) + colon, scalar_json(member.value));
}

/// Parts that are UTF-8 text, with commas between them, are UTF-8 text.
pub proof fn lemma_separated_is_utf8(parts: Seq<Seq<u8>>)
    requires
        forall|i: int| 0 <= i < parts.len() ==> valid_utf8(#[trigger] parts[i]),
    ensures
        valid_utf8(separated(parts)),
    decreases parts.len(),
{
    if parts.len() > 1 {
        let comma = seq![',' as u8];
        lemma_ascii_is_utf8(comma);
        lemma_separated_is_utf8(parts.drop_last());
        valid_utf8_concat(separated(parts.drop_last()), comma);
        valid_utf8_concat(separated(parts.drop_last()) + comma, parts.last());
    }
}

/// Every member of `members` holds a value of its type.
pub open spec fn well_typed_object(members: Seq<Member>) -> bool {
    forall|i: int| 0 <= i < members.len() ==> well_typed(#[trigger] members[i].value)
}

/// An object whose members hold values of their types is UTF-8 text.
pub proof fn lemma_object_is_utf8(members: Seq<Member>)
    requires
        well_typed_object(members),
    ensures
        valid_utf8(object_json(members)),
{
    let parts = member_texts(members);
    assert forall|i: int| 0 <= i < parts.len() implies valid_utf8(#[trigger] parts[i]) by {
        assert(well_typed(members[i].value));
        lemma_member_is_utf8(members[i]);
    }
    lemma_separated_is_utf8(parts);
    let open = seq!['{' as u8];
    let close = seq!['}' as u8];
    lemma_ascii_is_utf8(open);
    lemma_ascii_is_utf8(close);
    valid_utf8_concat(open, separated(parts));
    valid_utf8_concat(open + separated(parts), close);
}

/// An array of such objects is UTF-8 text.
pub proof fn lemma_array_is_utf8(objects: Seq<Seq<Member>>)
    requires
        forall|i: int| 0 <= i < objects.len() ==> well_typed_object(#[trigger] objects[i]),
    ensures
        valid_utf8(array_json(objects)),
{
    let parts = object_texts(objects);
    assert forall|i: int| 0 <= i < parts.len() implies valid_utf8(#[trigger] parts[i]) by {
        assert(well_typed_object(objects[i]));
        lemma_object_is_utf8(objects[i]);
    }
    lemma_separated_is_utf8(parts);
    let open = seq!['[' as u8];
    let close = seq![']' as u8];
    lemma_ascii_is_utf8(open);
    lemma_ascii_is_utf8(close);
    valid_utf8_concat(open, separated(parts));
    valid_utf8_concat(open + separated(parts), close);
}

} // verus!
