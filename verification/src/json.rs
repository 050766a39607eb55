//! JSON text as bytes: what a document looks like, and writers that produce it.

use crate::number::{all_digits, is_number, splits_as, Decimal};
use vstd::prelude::*;

verus! {

/// The ASCII digit for `d`, which is below ten.
pub open spec fn digit(d: int) -> u8 {
    ('0' as u8 + d) as u8
}

/// The decimal digits of a natural number, most significant first, with no
/// leading zero (zero itself is `0`).
pub open spec fn digits(n: nat) -> Seq<u8>
    decreases n,
{
    if n < 10 {
        seq![digit(n as int)]
    } else {
        digits(n / 10).push(digit((n % 10) as int))
    }
}

/// An integer as JSON writes it: a minus sign where it is negative, then its
/// digits.
pub open spec fn decimal(n: int) -> Seq<u8> {
    if n < 0 {
        seq!['-' as u8] + digits((-n) as nat)
    } else {
        digits(n as nat)
    }
}

/// The digits of a natural number are digits, and the first of them is a
/// zero for zero alone.
proof fn lemma_digits(n: nat)
    ensures
        digits(n).len() >= 1,
        all_digits(digits(n)),
        digits(n)[0] == '0' as u8 ==> n == 0,
    decreases n,
{
    if n >= 10 {
        lemma_digits(n / 10);
    }
}

/// An integer in decimal notation is a number in JSON's notation.
pub proof fn lemma_decimal_is_number(n: int)
    ensures
        is_number(decimal(n)),
{
    let whole = digits(if n < 0 { (-n) as nat } else { n as nat });
    lemma_digits(if n < 0 { (-n) as nat } else { n as nat });
    let none = Seq::<u8>::empty();
    let sign = if n < 0 { seq!['-' as u8] } else { Seq::empty() };
    assert(decimal(n) =~= sign + whole + none + none);
    assert(splits_as(decimal(n), n < 0, whole, none, none));
}

/// Appends the decimal digits of `n` to `out`.
fn write_digits(out: &mut Vec<u8>, n: u64)
    ensures
        final(out)@ == old(out)@ + digits(n as nat),
    decreases n,
{
    if n < 10 {
        out.push('0' as u8 + (n as u8));
        assert(out@ =~= old(out)@ + digits(n as nat));
    } else {
        write_digits(out, n / 10);
        out.push('0' as u8 + ((n % 10) as u8));
        assert(out@ =~= old(out)@ + digits(n as nat));
    }
}

/// Appends `n` to `out` as a JSON number.
pub fn write_integer(out: &mut Vec<u8>, n: i64)
    ensures
        final(out)@ == old(out)@ + decimal(n as int),
{
    if n < 0 {
        out.push('-' as u8);
        let magnitude: u64 = ((-(n + 1)) as u64) + 1;
        write_digits(out, magnitude);
        assert(out@ =~= old(out)@ + decimal(n as int));
    } else {
        write_digits(out, n as u64);
    }
}

/// The lower-case hexadecimal digit for `d`, which is below sixteen.
pub open spec fn hex_digit(d: int) -> u8 {
    if d < 10 {
        ('0' as u8 + d) as u8
    } else {
        ('a' as u8 + d - 10) as u8
    }
}

/// What stands for one byte of a text inside a JSON string: the quotation
/// mark and the reverse solidus get a reverse solidus in front, the control
/// bytes below `0x20` their short escape where JSON has one and `\u00XX`
/// where it has none, and every other byte stands for itself.
pub open spec fn escaped_byte(b: u8) -> Seq<u8> {
    if b == '"' as u8 {
        seq!['\\' as u8, '"' as u8]
    } else if b == '\\' as u8 {
        seq!['\\' as u8, '\\' as u8]
    } else if b == 0x08 {
        seq!['\\' as u8, 'b' as u8]
    } else if b == 0x09 {
        seq!['\\' as u8, 't' as u8]
    } else if b == 0x0a {
        seq!['\\' as u8, 'n' as u8]
    } else if b == 0x0c {
        seq!['\\' as u8, 'f' as u8]
    } else if b == 0x0d {
        seq!['\\' as u8, 'r' as u8]
    } else if b < 0x20 {
        seq![
            '\\' as u8,
            'u' as u8,
            '0' as u8,
            '0' as u8,
            hex_digit(b as int / 16),
            hex_digit(b as int % 16),
        ]
    } else {
        seq![b]
    }
}

/// The bytes of a text with each one escaped, in order.
pub open spec fn escaped(text: Seq<u8>) -> Seq<u8>
    decreases text.len(),
{
    if text.len() == 0 {
        Seq::empty()
    } else {
        escaped(text.drop_last()) + escaped_byte(text.last())
    }
}

/// A text as a JSON string: its UTF-8 bytes, escaped, between quotation marks.
pub open spec fn quoted(text: Seq<char>) -> Seq<u8> {
    seq!['"' as u8] + escaped(vstd::utf8::encode_utf8(text)) + seq!['"' as u8]
}

/// The lower-case hexadecimal digit for `d`.
fn hex_of(d: u8) -> (h: u8)
    requires
        d < 16,
    ensures
        h == hex_digit(d as int),
{
    if d < 10 {
        '0' as u8 + d
    } else {
        'a' as u8 + (d - 10)
    }
}

/// Appends what stands for the byte `b` inside a JSON string.
fn write_escaped_byte(out: &mut Vec<u8>, b: u8)
    ensures
        final(out)@ == old(out)@ + escaped_byte(b),
{
    if b == '"' as u8 || b == '\\' as u8 {
        out.push('\\' as u8);
        out.push(b);
    } else if b == 0x08 {
        out.push('\\' as u8);
        out.push('b' as u8);
    } else if b == 0x09 {
        out.push('\\' as u8);
        out.push('t' as u8);
    } else if b == 0x0a {
        out.push('\\' as u8);
        out.push('n' as u8);
    } else if b == 0x0c {
        out.push('\\' as u8);
        out.push('f' as u8);
    } else if b == 0x0d {
        out.push('\\' as u8);
        out.push('r' as u8);
    } else if b < 0x20 {
        out.push('\\' as u8);
        out.push('u' as u8);
        out.push('0' as u8);
        out.push('0' as u8);
        out.push(hex_of(b / 16));
        out.push(hex_of(b % 16));
    } else {
        out.push(b);
    }
    assert(out@ =~= old(out)@ + escaped_byte(b));
}

/// Appends `text` to `out` as a JSON string.
pub fn write_text(out: &mut Vec<u8>, text: &str)
    ensures
        final(out)@ == old(out)@ + quoted(text@),
{
    let bytes = text.as_bytes();
    out.push('"' as u8);
    let mut i: usize = 0;
    while i < bytes.len()
        invariant
            i <= bytes.len(),
            out@ == old(out)@ + seq!['"' as u8] + escaped(bytes@.take(i as int)),
        decreases bytes.len() - i,
    {
        write_escaped_byte(out, bytes[i]);
        proof {
            let next = bytes@.take(i + 1);
            assert(next.drop_last() =~= bytes@.take(i as int));
            assert(next.last() == bytes@[i as int]);
            assert(out@ =~= old(out)@ + seq!['"' as u8] + escaped(next));
        }
        i += 1;
    }
    out.push('"' as u8);
    proof {
        assert(bytes@.take(i as int) =~= bytes@);
        assert(out@ =~= old(out)@ + quoted(text@));
    }
}

/// A JSON value that holds no other value: a number, by its text, or a string.
pub enum Scalar {
    Number(Seq<u8>),
    Text(Seq<char>),
}

/// One member of a JSON object: a name and the value under it.
pub struct Member {
    pub name: Seq<char>,
    pub value: Scalar,
}

/// A number's text is a number in JSON's notation; every string is a string.
pub open spec fn well_typed(value: Scalar) -> bool {
    value matches Scalar::Number(text) ==> is_number(text)
}

/// The bytes of a value: a number's own text, a string in quotation marks.
pub open spec fn scalar_json(value: Scalar) -> Seq<u8> {
    match value {
        Scalar::Number(text) => text,
        Scalar::Text(text) => quoted(text),
    }
}

/// The bytes of a member: its name as a string, a colon, its value.
pub open spec fn member_json(member: Member) -> Seq<u8> {
    quoted(member.name) + seq![':' as u8] + scalar_json(member.value)
}

/// The parts in order, with a comma between each two.
pub open spec fn separated(parts: Seq<Seq<u8>>) -> Seq<u8>
    decreases parts.len(),
{
    if parts.len() == 0 {
        Seq::empty()
    } else if parts.len() == 1 {
        parts[0]
    } else {
        separated(parts.drop_last()) + seq![',' as u8] + parts.last()
    }
}

/// The bytes of each member, in order.
pub open spec fn member_texts(members: Seq<Member>) -> Seq<Seq<u8>> {
    Seq::new(members.len(), |i: int| member_json(members[i]))
}

/// The bytes of an object: its members between braces.
pub open spec fn object_json(members: Seq<Member>) -> Seq<u8> {
    seq!['{' as u8] + separated(member_texts(members)) + seq!['}' as u8]
}

/// The bytes of each object, in order.
pub open spec fn object_texts(objects: Seq<Seq<Member>>) -> Seq<Seq<u8>> {
    Seq::new(objects.len(), |i: int| object_json(objects[i]))
}

/// The bytes of an array of objects: the objects between square brackets.
pub open spec fn array_json(objects: Seq<Seq<Member>>) -> Seq<u8> {
    seq!['[' as u8] + separated(object_texts(objects)) + seq![']' as u8]
}

/// One more part goes behind a comma, unless it is the first.
pub proof fn lemma_separated_push(parts: Seq<Seq<u8>>, part: Seq<u8>)
    ensures
        separated(parts.push(part)) == if parts.len() == 0 {
            part
        } else {
            separated(parts) + seq![',' as u8] + part
        },
{
    assert(parts.push(part).drop_last() =~= parts);
}

/// A value to be written: an integer, a number with a fraction, or a text.
pub enum Value<'a> {
    Integer(i64),
    Decimal(&'a Decimal),
    Text(&'a str),
}

impl View for Value<'_> {
    type V = Scalar;

    open spec fn view(&self) -> Scalar {
        match self {
            Value::Integer(n) => Scalar::Number(decimal(*n as int)),
            Value::Decimal(number) => Scalar::Number(number@),
            Value::Text(text) => Scalar::Text(text@),
        }
    }
}

/// A member to be written: a name and the value under it.
pub struct Field<'a> {
    pub name: &'a str,
    pub value: Value<'a>,
}

impl View for Field<'_> {
    type V = Member;

    open spec fn view(&self) -> Member {
        Member { name: self.name@, value: self.value@ }
    }
}

/// The members that a list of fields stands for.
pub open spec fn members_of(fields: Seq<Field>) -> Seq<Member> {
    Seq::new(fields.len(), |i: int| fields[i]@)
}

/// Appends `value` to `out`.
pub fn write_value(out: &mut Vec<u8>, value: &Value)
    ensures
        final(out)@ == old(out)@ + scalar_json(value@),
{
    match value {
        Value::Integer(n) => write_integer(out, *n),
        Value::Decimal(number) => {
            out.extend_from_slice(number.as_str().as_bytes());
            assert(out@ =~= old(out)@ + number@);
        },
        Value::Text(text) => write_text(out, text),
    }
}

/// Appends `field` to `out`: its name, a colon, its value.
pub fn write_field(out: &mut Vec<u8>, field: &Field)
    ensures
        final(out)@ == old(out)@ + member_json(field@),
{
    write_text(out, field.name);
    out.push(':' as u8);
    write_value(out, &field.value);
    assert(out@ =~= old(out)@ + member_json(field@));
}

/// Appends to `out` the object that has `fields` for its members, in order.
pub fn write_object(out: &mut Vec<u8>, fields: &[Field])
    ensures
        final(out)@ == old(out)@ + object_json(members_of(fields@)),
{
    let ghost members = members_of(fields@);
    out.push('{' as u8);
    let mut i: usize = 0;
    while i < fields.len()
        invariant
            i <= fields.len(),
            members == members_of(fields@),
            out@ == old(out)@ + seq!['{' as u8] + separated(member_texts(members.take(i as int))),
        decreases fields.len() - i,
    {
        if i > 0 {
            out.push(',' as u8);
        }
        write_field(out, &fields[i]);
        proof {
            let done = member_texts(members.take(i as int));
            assert(member_texts(members.take(i + 1)) =~= done.push(member_json(members[i as int])));
            lemma_separated_push(done, member_json(members[i as int]));
            assert(out@ =~= old(out)@ + seq!['{' as u8] + separated(
                member_texts(members.take(i + 1)),
            ));
        }
        i += 1;
    }
    out.push('}' as u8);
    proof {
        assert(members.take(i as int) =~= members);
        assert(out@ =~= old(out)@ + object_json(members));
    }
}

} // verus!
