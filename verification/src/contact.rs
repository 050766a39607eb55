//! A contact as the table holds it, and the table as a JSON document.

use crate::encoding::{lemma_array_is_utf8, well_typed_object};
use crate::json::{
    array_json, decimal, lemma_decimal_is_number, lemma_separated_push, members_of, object_json,
    object_texts, separated, write_object, Field, Member, Scalar, Value,
};
use crate::number::{is_number, Decimal};
use crate::unique::{lemma_array_unique, lemma_decimal_unique, of_one_shape, same_kind, same_shape};
use vstd::prelude::*;
use vstd::utf8::valid_utf8;

verus! {

/// One row of the contacts table.
///
/// The two coordinates are numbers with a fraction; each is held as the text
/// of its value in degrees.
#[derive(Clone, Debug, PartialEq, Eq)]
pub struct Contact {
    pub contact_id: i64,
    pub display_name: String,
    pub address: String,
    pub city: String,
    pub state: String,
    pub zip_code: String,
    pub capacity: i64,
    pub latitude: Decimal,
    pub longitude: Decimal,
    pub email: String,
    pub contact_form: String,
    pub age_range: String,
}

/// What a contact holds, as mathematical values.
pub struct ContactView {
    pub contact_id: int,
    pub display_name: Seq<char>,
    pub address: Seq<char>,
    pub city: Seq<char>,
    pub state: Seq<char>,
    pub zip_code: Seq<char>,
    pub capacity: int,
    pub latitude: Seq<u8>,
    pub longitude: Seq<u8>,
    pub email: Seq<char>,
    pub contact_form: Seq<char>,
    pub age_range: Seq<char>,
}

impl View for Contact {
    type V = ContactView;

    open spec fn view(&self) -> ContactView {
        ContactView {
            contact_id: self.contact_id as int,
            display_name: self.display_name@,
            address: self.address@,
            city: self.city@,
            state: self.state@,
            zip_code: self.zip_code@,
            capacity: self.capacity as int,
            latitude: self.latitude@,
            longitude: self.longitude@,
            email: self.email@,
            contact_form: self.contact_form@,
            age_range: self.age_range@,
        }
    }
}

impl ContactView {
    /// The two coordinates are numbers in JSON's notation, as those of every
    /// [`Contact`] are.
    pub open spec fn valid(self) -> bool {
        is_number(self.latitude) && is_number(self.longitude)
    }

    /// The members of the JSON object that shows this contact: one for each
    /// column, under the column's name and in the order of the columns. The
    /// identifier, the capacity and the coordinates are numbers, the rest
    /// strings.
    pub open spec fn members(self) -> Seq<Member> {
        seq![
            Member { name: "contact_id"@, value: Scalar::Number(decimal(self.contact_id)) },
            Member { name: "display_name"@, value: Scalar::Text(self.display_name) },
            Member { name: "address"@, value: Scalar::Text(self.address) },
            Member { name: "city"@, value: Scalar::Text(self.city) },
            Member { name: "state"@, value: Scalar::Text(self.state) },
            Member { name: "zip_code"@, value: Scalar::Text(self.zip_code) },
            Member { name: "capacity"@, value: Scalar::Number(decimal(self.capacity)) },
            Member { name: "latitude"@, value: Scalar::Number(self.latitude) },
            Member { name: "longitude"@, value: Scalar::Number(self.longitude) },
            Member { name: "email"@, value: Scalar::Text(self.email) },
            Member { name: "contact_form"@, value: Scalar::Text(self.contact_form) },
            Member { name: "age_range"@, value: Scalar::Text(self.age_range) },
        ]
    }
}

/// `member` is a number under `name`.
pub open spec fn is_number_member(member: Member, name: Seq<char>) -> bool {
    &&& member.name == name
    &&& member.value matches Scalar::Number(text)
    &&& is_number(text)
}

/// `member` is a string under `name`.
pub open spec fn is_text_member(member: Member, name: Seq<char>) -> bool {
    member.name == name && member.value is Text
}

/// `object` has a member for each of the twelve columns and no other, each
/// of the type of its column: the identifier, the capacity and the two
/// coordinates are numbers, the other eight are strings.
pub open spec fn shows_contact(object: Seq<Member>) -> bool {
    &&& object.len() == 12
    &&& is_number_member(object[0], "contact_id"@)
    &&& is_text_member(object[1], "display_name"@)
    &&& is_text_member(object[2], "address"@)
    &&& is_text_member(object[3], "city"@)
    &&& is_text_member(object[4], "state"@)
    &&& is_text_member(object[5], "zip_code"@)
    &&& is_number_member(object[6], "capacity"@)
    &&& is_number_member(object[7], "latitude"@)
    &&& is_number_member(object[8], "longitude"@)
    &&& is_text_member(object[9], "email"@)
    &&& is_text_member(object[10], "contact_form"@)
    &&& is_text_member(object[11], "age_range"@)
}

/// The rows of a table as mathematical values, in the table's order.
pub open spec fn table_of(rows: Seq<Contact>) -> Seq<ContactView> {
    Seq::new(rows.len(), |i: int| rows[i]@)
}

/// The JSON objects that show the rows of a table, in the table's order.
pub open spec fn contact_objects(table: Seq<ContactView>) -> Seq<Seq<Member>> {
    Seq::new(table.len(), |i: int| table[i].members())
}

/// The JSON document that shows a table: an array with one object for each
/// row.
pub open spec fn contacts_json(table: Seq<ContactView>) -> Seq<u8> {
    array_json(contact_objects(table))
}

/// Every row of the table holds coordinates that are numbers.
pub open spec fn valid_table(table: Seq<ContactView>) -> bool {
    forall|i: int| 0 <= i < table.len() ==> (#[trigger] table[i]).valid()
}

/// The object that shows a contact has the twelve members, each of its type.
pub proof fn lemma_contact_object(contact: ContactView)
    requires
        contact.valid(),
    ensures
        shows_contact(contact.members()),
{
    lemma_decimal_is_number(contact.contact_id);
    lemma_decimal_is_number(contact.capacity);
}

/// The document that shows a table is an array of as many objects as the
/// table has rows, in the order of the rows, and each object has the twelve
/// members of a contact, numbers where the column is numeric and strings
/// where it is text.
pub proof fn lemma_document_shape(table: Seq<ContactView>)
    requires
        valid_table(table),
    ensures
        contacts_json(table) == array_json(contact_objects(table)),
        contact_objects(table).len() == table.len(),
        forall|i: int|
            0 <= i < table.len() ==> #[trigger] contact_objects(table)[i] == table[i].members(),
        forall|i: int| 0 <= i < table.len() ==> shows_contact(#[trigger] contact_objects(table)[i]),
{
    assert forall|i: int| 0 <= i < table.len() implies shows_contact(
        #[trigger] contact_objects(table)[i],
    ) by {
        lemma_contact_object(table[i]);
    }
}

/// No two members of the object that shows a contact have the same name.
pub proof fn lemma_names_differ(contact: ContactView, i: int, j: int)
    requires
        0 <= i < j < 12,
    ensures
        contact.members()[i].name != contact.members()[j].name,
{
    reveal_strlit("contact_id");
    reveal_strlit("display_name");
    reveal_strlit("address");
    reveal_strlit("city");
    reveal_strlit("state");
    reveal_strlit("zip_code");
    reveal_strlit("capacity");
    reveal_strlit("latitude");
    reveal_strlit("longitude");
    reveal_strlit("email");
    reveal_strlit("contact_form");
    reveal_strlit("age_range");
    let first = contact.members()[i].name;
    let second = contact.members()[j].name;
    assert(first.len() != second.len() || first[0] != second[0]);
}

/// The document that shows a table is UTF-8 text.
pub proof fn lemma_document_is_utf8(table: Seq<ContactView>)
    requires
        valid_table(table),
    ensures
        valid_utf8(contacts_json(table)),
{
    let objects = contact_objects(table);
    assert forall|i: int| 0 <= i < objects.len() implies well_typed_object(
        #[trigger] objects[i],
    ) by {
        lemma_contact_object(table[i]);
    }
    lemma_array_is_utf8(objects);
}

/// Any two objects that show contacts have one shape.
proof fn lemma_contacts_of_one_shape(first: Seq<Member>, second: Seq<Member>)
    requires
        shows_contact(first),
        shows_contact(second),
    ensures
        same_shape(first, second),
{
    assert forall|i: int| 0 <= i < 12 implies same_kind(#[trigger] first[i], second[i]) by {
        assert(i == 0 || i == 1 || i == 2 || i == 3 || i == 4 || i == 5 || i == 6 || i == 7 || i == 8
            || i == 9 || i == 10 || i == 11);
    }
}

/// The object that shows a contact shows no other contact.
pub proof fn lemma_object_determines_contact(first: ContactView, second: ContactView)
    requires
        first.members() == second.members(),
    ensures
        first == second,
{
    let a = first.members();
    let b = second.members();
    assert(a[0] == b[0] && a[1] == b[1] && a[2] == b[2] && a[3] == b[3] && a[4] == b[4] && a[5]
        == b[5]);
    assert(a[6] == b[6] && a[7] == b[7] && a[8] == b[8] && a[9] == b[9] && a[10] == b[10] && a[11]
        == b[11]);
    lemma_decimal_unique(first.contact_id, second.contact_id);
    lemma_decimal_unique(first.capacity, second.capacity);
}

/// The document that shows a table shows no other table: where the bytes are
/// the same, the rows are the same, in the same order.
pub proof fn lemma_document_determines_table(
    first: Seq<ContactView>,
    second: Seq<ContactView>,
)
    requires
        valid_table(first),
        valid_table(second),
        contacts_json(first) == contacts_json(second),
    ensures
        first == second,
{
    let a = contact_objects(first);
    let b = contact_objects(second);
    assert(of_one_shape(a, b)) by {
        assert forall|i: int, j: int| 0 <= i < a.len() && 0 <= j < b.len() implies same_shape(
            #[trigger] a[i],
            #[trigger] b[j],
        ) by {
            lemma_contact_object(first[i]);
            lemma_contact_object(second[j]);
            lemma_contacts_of_one_shape(a[i], b[j]);
        }
    }
    lemma_array_unique(a, b);
    assert(first.len() == second.len());
    assert forall|i: int| 0 <= i < first.len() implies first[i] == second[i] by {
        assert(a[i] == b[i]);
        lemma_object_determines_contact(first[i], second[i]);
    }
    assert(first =~= second);
}

/// The document of an empty table is `[]`.
pub proof fn lemma_empty_table()
    ensures
        contacts_json(Seq::empty()) == seq!['[' as u8, ']' as u8],
{
    assert(object_texts(contact_objects(Seq::empty())) =~= Seq::empty());
    assert(contacts_json(Seq::empty()) =~= seq!['[' as u8, ']' as u8]);
}

impl Contact {
    /// The fields of the JSON object that shows this contact.
    pub fn fields(&self) -> (fields: Vec<Field<'_>>)
        ensures
            members_of(fields@) == self@.members(),
            self@.valid(),
    {
        proof {
            use_type_invariant(&self.latitude);
            use_type_invariant(&self.longitude);
        }
        let mut fields: Vec<Field<'_>> = Vec::new();
        fields.push(Field { name: "contact_id", value: Value::Integer(self.contact_id) });
        fields.push(Field { name: "display_name", value: Value::Text(self.display_name.as_str()) });
        fields.push(Field { name: "address", value: Value::Text(self.address.as_str()) });
        fields.push(Field { name: "city", value: Value::Text(self.city.as_str()) });
        fields.push(Field { name: "state", value: Value::Text(self.state.as_str()) });
        fields.push(Field { name: "zip_code", value: Value::Text(self.zip_code.as_str()) });
        fields.push(Field { name: "capacity", value: Value::Integer(self.capacity) });
        fields.push(Field { name: "latitude", value: Value::Decimal(&self.latitude) });
        fields.push(Field { name: "longitude", value: Value::Decimal(&self.longitude) });
        fields.push(Field { name: "email", value: Value::Text(self.email.as_str()) });
        fields.push(Field { name: "contact_form", value: Value::Text(self.contact_form.as_str()) });
        fields.push(Field { name: "age_range", value: Value::Text(self.age_range.as_str()) });
        assert(members_of(fields@) =~= self@.members());
        fields
    }
}

/// Writes the rows of a table as a JSON document: an array with one object
/// for each row, in the order of the rows.
pub fn to_json(rows: &[Contact]) -> (body: Vec<u8>)
    ensures
        body@ == contacts_json(table_of(rows@)),
        valid_table(table_of(rows@)),
        valid_utf8(body@),
{
    let ghost objects = contact_objects(table_of(rows@));
    let mut body: Vec<u8> = Vec::new();
    body.push('[' as u8);
    let mut i: usize = 0;
    while i < rows.len()
        invariant
            i <= rows.len(),
            objects == contact_objects(table_of(rows@)),
            body@ == seq!['[' as u8] + separated(object_texts(objects.take(i as int))),
            forall|k: int| 0 <= k < i ==> (#[trigger] table_of(rows@)[k]).valid(),
        decreases rows.len() - i,
    {
        if i > 0 {
            body.push(',' as u8);
        }
        let fields = rows[i].fields();
        write_object(&mut body, fields.as_slice());
        proof {
            let done = object_texts(objects.take(i as int));
            let next = object_json(objects[i as int]);
            assert(object_texts(objects.take(i + 1)) =~= done.push(next));
            lemma_separated_push(done, next);
            assert(body@ =~= seq!['[' as u8] + separated(object_texts(objects.take(i + 1))));
        }
        i += 1;
    }
    body.push(']' as u8);
    proof {
        assert(objects.take(i as int) =~= objects);
        assert(body@ =~= array_json(objects));
        lemma_document_is_utf8(table_of(rows@));
    }
    body
}

} // verus!
