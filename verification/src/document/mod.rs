//! Documents and the references to their fields.

pub mod fields;

pub use fields::{FieldFilter, FieldReference};

use vstd::prelude::*;
use vstd::std_specs::cmp::PartialEqSpecImpl;
use vstd::utf8::encode_utf8;
use crate::error::{opt_view, yields, Error};
use crate::json::{
    lemma_lookups_with, lemma_plain_round_trip, lookup, members_view, put_opt, read_string,
    string_json, string_of, string_tree, text, with, Json, JsonView, Members,
};
use crate::parse::lemma_trees_well_formed;
use crate::text::same_text;
use crate::value::{
    equal_fields, fields_encode, fields_member_decode, lemma_fields_member_round_trip, lemma_fields_well_formed,
    read_fields,
    write_fields, Entries, MapValue,
};
use crate::wire::Wire;

verus! {

/// The largest size, in bytes, that the service accepts for a document.
pub const MAX_DOCUMENT_BYTES: usize = 1048572;

/// A document: a name, a mapping from field names to values, and the two
/// times that the service assigns.
#[derive(Debug, Clone)]
pub struct Document {
    /// The document's fields, by name.
    pub fields: Option<MapValue>,
    /// The time at which the document was last changed, as the service
    /// reports it.
    pub update_time: Option<String>,
    /// The time at which the document was created, as the service reports it.
    pub create_time: Option<String>,
    /// The resource name of the document.
    pub name: Option<String>,
}

/// The model of a document.
pub ghost struct DocumentView {
    pub fields: Option<Entries>,
    pub update_time: Option<Seq<char>>,
    pub create_time: Option<Seq<char>>,
    pub name: Option<Seq<char>>,
}

impl View for Document {
    type V = DocumentView;

    open spec fn view(&self) -> DocumentView {
        DocumentView {
            fields: opt_view(self.fields),
            update_time: opt_view(self.update_time),
            create_time: opt_view(self.create_time),
            name: opt_view(self.name),
        }
    }
}

fn same_name(a: &Option<String>, b: &Option<String>) -> (r: bool)
    ensures
        r == (opt_view(*a) == opt_view(*b)),
{
    match a {
        Some(x) => match b {
            Some(y) => same_text(x.as_str(), y.as_str()),
            None => false,
        },
        None => b.is_none(),
    }
}

fn same_fields(a: &Option<MapValue>, b: &Option<MapValue>) -> (r: bool)
    ensures
        r == equal_fields(opt_view(*a), opt_view(*b)),
{
    match a {
        Some(x) => match b {
            Some(y) => x == y,
            None => false,
        },
        None => b.is_none(),
    }
}

impl PartialEq for Document {
    /// Two documents are equal where their names and their fields are; the
    /// times that the service assigns do not count.
    fn eq(&self, other: &Self) -> (r: bool) {
        same_name(&self.name, &other.name) && same_fields(&self.fields, &other.fields)
    }
}

impl PartialEqSpecImpl for Document {
    open spec fn obeys_eq_spec() -> bool {
        true
    }

    open spec fn eq_spec(&self, other: &Self) -> bool {
        self@.name == other@.name && equal_fields(self@.fields, other@.fields)
    }
}

impl DocumentView {
    /// The members of a document's tree, given the tree of its fields.
    pub open spec fn members(self, fields: Option<JsonView>) -> Members {
        with(
            with(
                with(with(Seq::empty(), "fields"@, fields), "updateTime"@, string_tree(self.update_time)),
                "createTime"@,
                string_tree(self.create_time),
            ),
            "name"@,
            string_tree(self.name),
        )
    }

    /// Whether the document may be sent: `MalformedValue` where a field's
    /// name is no field name or its value may not be sent,
    /// `FieldNameReserved` where a name is reserved, unless `system_fields`
    /// permits reserved names.
    pub open spec fn check(self, system_fields: bool) -> Result<(), Error> {
        match fields_encode(self.fields, system_fields) {
            Err(e) => Err(e),
            Ok(_) => Ok(()),
        }
    }

    /// What sending the document gives: the members `fields`, `updateTime`,
    /// `createTime` and `name`, each where the document holds it, the times
    /// and the name as they are.
    pub open spec fn encode(self, system_fields: bool) -> Result<JsonView, Error> {
        match fields_encode(self.fields, system_fields) {
            Err(e) => Err(e),
            Ok(fields) => Ok(JsonView::Object(self.members(fields))),
        }
    }

    /// The document that a tree stands for.
    pub open spec fn decode(j: JsonView) -> Result<DocumentView, Error> {
        match j {
            JsonView::Object(m) => match fields_member_decode(lookup(m, "fields"@)) {
                Err(e) => Err(e),
                Ok(fields) => match string_of(lookup(m, "updateTime"@), Error::MalformedValue) {
                    Err(e) => Err(e),
                    Ok(update_time) => match string_of(
                        lookup(m, "createTime"@),
                        Error::MalformedValue,
                    ) {
                        Err(e) => Err(e),
                        Ok(create_time) => match string_of(
                            lookup(m, "name"@),
                            Error::MalformedValue,
                        ) {
                            Err(e) => Err(e),
                            Ok(name) => Ok(
                                DocumentView {
                                    fields: fields,
                                    update_time: update_time,
                                    create_time: create_time,
                                    name: name,
                                },
                            ),
                        },
                    },
                },
            },
            _ => Err(Error::MalformedValue),
        }
    }

    /// Round trip: a document that can be sent, with or without reserved
    /// names, is read back from its tree.
    pub proof fn lemma_round_trip(self, system_fields: bool)
        requires
            self.encode(system_fields) is Ok,
        ensures
            Self::decode(self.encode(system_fields)->Ok_0) == Ok::<DocumentView, Error>(self),
    {
        reveal_strlit("fields");
        reveal_strlit("updateTime");
        reveal_strlit("createTime");
        reveal_strlit("name");
        assert("fields"@.len() == 6 && "updateTime"@.len() == 10 && "createTime"@.len() == 10
            && "name"@.len() == 4 && "updateTime"@[0] == 'u' && "createTime"@[0] == 'c');
        let fields = fields_encode(self.fields, system_fields)->Ok_0;
        let first = with(Seq::empty(), "fields"@, fields);
        let second = with(first, "updateTime"@, string_tree(self.update_time));
        let third = with(second, "createTime"@, string_tree(self.create_time));
        lemma_lookups_with(Seq::empty(), "fields"@, fields);
        lemma_lookups_with(first, "updateTime"@, string_tree(self.update_time));
        lemma_lookups_with(second, "createTime"@, string_tree(self.create_time));
        lemma_lookups_with(third, "name"@, string_tree(self.name));
        lemma_lookups_with(Seq::empty(), "updateTime"@, None);
        lemma_lookups_with(Seq::empty(), "createTime"@, None);
        lemma_lookups_with(Seq::empty(), "name"@, None);
        lemma_plain_round_trip(Error::MalformedValue);
        lemma_fields_member_round_trip(self.fields, system_fields);
    }
}

impl Document {
    /// Whether the document may be sent: `MalformedValue` where a field's
    /// name is no field name or its value may not be sent,
    /// `FieldNameReserved` where a name is reserved and `system_fields` does
    /// not permit that.
    pub fn validate(&self, system_fields: bool) -> (r: Result<(), Error>)
        ensures
            r == self@.check(system_fields),
    {
        match write_fields(&self.fields, system_fields) {
            Ok(_) => Ok(()),
            Err(e) => Err(e),
        }
    }

    /// The tree that the document is sent as, with reserved field names
    /// permitted where `system_fields` says so.
    pub fn to_json_with(&self, system_fields: bool) -> (r: Result<Json, Error>)
        ensures
            yields(r, self@.encode(system_fields)),
    {
        let fields = match write_fields(&self.fields, system_fields) {
            Ok(x) => x,
            Err(e) => {
                return Err(e);
            },
        };
        let mut m: Vec<(String, Json)> = Vec::new();
        assert(members_view(m@) =~= Seq::<(Seq<char>, JsonView)>::empty());
        put_opt(&mut m, "fields", fields);
        put_opt(&mut m, "updateTime", string_json(&self.update_time));
        put_opt(&mut m, "createTime", string_json(&self.create_time));
        put_opt(&mut m, "name", string_json(&self.name));
        Ok(Json::Object(m))
    }

    /// An estimate of the document's size: the number of bytes of the text
    /// that it is sent as, or nothing where it cannot be sent even with
    /// reserved names permitted. The estimate may exceed
    /// `MAX_DOCUMENT_BYTES`; it is for the service to refuse such a document.
    pub fn estimated_size(&self) -> (r: Option<usize>)
        ensures
            match r {
                Some(n) => self@.encode(true) is Ok && n == encode_utf8(
                    text(self@.encode(true)->Ok_0),
                ).len(),
                None => self@.encode(true) is Err,
            },
    {
        match self.to_json_with(true) {
            Ok(j) => {
                let s = j.to_text();
                let bytes = s.as_str().as_bytes();
                Some(bytes.len())
            },
            Err(_) => None,
        }
    }
}

impl Wire for Document {
    /// What sending a document gives, reserved field names refused.
    open spec fn encode(v: DocumentView) -> Result<JsonView, Error> {
        v.encode(false)
    }

    open spec fn decode(j: JsonView) -> Result<DocumentView, Error> {
        DocumentView::decode(j)
    }

    /// The tree that the document is sent as: `MalformedValue` where a
    /// field may not be sent, `FieldNameReserved` where a field bears a
    /// reserved name.
    fn to_json(&self) -> (r: Result<Json, Error>) {
        self.to_json_with(false)
    }

    /// The document that a tree stands for, or `MalformedValue`. Reserved
    /// names are accepted: what the service sends is not supplied by the
    /// caller.
    fn from_json(j: &Json) -> (r: Result<Document, Error>) {
        match j {
            Json::Object(_) => {
                let fields = match read_fields(j.member("fields")) {
                    Ok(x) => x,
                    Err(e) => {
                        return Err(e);
                    },
                };
                let update_time = match read_string(j.member("updateTime"), Error::MalformedValue) {
                    Ok(x) => x,
                    Err(e) => {
                        return Err(e);
                    },
                };
                let create_time = match read_string(j.member("createTime"), Error::MalformedValue) {
                    Ok(x) => x,
                    Err(e) => {
                        return Err(e);
                    },
                };
                let name = match read_string(j.member("name"), Error::MalformedValue) {
                    Ok(x) => x,
                    Err(e) => {
                        return Err(e);
                    },
                };
                Ok(
                    Document {
                        fields: fields,
                        update_time: update_time,
                        create_time: create_time,
                        name: name,
                    },
                )
            },
            _ => Err(Error::MalformedValue),
        }
    }

    proof fn lemma_round_trip(v: DocumentView) {
        v.lemma_round_trip(false);
    }

    proof fn lemma_well_formed(v: DocumentView) {
        lemma_trees_well_formed();
        lemma_fields_well_formed(v.fields, false);
    }
}

impl Default for Document {
    /// The document without a name, fields or times.
    fn default() -> (r: Document)
        ensures
            r@ == (DocumentView { fields: None, update_time: None, create_time: None, name: None }),
    {
        Document {
            fields: None,
            update_time: None,
            create_time: None,
            name: None,
        }
    }
}

} // verus!
