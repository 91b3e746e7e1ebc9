//! The projection of a document's fields that a query returns.

use vstd::prelude::*;
use crate::document::fields::{FieldReference, FieldReferenceView};
use crate::error::Error;
use crate::json::{lemma_lookups_with, lookup, members_view, put_opt, with, Json, JsonView};
use crate::parse::lemma_trees_well_formed;
use crate::wire::{
    lemma_members_well_formed,
    lemma_member_round_trip, list_member_decode, list_member_encode, opt_seq_view,
    read_list_member, write_list_member, Wire,
};

verus! {

/// The fields that a query returns. Without fields, or with an empty list,
/// all fields are returned.
#[derive(Debug, Clone, PartialEq)]
pub struct Projection {
    /// The fields to return.
    pub fields: Option<Vec<FieldReference>>,
}

/// The model of a projection.
pub ghost struct ProjectionView {
    pub fields: Option<Seq<FieldReferenceView>>,
}

impl View for Projection {
    type V = ProjectionView;

    open spec fn view(&self) -> ProjectionView {
        ProjectionView { fields: opt_seq_view(self.fields) }
    }
}

impl Wire for Projection {
    /// The member `fields`, where a list is set.
    open spec fn encode(v: ProjectionView) -> Result<JsonView, Error> {
        match list_member_encode::<FieldReference>(v.fields) {
            Err(e) => Err(e),
            Ok(fields) => Ok(JsonView::Object(with(Seq::empty(), "fields"@, fields))),
        }
    }

    open spec fn decode(j: JsonView) -> Result<ProjectionView, Error> {
        match j {
            JsonView::Object(m) => match list_member_decode::<FieldReference>(
                lookup(m, "fields"@),
                Error::InvalidQuery,
            ) {
                Err(e) => Err(e),
                Ok(fields) => Ok(ProjectionView { fields: fields }),
            },
            _ => Err(Error::InvalidQuery),
        }
    }

    fn to_json(&self) -> (r: Result<Json, Error>) {
        let fields = match write_list_member(&self.fields) {
            Ok(x) => x,
            Err(e) => {
                return Err(e);
            },
        };
        let mut m: Vec<(String, Json)> = Vec::new();
        assert(members_view(m@) =~= Seq::<(Seq<char>, JsonView)>::empty());
        put_opt(&mut m, "fields", fields);
        Ok(Json::Object(m))
    }

    fn from_json(j: &Json) -> (r: Result<Projection, Error>) {
        match j {
            Json::Object(_) => {
                match read_list_member(j.member("fields"), Error::InvalidQuery) {
                    Ok(x) => Ok(Projection { fields: x }),
                    Err(e) => Err(e),
                }
            },
            _ => Err(Error::InvalidQuery),
        }
    }

    proof fn lemma_round_trip(v: ProjectionView) {
        let fields = list_member_encode::<FieldReference>(v.fields)->Ok_0;
        lemma_lookups_with(Seq::empty(), "fields"@, fields);
        lemma_member_round_trip::<FieldReference>(Error::InvalidQuery);
    }

    proof fn lemma_well_formed(v: ProjectionView) {
        lemma_trees_well_formed();
        lemma_members_well_formed::<FieldReference>();
    }
}

impl Default for Projection {
    /// The projection without a list of fields.
    fn default() -> (r: Projection)
        ensures
            r@ == (ProjectionView { fields: None }),
    {
        Projection {
            fields: None,
        }
    }
}

} // verus!
