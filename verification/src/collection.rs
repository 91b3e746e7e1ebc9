//! What a query selects from, and where among its results it starts or ends.

use vstd::prelude::*;
use crate::error::{opt_view, Error};
use crate::json::{
    bool_json, bool_of, bool_tree, lemma_lookups_with, lemma_plain_round_trip, lookup,
    members_view, put_opt, read_bool, read_string, string_json, string_of, string_tree, with, Json,
    JsonView, Members,
};
use crate::value::{Value, ValueView};
use crate::parse::lemma_trees_well_formed;
use crate::wire::{
    lemma_members_well_formed,
    lemma_member_round_trip, list_member_decode, list_member_encode, opt_seq_view,
    read_list_member, write_list_member, Wire,
};

verus! {

/// A selection of a collection, such as `messages as m1`.
#[derive(Debug, Clone, PartialEq)]
pub struct CollectionSelector {
    /// When false, only the collections that are immediate children of the
    /// parent that the request names; when true, all that descend from it.
    pub all_descendants: Option<bool>,
    /// The collection's identifier; when set, only collections with this
    /// identifier are selected.
    pub collection_id: Option<String>,
}

/// The model of a selector.
pub ghost struct CollectionSelectorView {
    pub all_descendants: Option<bool>,
    pub collection_id: Option<Seq<char>>,
}

impl View for CollectionSelector {
    type V = CollectionSelectorView;

    open spec fn view(&self) -> CollectionSelectorView {
        CollectionSelectorView {
            all_descendants: self.all_descendants,
            collection_id: opt_view(self.collection_id),
        }
    }
}

impl CollectionSelectorView {
    /// The tree of a selector: the members `allDescendants` and
    /// `collectionId`, each where the selector holds it.
    pub open spec fn tree(self) -> JsonView {
        JsonView::Object(
            with(
                with(Seq::empty(), "allDescendants"@, bool_tree(self.all_descendants)),
                "collectionId"@,
                string_tree(self.collection_id),
            ),
        )
    }

    /// The selector that a tree stands for, or `InvalidQuery`.
    pub open spec fn decode(j: JsonView) -> Result<CollectionSelectorView, Error> {
        match j {
            JsonView::Object(m) => match bool_of(lookup(m, "allDescendants"@), Error::InvalidQuery) {
                Err(e) => Err(e),
                Ok(all_descendants) => match string_of(
                    lookup(m, "collectionId"@),
                    Error::InvalidQuery,
                ) {
                    Err(e) => Err(e),
                    Ok(collection_id) => Ok(
                        CollectionSelectorView {
                            all_descendants: all_descendants,
                            collection_id: collection_id,
                        },
                    ),
                },
            },
            _ => Err(Error::InvalidQuery),
        }
    }

    /// Round trip: a selector is read back from its tree.
    pub proof fn lemma_round_trip(self)
        ensures
            Self::decode(self.tree()) == Ok::<CollectionSelectorView, Error>(self),
    {
        reveal_strlit("allDescendants");
        reveal_strlit("collectionId");
        assert("allDescendants"@.len() == 14 && "collectionId"@.len() == 12);
        let first = with(Seq::empty(), "allDescendants"@, bool_tree(self.all_descendants));
        lemma_lookups_with(Seq::empty(), "allDescendants"@, bool_tree(self.all_descendants));
        lemma_lookups_with(first, "collectionId"@, string_tree(self.collection_id));
        lemma_lookups_with(Seq::empty(), "collectionId"@, None);
        lemma_plain_round_trip(Error::InvalidQuery);
    }
}

impl Wire for CollectionSelector {
    open spec fn encode(v: CollectionSelectorView) -> Result<JsonView, Error> {
        Ok(v.tree())
    }

    open spec fn decode(j: JsonView) -> Result<CollectionSelectorView, Error> {
        CollectionSelectorView::decode(j)
    }

    /// The tree that the selector is sent as.
    fn to_json(&self) -> (r: Result<Json, Error>) {
        let mut m: Vec<(String, Json)> = Vec::new();
        assert(members_view(m@) =~= Seq::<(Seq<char>, JsonView)>::empty());
        put_opt(&mut m, "allDescendants", bool_json(&self.all_descendants));
        put_opt(&mut m, "collectionId", string_json(&self.collection_id));
        Ok(Json::Object(m))
    }

    /// The selector that a tree stands for, or `InvalidQuery` where the tree
    /// is no object or a member is of the wrong kind.
    fn from_json(j: &Json) -> (r: Result<CollectionSelector, Error>) {
        match j {
            Json::Object(_) => {
                let all_descendants = match read_bool(
                    j.member("allDescendants"),
                    Error::InvalidQuery,
                ) {
                    Ok(x) => x,
                    Err(e) => {
                        return Err(e);
                    },
                };
                let collection_id = match read_string(
                    j.member("collectionId"),
                    Error::InvalidQuery,
                ) {
                    Ok(x) => x,
                    Err(e) => {
                        return Err(e);
                    },
                };
                Ok(
                    CollectionSelector {
                        all_descendants: all_descendants,
                        collection_id: collection_id,
                    },
                )
            },
            _ => Err(Error::InvalidQuery),
        }
    }

    proof fn lemma_round_trip(v: CollectionSelectorView) {
        v.lemma_round_trip();
    }

    proof fn lemma_well_formed(v: CollectionSelectorView) {
        lemma_trees_well_formed();
    }
}

/// A position among the results of a query: the values of a sort key, in the
/// order of the query's ordering, and whether the position is just before
/// them or just after.
#[derive(Debug, Clone, PartialEq)]
pub struct Cursor {
    /// The values of the position; there may be fewer than the ordering has
    /// fields.
    pub values: Option<Vec<Value>>,
    /// Whether the position is just before the values.
    pub before: Option<bool>,
}

/// The model of a cursor.
pub ghost struct CursorView {
    pub values: Option<Seq<ValueView>>,
    pub before: Option<bool>,
}

impl View for Cursor {
    type V = CursorView;

    open spec fn view(&self) -> CursorView {
        CursorView { values: opt_seq_view(self.values), before: self.before }
    }
}

impl CursorView {
    /// The members of a cursor's tree, given the tree of its values.
    pub open spec fn members(self, values: Option<JsonView>) -> Members {
        with(with(Seq::empty(), "values"@, values), "before"@, bool_tree(self.before))
    }

    /// What sending a cursor gives: the members `values` and `before`, each
    /// where the cursor holds it, or `MalformedValue` where one of the
    /// values may not be sent.
    pub open spec fn encode(self) -> Result<JsonView, Error> {
        match list_member_encode::<Value>(self.values) {
            Err(e) => Err(e),
            Ok(values) => Ok(JsonView::Object(self.members(values))),
        }
    }

    /// The cursor that a tree stands for.
    pub open spec fn decode(j: JsonView) -> Result<CursorView, Error> {
        match j {
            JsonView::Object(m) => match list_member_decode::<Value>(
                lookup(m, "values"@),
                Error::InvalidQuery,
            ) {
                Err(e) => Err(e),
                Ok(values) => match bool_of(lookup(m, "before"@), Error::InvalidQuery) {
                    Err(e) => Err(e),
                    Ok(before) => Ok(CursorView { values: values, before: before }),
                },
            },
            _ => Err(Error::InvalidQuery),
        }
    }
}

impl Wire for Cursor {
    open spec fn encode(v: CursorView) -> Result<JsonView, Error> {
        v.encode()
    }

    open spec fn decode(j: JsonView) -> Result<CursorView, Error> {
        CursorView::decode(j)
    }

    /// The tree that the cursor is sent as.
    fn to_json(&self) -> (r: Result<Json, Error>) {
        let values = match write_list_member(&self.values) {
            Ok(x) => x,
            Err(e) => {
                return Err(e);
            },
        };
        let mut m: Vec<(String, Json)> = Vec::new();
        assert(members_view(m@) =~= Seq::<(Seq<char>, JsonView)>::empty());
        put_opt(&mut m, "values", values);
        put_opt(&mut m, "before", bool_json(&self.before));
        Ok(Json::Object(m))
    }

    /// The cursor that a tree stands for: `InvalidQuery` where the tree is no
    /// object or a member is of the wrong kind, `MalformedValue` where one of
    /// the values is refused.
    fn from_json(j: &Json) -> (r: Result<Cursor, Error>) {
        match j {
            Json::Object(_) => {
                let values = match read_list_member(j.member("values"), Error::InvalidQuery) {
                    Ok(x) => x,
                    Err(e) => {
                        return Err(e);
                    },
                };
                let before = match read_bool(j.member("before"), Error::InvalidQuery) {
                    Ok(x) => x,
                    Err(e) => {
                        return Err(e);
                    },
                };
                Ok(Cursor { values: values, before: before })
            },
            _ => Err(Error::InvalidQuery),
        }
    }

    proof fn lemma_round_trip(v: CursorView) {
        reveal_strlit("values");
        reveal_strlit("before");
        assert("values"@[0] == 'v' && "before"@[0] == 'b');
        let values = list_member_encode::<Value>(v.values)->Ok_0;
        lemma_lookups_with(Seq::empty(), "values"@, values);
        lemma_lookups_with(with(Seq::empty(), "values"@, values), "before"@, bool_tree(v.before));
        lemma_lookups_with(Seq::empty(), "before"@, None);
        lemma_plain_round_trip(Error::InvalidQuery);
        lemma_member_round_trip::<Value>(Error::InvalidQuery);
    }

    proof fn lemma_well_formed(v: CursorView) {
        lemma_trees_well_formed();
        lemma_members_well_formed::<Value>();
    }
}

impl Default for CollectionSelector {
    /// The selector that sets nothing.
    fn default() -> (r: CollectionSelector)
        ensures
            r@ == (CollectionSelectorView { all_descendants: None, collection_id: None }),
    {
        CollectionSelector {
            all_descendants: None,
            collection_id: None,
        }
    }
}

impl Default for Cursor {
    /// The cursor that sets nothing.
    fn default() -> (r: Cursor)
        ensures
            r@ == (CursorView { values: None, before: None }),
    {
        Cursor {
            values: None,
            before: None,
        }
    }
}

} // verus!
