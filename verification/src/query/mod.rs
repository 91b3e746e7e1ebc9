//! Structured queries, and the request and the response that carry them.

pub mod filter;
pub mod projection;

pub use filter::{CompositeFilter, Filter, UnaryFilter};
pub use projection::Projection;

use vstd::prelude::*;
use crate::collection::{CollectionSelector, CollectionSelectorView, Cursor, CursorView};
use crate::document::fields::{FieldReference, FieldReferenceView};
use crate::document::{Document, DocumentView};
use crate::error::{opt_view, Error};
use crate::json::{
    i32_json, i32_of, i32_tree, lemma_lookups_with, lemma_plain_round_trip, lookup, members_view,
    put_opt, read_i32, read_string, string_json, string_of, string_tree, with, Json, JsonView,
    Members,
};
use crate::query::filter::FilterView;
use crate::query::projection::ProjectionView;
use crate::transaction::{TransactionOptions, TransactionOptionsView};
use crate::parse::lemma_trees_well_formed;
use crate::wire::{
    lemma_member_round_trip, lemma_members_well_formed, list_member_decode, list_member_encode,
    member_decode, member_encode, opt_seq_view, read_list_member, read_member, write_list_member,
    write_member, Wire,
};

verus! {

/// An order on a field.
#[derive(Debug, Clone, PartialEq)]
pub struct Order {
    /// The field to order by.
    pub field: Option<FieldReference>,
    /// The direction to order by; ascending where none is set.
    pub direction: Option<String>,
}

/// The model of an order.
pub ghost struct OrderView {
    pub field: Option<FieldReferenceView>,
    pub direction: Option<Seq<char>>,
}

impl View for Order {
    type V = OrderView;

    open spec fn view(&self) -> OrderView {
        OrderView { field: opt_view(self.field), direction: opt_view(self.direction) }
    }
}

impl Wire for Order {
    /// The members `field` and `direction`, each where the order holds it.
    open spec fn encode(v: OrderView) -> Result<JsonView, Error> {
        Ok(
            JsonView::Object(
                with(
                    with(Seq::empty(), "field"@, member_encode::<FieldReference>(v.field)->Ok_0),
                    "direction"@,
                    string_tree(v.direction),
                ),
            ),
        )
    }

    open spec fn decode(j: JsonView) -> Result<OrderView, Error> {
        match j {
            JsonView::Object(m) => match member_decode::<FieldReference>(lookup(m, "field"@)) {
                Err(e) => Err(e),
                Ok(field) => match string_of(lookup(m, "direction"@), Error::InvalidQuery) {
                    Err(e) => Err(e),
                    Ok(direction) => Ok(OrderView { field: field, direction: direction }),
                },
            },
            _ => Err(Error::InvalidQuery),
        }
    }

    fn to_json(&self) -> (r: Result<Json, Error>) {
        let field = match write_member(&self.field) {
            Ok(x) => x,
            Err(e) => {
                return Err(e);
            },
        };
        let mut m: Vec<(String, Json)> = Vec::new();
        assert(members_view(m@) =~= Seq::<(Seq<char>, JsonView)>::empty());
        put_opt(&mut m, "field", field);
        put_opt(&mut m, "direction", string_json(&self.direction));
        Ok(Json::Object(m))
    }

    fn from_json(j: &Json) -> (r: Result<Order, Error>) {
        match j {
            Json::Object(_) => {
                let field = match read_member::<FieldReference>(j.member("field")) {
                    Ok(x) => x,
                    Err(e) => {
                        return Err(e);
                    },
                };
                let direction = match read_string(j.member("direction"), Error::InvalidQuery) {
                    Ok(x) => x,
                    Err(e) => {
                        return Err(e);
                    },
                };
                Ok(Order { field: field, direction: direction })
            },
            _ => Err(Error::InvalidQuery),
        }
    }

    proof fn lemma_round_trip(v: OrderView) {
        reveal_strlit("field");
        reveal_strlit("direction");
        assert("field"@.len() == 5 && "direction"@.len() == 9);
        let field = member_encode::<FieldReference>(v.field)->Ok_0;
        lemma_lookups_with(Seq::empty(), "field"@, field);
        lemma_lookups_with(with(Seq::empty(), "field"@, field), "direction"@, string_tree(v.direction));
        lemma_lookups_with(Seq::empty(), "direction"@, None);
        lemma_plain_round_trip(Error::InvalidQuery);
        lemma_member_round_trip::<FieldReference>(Error::InvalidQuery);
    }

    proof fn lemma_well_formed(v: OrderView) {
        lemma_trees_well_formed();
        lemma_members_well_formed::<FieldReference>();
    }
}

/// A query: what it selects from, the filter, the ordering, the projection,
/// where among the results it starts and ends, and how many results it
/// skips and returns.
#[derive(Debug, Clone, PartialEq)]
pub struct StructuredQuery {
    /// The order to apply to the results. The service appends an ordering
    /// by document name, so that the order is stable.
    pub order_by: Option<Vec<Order>>,
    /// A starting point for the results. Its values follow the ordering
    /// that the service applies, the appended one included.
    pub start_at: Option<Cursor>,
    /// An end point for the results.
    pub end_at: Option<Cursor>,
    /// The largest number of results to return; not negative. It applies
    /// after all other constraints.
    pub limit: Option<i32>,
    /// The number of results to skip; not negative. It applies before the
    /// limit.
    pub offset: Option<i32>,
    /// The collections to query.
    pub from: Option<Vec<CollectionSelector>>,
    /// The filter to apply.
    pub where_: Option<Filter>,
    /// The projection to return.
    pub select: Option<Projection>,
}

/// The model of a query.
pub ghost struct StructuredQueryView {
    pub order_by: Option<Seq<OrderView>>,
    pub start_at: Option<CursorView>,
    pub end_at: Option<CursorView>,
    pub limit: Option<i32>,
    pub offset: Option<i32>,
    pub from: Option<Seq<CollectionSelectorView>>,
    pub where_: Option<FilterView>,
    pub select: Option<ProjectionView>,
}

impl View for StructuredQuery {
    type V = StructuredQueryView;

    open spec fn view(&self) -> StructuredQueryView {
        StructuredQueryView {
            order_by: opt_seq_view(self.order_by),
            start_at: opt_view(self.start_at),
            end_at: opt_view(self.end_at),
            limit: self.limit,
            offset: self.offset,
            from: opt_seq_view(self.from),
            where_: opt_view(self.where_),
            select: opt_view(self.select),
        }
    }
}

/// A count that is set and negative.
pub open spec fn negative(n: Option<i32>) -> bool {
    n is Some && n->Some_0 < 0
}

/// The count of an optional member: a 32-bit integer that is not negative.
pub open spec fn count_of(j: Option<JsonView>) -> Result<Option<i32>, Error> {
    match i32_of(j, Error::InvalidQuery) {
        Err(e) => Err(e),
        Ok(n) => if negative(n) {
            Err(Error::InvalidQuery)
        } else {
            Ok(n)
        },
    }
}

impl StructuredQueryView {
    /// The first five members of a query's tree.
    pub open spec fn head(
        self,
        order_by: Option<JsonView>,
        start_at: Option<JsonView>,
        end_at: Option<JsonView>,
    ) -> Members {
        query_members(
            order_by,
            start_at,
            end_at,
            i32_tree(self.limit),
            i32_tree(self.offset),
            None,
            None,
            None,
        )
    }

    /// The members of a query's tree, given its first five members and the
    /// trees of the rest.
    pub open spec fn members(
        head: Members,
        from: Option<JsonView>,
        where_: Option<JsonView>,
        select: Option<JsonView>,
    ) -> Members {
        with(with(with(head, "from"@, from), "where"@, where_), "select"@, select)
    }

    /// What sending the first five members gives. `MalformedValue` where a
    /// cursor holds a value that may not be sent; `InvalidQuery` where the
    /// limit or the offset is negative.
    pub open spec fn encode_head(self) -> Result<Members, Error> {
        match list_member_encode::<Order>(self.order_by) {
            Err(e) => Err(e),
            Ok(order_by) => match member_encode::<Cursor>(self.start_at) {
                Err(e) => Err(e),
                Ok(start_at) => match member_encode::<Cursor>(self.end_at) {
                    Err(e) => Err(e),
                    Ok(end_at) => if negative(self.limit) || negative(self.offset) {
                        Err(Error::InvalidQuery)
                    } else {
                        Ok(self.head(order_by, start_at, end_at))
                    },
                },
            },
        }
    }

    /// What sending a query gives: the members `orderBy`, `startAt`,
    /// `endAt`, `limit`, `offset`, `from`, `where` and `select`, each where
    /// the query holds it, the counts as numbers. The first part that is
    /// refused, in that order, gives the error: `InvalidQuery` for a negative
    /// limit or offset and for a filter that breaks its rules,
    /// `MalformedValue` for a value that may not be sent.
    pub open spec fn encode(self) -> Result<JsonView, Error> {
        match self.encode_head() {
            Err(e) => Err(e),
            Ok(head) => match list_member_encode::<CollectionSelector>(self.from) {
                Err(e) => Err(e),
                Ok(from) => match member_encode::<Filter>(self.where_) {
                    Err(e) => Err(e),
                    Ok(where_) => match member_encode::<Projection>(self.select) {
                        Err(e) => Err(e),
                        Ok(select) => Ok(
                            JsonView::Object(Self::members(head, from, where_, select)),
                        ),
                    },
                },
            },
        }
    }

    /// The query that a tree stands for. A tree that a query could not have
    /// been sent as is refused as the query itself would be.
    pub open spec fn decode(j: JsonView) -> Result<StructuredQueryView, Error> {
        match j {
            JsonView::Object(m) => match list_member_decode::<Order>(
                lookup(m, "orderBy"@),
                Error::InvalidQuery,
            ) {
                Err(e) => Err(e),
                Ok(order_by) => match member_decode::<Cursor>(lookup(m, "startAt"@)) {
                    Err(e) => Err(e),
                    Ok(start_at) => match member_decode::<Cursor>(lookup(m, "endAt"@)) {
                        Err(e) => Err(e),
                        Ok(end_at) => match count_of(lookup(m, "limit"@)) {
                            Err(e) => Err(e),
                            Ok(limit) => match count_of(lookup(m, "offset"@)) {
                                Err(e) => Err(e),
                                Ok(offset) => match list_member_decode::<CollectionSelector>(
                                    lookup(m, "from"@),
                                    Error::InvalidQuery,
                                ) {
                                    Err(e) => Err(e),
                                    Ok(from) => match member_decode::<Filter>(lookup(m, "where"@)) {
                                        Err(e) => Err(e),
                                        Ok(where_) => match member_decode::<Projection>(
                                            lookup(m, "select"@),
                                        ) {
                                            Err(e) => Err(e),
                                            Ok(select) => Ok(
                                                StructuredQueryView {
                                                    order_by: order_by,
                                                    start_at: start_at,
                                                    end_at: end_at,
                                                    limit: limit,
                                                    offset: offset,
                                                    from: from,
                                                    where_: where_,
                                                    select: select,
                                                },
                                            ),
                                        },
                                    },
                                },
                            },
                        },
                    },
                },
            },
            _ => Err(Error::InvalidQuery),
        }
    }
}

fn is_negative(n: &Option<i32>) -> (r: bool)
    ensures
        r == negative(*n),
{
    match n {
        Some(x) => *x < 0,
        None => false,
    }
}

fn read_count(j: Option<&Json>) -> (r: Result<Option<i32>, Error>)
    ensures
        r == count_of(crate::json::view_of(j)),
{
    match read_i32(j, Error::InvalidQuery) {
        Err(e) => Err(e),
        Ok(n) => {
            if is_negative(&n) {
                Err(Error::InvalidQuery)
            } else {
                Ok(n)
            }
        },
    }
}

impl StructuredQuery {
    fn write_head(&self, m: &mut Vec<(String, Json)>) -> (r: Result<(), Error>)
        requires
            old(m)@.len() == 0,
        ensures
            match r {
                Ok(_) => self@.encode_head() == Ok::<Members, Error>(members_view(final(m)@)),
                Err(e) => self@.encode_head() == Err::<Members, Error>(e),
            },
    {
        assert(members_view(m@) =~= Seq::<(Seq<char>, JsonView)>::empty());
        let order_by = match write_list_member(&self.order_by) {
            Ok(x) => x,
            Err(e) => {
                return Err(e);
            },
        };
        let start_at = match write_member(&self.start_at) {
            Ok(x) => x,
            Err(e) => {
                return Err(e);
            },
        };
        let end_at = match write_member(&self.end_at) {
            Ok(x) => x,
            Err(e) => {
                return Err(e);
            },
        };
        if is_negative(&self.limit) || is_negative(&self.offset) {
            return Err(Error::InvalidQuery);
        }
        put_opt(m, "orderBy", order_by);
        put_opt(m, "startAt", start_at);
        put_opt(m, "endAt", end_at);
        put_opt(m, "limit", i32_json(&self.limit));
        put_opt(m, "offset", i32_json(&self.offset));
        Ok(())
    }
}

impl Wire for StructuredQuery {
    open spec fn encode(v: StructuredQueryView) -> Result<JsonView, Error> {
        v.encode()
    }

    open spec fn decode(j: JsonView) -> Result<StructuredQueryView, Error> {
        StructuredQueryView::decode(j)
    }

    /// The tree that the query is sent as, or the error of the first part of
    /// it that is refused.
    fn to_json(&self) -> (r: Result<Json, Error>) {
        let mut m: Vec<(String, Json)> = Vec::new();
        match self.write_head(&mut m) {
            Ok(_) => {},
            Err(e) => {
                return Err(e);
            },
        }
        let from = match write_list_member(&self.from) {
            Ok(x) => x,
            Err(e) => {
                return Err(e);
            },
        };
        let where_ = match write_member(&self.where_) {
            Ok(x) => x,
            Err(e) => {
                return Err(e);
            },
        };
        let select = match write_member(&self.select) {
            Ok(x) => x,
            Err(e) => {
                return Err(e);
            },
        };
        put_opt(&mut m, "from", from);
        put_opt(&mut m, "where", where_);
        put_opt(&mut m, "select", select);
        Ok(Json::Object(m))
    }

    /// The query that a tree stands for, or the error of the first member
    /// that is refused.
    fn from_json(j: &Json) -> (r: Result<StructuredQuery, Error>) {
        match j {
            Json::Object(_) => {
                let order_by = match read_list_member::<Order>(
                    j.member("orderBy"),
                    Error::InvalidQuery,
                ) {
                    Ok(x) => x,
                    Err(e) => {
                        return Err(e);
                    },
                };
                let start_at = match read_member::<Cursor>(j.member("startAt")) {
                    Ok(x) => x,
                    Err(e) => {
                        return Err(e);
                    },
                };
                let end_at = match read_member::<Cursor>(j.member("endAt")) {
                    Ok(x) => x,
                    Err(e) => {
                        return Err(e);
                    },
                };
                let limit = match read_count(j.member("limit")) {
                    Ok(x) => x,
                    Err(e) => {
                        return Err(e);
                    },
                };
                let offset = match read_count(j.member("offset")) {
                    Ok(x) => x,
                    Err(e) => {
                        return Err(e);
                    },
                };
                let from = match read_list_member::<CollectionSelector>(
                    j.member("from"),
                    Error::InvalidQuery,
                ) {
                    Ok(x) => x,
                    Err(e) => {
                        return Err(e);
                    },
                };
                let where_ = match read_member::<Filter>(j.member("where")) {
                    Ok(x) => x,
                    Err(e) => {
                        return Err(e);
                    },
                };
                let select = match read_member::<Projection>(j.member("select")) {
                    Ok(x) => x,
                    Err(e) => {
                        return Err(e);
                    },
                };
                Ok(
                    StructuredQuery {
                        order_by: order_by,
                        start_at: start_at,
                        end_at: end_at,
                        limit: limit,
                        offset: offset,
                        from: from,
                        where_: where_,
                        select: select,
                    },
                )
            },
            _ => Err(Error::InvalidQuery),
        }
    }

    proof fn lemma_round_trip(v: StructuredQueryView) {
        let order_by = list_member_encode::<Order>(v.order_by)->Ok_0;
        let start_at = member_encode::<Cursor>(v.start_at)->Ok_0;
        let end_at = member_encode::<Cursor>(v.end_at)->Ok_0;
        let from = list_member_encode::<CollectionSelector>(v.from)->Ok_0;
        let where_ = member_encode::<Filter>(v.where_)->Ok_0;
        let select = member_encode::<Projection>(v.select)->Ok_0;
        lemma_query_lookups(
            order_by,
            start_at,
            end_at,
            i32_tree(v.limit),
            i32_tree(v.offset),
            from,
            where_,
            select,
        );
        lemma_plain_round_trip(Error::InvalidQuery);
        lemma_member_round_trip::<Order>(Error::InvalidQuery);
        lemma_member_round_trip::<Cursor>(Error::InvalidQuery);
        lemma_member_round_trip::<CollectionSelector>(Error::InvalidQuery);
        lemma_member_round_trip::<Filter>(Error::InvalidQuery);
        lemma_member_round_trip::<Projection>(Error::InvalidQuery);
    }

    proof fn lemma_well_formed(v: StructuredQueryView) {
        lemma_trees_well_formed();
        lemma_members_well_formed::<Order>();
        lemma_members_well_formed::<Cursor>();
        lemma_members_well_formed::<CollectionSelector>();
        lemma_members_well_formed::<Filter>();
        lemma_members_well_formed::<Projection>();
    }
}

/// The members of a query's tree, from the trees of its eight parts.
pub open spec fn query_members(
    order_by: Option<JsonView>,
    start_at: Option<JsonView>,
    end_at: Option<JsonView>,
    limit: Option<JsonView>,
    offset: Option<JsonView>,
    from: Option<JsonView>,
    where_: Option<JsonView>,
    select: Option<JsonView>,
) -> Members {
    with(
        with(
            with(
                with(
                    with(
                        with(
                            with(with(Seq::empty(), "orderBy"@, order_by), "startAt"@, start_at),
                            "endAt"@,
                            end_at,
                        ),
                        "limit"@,
                        limit,
                    ),
                    "offset"@,
                    offset,
                ),
                "from"@,
                from,
            ),
            "where"@,
            where_,
        ),
        "select"@,
        select,
    )
}

/// Each member of a query's tree is found under its own name.
pub proof fn lemma_query_lookups(
    order_by: Option<JsonView>,
    start_at: Option<JsonView>,
    end_at: Option<JsonView>,
    limit: Option<JsonView>,
    offset: Option<JsonView>,
    from: Option<JsonView>,
    where_: Option<JsonView>,
    select: Option<JsonView>,
)
    ensures
        ({
            let m = query_members(order_by, start_at, end_at, limit, offset, from, where_, select);
            &&& lookup(m, "orderBy"@) == order_by
            &&& lookup(m, "startAt"@) == start_at
            &&& lookup(m, "endAt"@) == end_at
            &&& lookup(m, "limit"@) == limit
            &&& lookup(m, "offset"@) == offset
            &&& lookup(m, "from"@) == from
            &&& lookup(m, "where"@) == where_
            &&& lookup(m, "select"@) == select
        }),
{
    lemma_query_keys();
    let m0 = Seq::<(Seq<char>, JsonView)>::empty();
    let m1 = with(m0, "orderBy"@, order_by);
    let m2 = with(m1, "startAt"@, start_at);
    let m3 = with(m2, "endAt"@, end_at);
    let m4 = with(m3, "limit"@, limit);
    let m5 = with(m4, "offset"@, offset);
    let m6 = with(m5, "from"@, from);
    let m7 = with(m6, "where"@, where_);
    lemma_lookups_with(m0, "orderBy"@, order_by);
    lemma_lookups_with(m1, "startAt"@, start_at);
    lemma_lookups_with(m2, "endAt"@, end_at);
    lemma_lookups_with(m3, "limit"@, limit);
    lemma_lookups_with(m4, "offset"@, offset);
    lemma_lookups_with(m5, "from"@, from);
    lemma_lookups_with(m6, "where"@, where_);
    lemma_lookups_with(m7, "select"@, select);
    lemma_lookups_with(m0, "startAt"@, None);
    lemma_lookups_with(m0, "endAt"@, None);
    lemma_lookups_with(m0, "limit"@, None);
    lemma_lookups_with(m0, "offset"@, None);
    lemma_lookups_with(m0, "from"@, None);
    lemma_lookups_with(m0, "where"@, None);
    lemma_lookups_with(m0, "select"@, None);
}

/// The names of a query's members differ from one another.
pub proof fn lemma_query_keys()
    ensures
        "orderBy"@.len() == 7 && "orderBy"@[0] == 'o',
        "startAt"@.len() == 7 && "startAt"@[0] == 's',
        "endAt"@.len() == 5 && "endAt"@[0] == 'e',
        "limit"@.len() == 5 && "limit"@[0] == 'l',
        "offset"@.len() == 6 && "offset"@[0] == 'o',
        "from"@.len() == 4,
        "where"@.len() == 5 && "where"@[0] == 'w',
        "select"@.len() == 6 && "select"@[0] == 's',
{
    reveal_strlit("orderBy");
    reveal_strlit("startAt");
    reveal_strlit("endAt");
    reveal_strlit("limit");
    reveal_strlit("offset");
    reveal_strlit("from");
    reveal_strlit("where");
    reveal_strlit("select");
}

/// The request that runs a query.
#[derive(Debug, Clone, PartialEq)]
pub struct RunQueryRequest {
    /// Starts a new transaction and reads the documents in it.
    pub new_transaction: Option<TransactionOptions>,
    /// Reads the documents in a transaction that was started before.
    pub transaction: Option<String>,
    /// The query to run.
    pub structured_query: Option<StructuredQuery>,
    /// Reads the documents as they were at the given time.
    pub read_time: Option<String>,
}

/// The model of a request.
pub ghost struct RunQueryRequestView {
    pub new_transaction: Option<TransactionOptionsView>,
    pub transaction: Option<Seq<char>>,
    pub structured_query: Option<StructuredQueryView>,
    pub read_time: Option<Seq<char>>,
}

impl View for RunQueryRequest {
    type V = RunQueryRequestView;

    open spec fn view(&self) -> RunQueryRequestView {
        RunQueryRequestView {
            new_transaction: opt_view(self.new_transaction),
            transaction: opt_view(self.transaction),
            structured_query: opt_view(self.structured_query),
            read_time: opt_view(self.read_time),
        }
    }
}

/// The members of the tree of a request or of a response, from the trees of
/// its four parts and their names.
pub open spec fn four_members(
    k1: Seq<char>,
    v1: Option<JsonView>,
    k2: Seq<char>,
    v2: Option<JsonView>,
    k3: Seq<char>,
    v3: Option<JsonView>,
    k4: Seq<char>,
    v4: Option<JsonView>,
) -> Members {
    with(with(with(with(Seq::empty(), k1, v1), k2, v2), k3, v3), k4, v4)
}

/// Each of four members with different names is found under its own name.
pub proof fn lemma_four_lookups(
    k1: Seq<char>,
    v1: Option<JsonView>,
    k2: Seq<char>,
    v2: Option<JsonView>,
    k3: Seq<char>,
    v3: Option<JsonView>,
    k4: Seq<char>,
    v4: Option<JsonView>,
)
    requires
        k1 != k2 && k1 != k3 && k1 != k4 && k2 != k3 && k2 != k4 && k3 != k4,
    ensures
        ({
            let m = four_members(k1, v1, k2, v2, k3, v3, k4, v4);
            &&& lookup(m, k1) == v1
            &&& lookup(m, k2) == v2
            &&& lookup(m, k3) == v3
            &&& lookup(m, k4) == v4
        }),
{
    let m0 = Seq::<(Seq<char>, JsonView)>::empty();
    let m1 = with(m0, k1, v1);
    let m2 = with(m1, k2, v2);
    let m3 = with(m2, k3, v3);
    lemma_lookups_with(m0, k1, v1);
    lemma_lookups_with(m1, k2, v2);
    lemma_lookups_with(m2, k3, v3);
    lemma_lookups_with(m3, k4, v4);
    lemma_lookups_with(m0, k2, None);
    lemma_lookups_with(m0, k3, None);
    lemma_lookups_with(m0, k4, None);
}

impl Wire for RunQueryRequest {
    /// The members `newTransaction`, `transaction`, `structuredQuery` and
    /// `readTime`, each where the request holds it, or the error of the
    /// transaction options or of the query.
    open spec fn encode(v: RunQueryRequestView) -> Result<JsonView, Error> {
        match member_encode::<TransactionOptions>(v.new_transaction) {
            Err(e) => Err(e),
            Ok(new_transaction) => match member_encode::<StructuredQuery>(v.structured_query) {
                Err(e) => Err(e),
                Ok(structured_query) => Ok(
                    JsonView::Object(
                        four_members(
                            "newTransaction"@,
                            new_transaction,
                            "transaction"@,
                            string_tree(v.transaction),
                            "structuredQuery"@,
                            structured_query,
                            "readTime"@,
                            string_tree(v.read_time),
                        ),
                    ),
                ),
            },
        }
    }

    open spec fn decode(j: JsonView) -> Result<RunQueryRequestView, Error> {
        match j {
            JsonView::Object(m) => match member_decode::<TransactionOptions>(
                lookup(m, "newTransaction"@),
            ) {
                Err(e) => Err(e),
                Ok(new_transaction) => match string_of(
                    lookup(m, "transaction"@),
                    Error::InvalidQuery,
                ) {
                    Err(e) => Err(e),
                    Ok(transaction) => match member_decode::<StructuredQuery>(
                        lookup(m, "structuredQuery"@),
                    ) {
                        Err(e) => Err(e),
                        Ok(structured_query) => match string_of(
                            lookup(m, "readTime"@),
                            Error::InvalidQuery,
                        ) {
                            Err(e) => Err(e),
                            Ok(read_time) => Ok(
                                RunQueryRequestView {
                                    new_transaction: new_transaction,
                                    transaction: transaction,
                                    structured_query: structured_query,
                                    read_time: read_time,
                                },
                            ),
                        },
                    },
                },
            },
            _ => Err(Error::InvalidQuery),
        }
    }

    fn to_json(&self) -> (r: Result<Json, Error>) {
        let new_transaction = match write_member(&self.new_transaction) {
            Ok(x) => x,
            Err(e) => {
                return Err(e);
            },
        };
        let structured_query = match write_member(&self.structured_query) {
            Ok(x) => x,
            Err(e) => {
                return Err(e);
            },
        };
        let mut m: Vec<(String, Json)> = Vec::new();
        assert(members_view(m@) =~= Seq::<(Seq<char>, JsonView)>::empty());
        put_opt(&mut m, "newTransaction", new_transaction);
        put_opt(&mut m, "transaction", string_json(&self.transaction));
        put_opt(&mut m, "structuredQuery", structured_query);
        put_opt(&mut m, "readTime", string_json(&self.read_time));
        Ok(Json::Object(m))
    }

    fn from_json(j: &Json) -> (r: Result<RunQueryRequest, Error>) {
        match j {
            Json::Object(_) => {
                let new_transaction = match read_member::<TransactionOptions>(
                    j.member("newTransaction"),
                ) {
                    Ok(x) => x,
                    Err(e) => {
                        return Err(e);
                    },
                };
                let transaction = match read_string(j.member("transaction"), Error::InvalidQuery) {
                    Ok(x) => x,
                    Err(e) => {
                        return Err(e);
                    },
                };
                let structured_query = match read_member::<StructuredQuery>(
                    j.member("structuredQuery"),
                ) {
                    Ok(x) => x,
                    Err(e) => {
                        return Err(e);
                    },
                };
                let read_time = match read_string(j.member("readTime"), Error::InvalidQuery) {
                    Ok(x) => x,
                    Err(e) => {
                        return Err(e);
                    },
                };
                Ok(
                    RunQueryRequest {
                        new_transaction: new_transaction,
                        transaction: transaction,
                        structured_query: structured_query,
                        read_time: read_time,
                    },
                )
            },
            _ => Err(Error::InvalidQuery),
        }
    }

    proof fn lemma_round_trip(v: RunQueryRequestView) {
        reveal_strlit("newTransaction");
        reveal_strlit("transaction");
        reveal_strlit("structuredQuery");
        reveal_strlit("readTime");
        assert("newTransaction"@.len() == 14 && "transaction"@.len() == 11 && "structuredQuery"@.len()
            == 15 && "readTime"@.len() == 8);
        lemma_four_lookups(
            "newTransaction"@,
            member_encode::<TransactionOptions>(v.new_transaction)->Ok_0,
            "transaction"@,
            string_tree(v.transaction),
            "structuredQuery"@,
            member_encode::<StructuredQuery>(v.structured_query)->Ok_0,
            "readTime"@,
            string_tree(v.read_time),
        );
        lemma_plain_round_trip(Error::InvalidQuery);
        lemma_member_round_trip::<TransactionOptions>(Error::InvalidQuery);
        lemma_member_round_trip::<StructuredQuery>(Error::InvalidQuery);
    }

    proof fn lemma_well_formed(v: RunQueryRequestView) {
        lemma_trees_well_formed();
        lemma_members_well_formed::<TransactionOptions>();
        lemma_members_well_formed::<StructuredQuery>();
    }
}

/// One message of the stream that answers a query.
#[derive(Debug, Clone, PartialEq)]
pub struct RunQueryResponse {
    /// The number of results that were skipped, because of an offset,
    /// between the last message and this one.
    pub skipped_results: Option<i32>,
    /// The transaction that the request started.
    pub transaction: Option<String>,
    /// A result of the query.
    pub document: Option<Document>,
    /// The time at which the document was read.
    pub read_time: Option<String>,
}

/// The model of a message of the answer.
pub ghost struct RunQueryResponseView {
    pub skipped_results: Option<i32>,
    pub transaction: Option<Seq<char>>,
    pub document: Option<DocumentView>,
    pub read_time: Option<Seq<char>>,
}

impl View for RunQueryResponse {
    type V = RunQueryResponseView;

    open spec fn view(&self) -> RunQueryResponseView {
        RunQueryResponseView {
            skipped_results: self.skipped_results,
            transaction: opt_view(self.transaction),
            document: opt_view(self.document),
            read_time: opt_view(self.read_time),
        }
    }
}

impl Wire for RunQueryResponse {
    /// The members `skippedResults`, `transaction`, `document` and
    /// `readTime`, each where the message holds it, or the error of the
    /// document.
    open spec fn encode(v: RunQueryResponseView) -> Result<JsonView, Error> {
        match member_encode::<Document>(v.document) {
            Err(e) => Err(e),
            Ok(document) => Ok(
                JsonView::Object(
                    four_members(
                        "skippedResults"@,
                        i32_tree(v.skipped_results),
                        "transaction"@,
                        string_tree(v.transaction),
                        "document"@,
                        document,
                        "readTime"@,
                        string_tree(v.read_time),
                    ),
                ),
            ),
        }
    }

    open spec fn decode(j: JsonView) -> Result<RunQueryResponseView, Error> {
        match j {
            JsonView::Object(m) => match i32_of(lookup(m, "skippedResults"@), Error::MalformedValue) {
                Err(e) => Err(e),
                Ok(skipped_results) => match string_of(
                    lookup(m, "transaction"@),
                    Error::MalformedValue,
                ) {
                    Err(e) => Err(e),
                    Ok(transaction) => match member_decode::<Document>(lookup(m, "document"@)) {
                        Err(e) => Err(e),
                        Ok(document) => match string_of(
                            lookup(m, "readTime"@),
                            Error::MalformedValue,
                        ) {
                            Err(e) => Err(e),
                            Ok(read_time) => Ok(
                                RunQueryResponseView {
                                    skipped_results: skipped_results,
                                    transaction: transaction,
                                    document: document,
                                    read_time: read_time,
                                },
                            ),
                        },
                    },
                },
            },
            _ => Err(Error::MalformedValue),
        }
    }

    fn to_json(&self) -> (r: Result<Json, Error>) {
        let document = match write_member(&self.document) {
            Ok(x) => x,
            Err(e) => {
                return Err(e);
            },
        };
        let mut m: Vec<(String, Json)> = Vec::new();
        assert(members_view(m@) =~= Seq::<(Seq<char>, JsonView)>::empty());
        put_opt(&mut m, "skippedResults", i32_json(&self.skipped_results));
        put_opt(&mut m, "transaction", string_json(&self.transaction));
        put_opt(&mut m, "document", document);
        put_opt(&mut m, "readTime", string_json(&self.read_time));
        Ok(Json::Object(m))
    }

    fn from_json(j: &Json) -> (r: Result<RunQueryResponse, Error>) {
        match j {
            Json::Object(_) => {
                let skipped_results = match read_i32(
                    j.member("skippedResults"),
                    Error::MalformedValue,
                ) {
                    Ok(x) => x,
                    Err(e) => {
                        return Err(e);
                    },
                };
                let transaction = match read_string(j.member("transaction"), Error::MalformedValue) {
                    Ok(x) => x,
                    Err(e) => {
                        return Err(e);
                    },
                };
                let document = match read_member::<Document>(j.member("document")) {
                    Ok(x) => x,
                    Err(e) => {
                        return Err(e);
                    },
                };
                let read_time = match read_string(j.member("readTime"), Error::MalformedValue) {
                    Ok(x) => x,
                    Err(e) => {
                        return Err(e);
                    },
                };
                Ok(
                    RunQueryResponse {
                        skipped_results: skipped_results,
                        transaction: transaction,
                        document: document,
                        read_time: read_time,
                    },
                )
            },
            _ => Err(Error::MalformedValue),
        }
    }

    proof fn lemma_round_trip(v: RunQueryResponseView) {
        reveal_strlit("skippedResults");
        reveal_strlit("transaction");
        reveal_strlit("document");
        reveal_strlit("readTime");
        assert("skippedResults"@.len() == 14 && "transaction"@.len() == 11 && "document"@.len() == 8
            && "readTime"@.len() == 8 && "document"@[0] == 'd' && "readTime"@[0] == 'r');
        lemma_four_lookups(
            "skippedResults"@,
            i32_tree(v.skipped_results),
            "transaction"@,
            string_tree(v.transaction),
            "document"@,
            member_encode::<Document>(v.document)->Ok_0,
            "readTime"@,
            string_tree(v.read_time),
        );
        lemma_plain_round_trip(Error::MalformedValue);
        lemma_member_round_trip::<Document>(Error::MalformedValue);
    }

    proof fn lemma_well_formed(v: RunQueryResponseView) {
        lemma_trees_well_formed();
        lemma_members_well_formed::<Document>();
    }
}

impl Default for Order {
    /// The order that sets nothing.
    fn default() -> (r: Order)
        ensures
            r@ == (OrderView { field: None, direction: None }),
    {
        Order {
            field: None,
            direction: None,
        }
    }
}

impl Default for StructuredQuery {
    /// The query that sets nothing.
    fn default() -> (r: StructuredQuery)
        ensures
            r@ == (StructuredQueryView { order_by: None, start_at: None, end_at: None, limit: None, offset: None, from: None, where_: None, select: None }),
    {
        StructuredQuery {
            order_by: None,
            start_at: None,
            end_at: None,
            limit: None,
            offset: None,
            from: None,
            where_: None,
            select: None,
        }
    }
}

impl Default for RunQueryRequest {
    /// The request that sets nothing.
    fn default() -> (r: RunQueryRequest)
        ensures
            r@ == (RunQueryRequestView { new_transaction: None, transaction: None, structured_query: None, read_time: None }),
    {
        RunQueryRequest {
            new_transaction: None,
            transaction: None,
            structured_query: None,
            read_time: None,
        }
    }
}

impl Default for RunQueryResponse {
    /// The message that holds nothing.
    fn default() -> (r: RunQueryResponse)
        ensures
            r@ == (RunQueryResponseView { skipped_results: None, transaction: None, document: None, read_time: None }),
    {
        RunQueryResponse {
            skipped_results: None,
            transaction: None,
            document: None,
            read_time: None,
        }
    }
}

} // verus!
