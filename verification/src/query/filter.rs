//! Filters: on one field, on one field with one operand, or composed of
//! other filters.

use vstd::prelude::*;
use crate::document::fields::{
    copy_field, copy_text, FieldFilter, FieldFilterView, FieldReference, FieldReferenceView,
};
use crate::error::{opt_view, yields, Error};
use crate::json::{
    find, jsons_view, lemma_lookups_with, lemma_plain_round_trip, lemma_positions_with,
    lemma_single_lookups, lookup, members_view, position, put, put_opt, read_string,
    single, single_member, string_json, string_of, string_tree, with, Json, JsonView,
};
use crate::parse::{lemma_trees_well_formed, well_formed};
use crate::wire::{
    lemma_member_round_trip, lemma_members_well_formed, member_decode, member_encode, read_member,
    write_member, Wire,
};

verus! {

/// A filter with a single operand.
#[derive(Debug, PartialEq)]
pub struct UnaryFilter {
    /// The field to which the operator is applied.
    pub field: Option<FieldReference>,
    /// The unary operator to apply.
    pub op: Option<String>,
}

/// The model of a filter with one operand.
pub ghost struct UnaryFilterView {
    pub field: Option<FieldReferenceView>,
    pub op: Option<Seq<char>>,
}

impl View for UnaryFilter {
    type V = UnaryFilterView;

    open spec fn view(&self) -> UnaryFilterView {
        UnaryFilterView { field: opt_view(self.field), op: opt_view(self.op) }
    }
}

impl Wire for UnaryFilter {
    /// The members `field` and `op`, each where the filter holds it.
    open spec fn encode(v: UnaryFilterView) -> Result<JsonView, Error> {
        Ok(
            JsonView::Object(
                with(
                    with(Seq::empty(), "field"@, member_encode::<FieldReference>(v.field)->Ok_0),
                    "op"@,
                    string_tree(v.op),
                ),
            ),
        )
    }

    open spec fn decode(j: JsonView) -> Result<UnaryFilterView, Error> {
        match j {
            JsonView::Object(m) => match member_decode::<FieldReference>(lookup(m, "field"@)) {
                Err(e) => Err(e),
                Ok(field) => match string_of(lookup(m, "op"@), Error::InvalidQuery) {
                    Err(e) => Err(e),
                    Ok(op) => Ok(UnaryFilterView { field: field, op: op }),
                },
            },
            _ => Err(Error::InvalidQuery),
        }
    }

    fn to_json(&self) -> (r: Result<Json, Error>) {
        let field = match write_member(&self.field) {
            Ok(x) => x,
            Err(e) => {
                return Err(e);
            },
        };
        let mut m: Vec<(String, Json)> = Vec::new();
        assert(members_view(m@) =~= Seq::<(Seq<char>, JsonView)>::empty());
        put_opt(&mut m, "field", field);
        put_opt(&mut m, "op", string_json(&self.op));
        Ok(Json::Object(m))
    }

    fn from_json(j: &Json) -> (r: Result<UnaryFilter, Error>) {
        match j {
            Json::Object(_) => {
                let field = match read_member::<FieldReference>(j.member("field")) {
                    Ok(x) => x,
                    Err(e) => {
                        return Err(e);
                    },
                };
                let op = match read_string(j.member("op"), Error::InvalidQuery) {
                    Ok(x) => x,
                    Err(e) => {
                        return Err(e);
                    },
                };
                Ok(UnaryFilter { field: field, op: op })
            },
            _ => Err(Error::InvalidQuery),
        }
    }

    proof fn lemma_round_trip(v: UnaryFilterView) {
        reveal_strlit("field");
        reveal_strlit("op");
        assert("field"@.len() == 5 && "op"@.len() == 2);
        let field = member_encode::<FieldReference>(v.field)->Ok_0;
        lemma_lookups_with(Seq::empty(), "field"@, field);
        lemma_lookups_with(with(Seq::empty(), "field"@, field), "op"@, string_tree(v.op));
        lemma_lookups_with(Seq::empty(), "op"@, None);
        lemma_plain_round_trip(Error::InvalidQuery);
        lemma_member_round_trip::<FieldReference>(Error::InvalidQuery);
    }

    proof fn lemma_well_formed(v: UnaryFilterView) {
        lemma_trees_well_formed();
        lemma_members_well_formed::<FieldReference>();
    }
}

/// A filter: exactly one of the three kinds.
#[derive(Debug, PartialEq)]
pub struct Filter {
    /// A filter composed of other filters.
    pub composite_filter: Option<CompositeFilter>,
    /// A filter on a field of the document.
    pub field_filter: Option<FieldFilter>,
    /// A filter with exactly one operand.
    pub unary_filter: Option<UnaryFilter>,
}

/// A filter that merges other filters with an operator.
#[derive(Debug, PartialEq)]
pub struct CompositeFilter {
    /// The filters to combine; there has to be at least one.
    pub filters: Option<Vec<Filter>>,
    /// The operator that combines them.
    pub op: Option<String>,
}

/// The model of a filter.
pub ghost struct FilterView {
    pub composite_filter: Option<CompositeFilterView>,
    pub field_filter: Option<FieldFilterView>,
    pub unary_filter: Option<UnaryFilterView>,
}

/// The model of a composite filter.
pub ghost struct CompositeFilterView {
    pub filters: Option<Seq<FilterView>>,
    pub op: Option<Seq<char>>,
}

/// The model of a filter.
pub open spec fn filter_view(f: Filter) -> FilterView
    decreases f,
{
    FilterView {
        composite_filter: match f.composite_filter {
            Some(c) => Some(composite_view(c)),
            None => None,
        },
        field_filter: opt_view(f.field_filter),
        unary_filter: opt_view(f.unary_filter),
    }
}

/// The model of a composite filter.
pub open spec fn composite_view(c: CompositeFilter) -> CompositeFilterView
    decreases c,
{
    CompositeFilterView {
        filters: match c.filters {
            Some(v) => Some(filters_view(v@)),
            None => None,
        },
        op: opt_view(c.op),
    }
}

/// The models of the filters of a list.
pub open spec fn filters_view(s: Seq<Filter>) -> Seq<FilterView>
    decreases s,
{
    Seq::new(
        s.len(),
        |i: int|
            if 0 <= i < s.len() {
                filter_view(s[i])
            } else {
                FilterView { composite_filter: None, field_filter: None, unary_filter: None }
            },
    )
}

impl View for Filter {
    type V = FilterView;

    open spec fn view(&self) -> FilterView {
        filter_view(*self)
    }
}

impl View for CompositeFilter {
    type V = CompositeFilterView;

    open spec fn view(&self) -> CompositeFilterView {
        composite_view(*self)
    }
}

/// How many of the three kinds a filter sets.
pub open spec fn kinds(f: FilterView) -> int {
    (if f.composite_filter is Some {
        1int
    } else {
        0int
    }) + (if f.field_filter is Some {
        1int
    } else {
        0int
    }) + (if f.unary_filter is Some {
        1int
    } else {
        0int
    })
}

/// What sending a filter gives: an object with one member, named after the
/// kind of filter. `InvalidQuery` where the filter sets no kind or several,
/// or where a composite filter inside it has no operands; `MalformedValue`
/// where a value inside it may not be sent.
pub open spec fn filter_encode(f: FilterView) -> Result<JsonView, Error>
    decreases f,
{
    if kinds(f) != 1 {
        Err(Error::InvalidQuery)
    } else {
        match f.composite_filter {
            Some(c) => match composite_encode(c) {
                Err(e) => Err(e),
                Ok(j) => Ok(single("compositeFilter"@, j)),
            },
            None => match f.field_filter {
                Some(x) => match FieldFilter::encode(x) {
                    Err(e) => Err(e),
                    Ok(j) => Ok(single("fieldFilter"@, j)),
                },
                None => match f.unary_filter {
                    Some(u) => match UnaryFilter::encode(u) {
                        Err(e) => Err(e),
                        Ok(j) => Ok(single("unaryFilter"@, j)),
                    },
                    None => Err(Error::InvalidQuery),
                },
            },
        }
    }
}

/// What sending a composite filter gives: the members `filters` and `op`.
/// `InvalidQuery` where it has no list of filters or an empty one.
pub open spec fn composite_encode(c: CompositeFilterView) -> Result<JsonView, Error>
    decreases c,
{
    match c.filters {
        None => Err(Error::InvalidQuery),
        Some(fs) => if fs.len() == 0 {
            Err(Error::InvalidQuery)
        } else {
            match filters_encode(fs, fs.len() as int) {
                Err(e) => Err(e),
                Ok(trees) => Ok(
                    JsonView::Object(
                        with(
                            with(Seq::empty(), "filters"@, Some(JsonView::Array(trees))),
                            "op"@,
                            string_tree(c.op),
                        ),
                    ),
                ),
            }
        },
    }
}

/// The trees of the first `n` filters of a list, or the first error among
/// them.
pub open spec fn filters_encode(s: Seq<FilterView>, n: int) -> Result<Seq<JsonView>, Error>
    decreases s, n,
{
    if n <= 0 || n > s.len() {
        Ok(Seq::empty())
    } else {
        match filters_encode(s, n - 1) {
            Err(e) => Err(e),
            Ok(before) => match filter_encode(s[n - 1]) {
                Err(e) => Err(e),
                Ok(j) => Ok(before.push(j)),
            },
        }
    }
}

/// The filter that a tree stands for. A tree that names no kind of filter or
/// several is refused as the filter itself would be.
pub open spec fn filter_decode(j: JsonView) -> Result<FilterView, Error>
    decreases j,
{
    match j {
        JsonView::Object(m) => {
            let i = position(m, "compositeFilter"@);
            let composite: Result<Option<CompositeFilterView>, Error> = if 0 <= i < m.len() {
                match composite_decode(m[i].1) {
                    Ok(c) => Ok(Some(c)),
                    Err(e) => Err(e),
                }
            } else {
                Ok(None)
            };
            match composite {
                Err(e) => Err(e),
                Ok(c) => match member_decode::<FieldFilter>(lookup(m, "fieldFilter"@)) {
                    Err(e) => Err(e),
                    Ok(x) => match member_decode::<UnaryFilter>(lookup(m, "unaryFilter"@)) {
                        Err(e) => Err(e),
                        Ok(u) => {
                            let f = FilterView {
                                composite_filter: c,
                                field_filter: x,
                                unary_filter: u,
                            };
                            if kinds(f) != 1 {
                                Err(Error::InvalidQuery)
                            } else {
                                Ok(f)
                            }
                        },
                    },
                },
            }
        },
        _ => Err(Error::InvalidQuery),
    }
}

/// The composite filter that a tree stands for.
pub open spec fn composite_decode(j: JsonView) -> Result<CompositeFilterView, Error>
    decreases j,
{
    match j {
        JsonView::Object(m) => {
            let i = position(m, "filters"@);
            let filters: Result<Option<Seq<FilterView>>, Error> = if 0 <= i < m.len() {
                match m[i].1 {
                    JsonView::Array(a) => match filters_decode(a, a.len() as int) {
                        Ok(s) => Ok(Some(s)),
                        Err(e) => Err(e),
                    },
                    _ => Err(Error::InvalidQuery),
                }
            } else {
                Ok(None)
            };
            match filters {
                Err(e) => Err(e),
                Ok(fs) => match string_of(lookup(m, "op"@), Error::InvalidQuery) {
                    Err(e) => Err(e),
                    Ok(op) => if fs is None || fs->Some_0.len() == 0 {
                        Err(Error::InvalidQuery)
                    } else {
                        Ok(CompositeFilterView { filters: fs, op: op })
                    },
                },
            }
        },
        _ => Err(Error::InvalidQuery),
    }
}

/// The filters that the first `n` trees of a list stand for, or the first
/// error among them.
pub open spec fn filters_decode(a: Seq<JsonView>, n: int) -> Result<Seq<FilterView>, Error>
    decreases a, n,
{
    if n <= 0 || n > a.len() {
        Ok(Seq::empty())
    } else {
        match filters_decode(a, n - 1) {
            Err(e) => Err(e),
            Ok(before) => match filter_decode(a[n - 1]) {
                Err(e) => Err(e),
                Ok(f) => Ok(before.push(f)),
            },
        }
    }
}

/// Once the filters of a list have given an error, more of them give the
/// same.
pub proof fn lemma_filters_encode_error(s: Seq<FilterView>, n: int, k: int)
    requires
        0 <= n <= k <= s.len(),
        filters_encode(s, n) is Err,
    ensures
        filters_encode(s, k) == filters_encode(s, n),
    decreases k - n,
{
    if n < k {
        lemma_filters_encode_error(s, n, k - 1);
    }
}

/// Once the trees of a list have given an error, more of them give the same.
pub proof fn lemma_filters_decode_error(a: Seq<JsonView>, n: int, k: int)
    requires
        0 <= n <= k <= a.len(),
        filters_decode(a, n) is Err,
    ensures
        filters_decode(a, k) == filters_decode(a, n),
    decreases k - n,
{
    if n < k {
        lemma_filters_decode_error(a, n, k - 1);
    }
}

fn write_filter(f: &Filter) -> (r: Result<Json, Error>)
    ensures
        yields(r, filter_encode(f@)),
    decreases f,
{
    let set: usize = (if f.composite_filter.is_some() {
        1usize
    } else {
        0usize
    }) + (if f.field_filter.is_some() {
        1usize
    } else {
        0usize
    }) + (if f.unary_filter.is_some() {
        1usize
    } else {
        0usize
    });
    if set != 1 {
        return Err(Error::InvalidQuery);
    }
    match &f.composite_filter {
        Some(c) => {
            return match write_composite(c) {
                Ok(j) => Ok(single_member("compositeFilter", j)),
                Err(e) => Err(e),
            };
        },
        None => {},
    }
    match &f.field_filter {
        Some(x) => {
            return match x.to_json() {
                Ok(j) => Ok(single_member("fieldFilter", j)),
                Err(e) => Err(e),
            };
        },
        None => {},
    }
    match &f.unary_filter {
        Some(u) => {
            return match u.to_json() {
                Ok(j) => Ok(single_member("unaryFilter", j)),
                Err(e) => Err(e),
            };
        },
        None => {},
    }
    Err(Error::InvalidQuery)
}

fn write_composite(c: &CompositeFilter) -> (r: Result<Json, Error>)
    ensures
        yields(r, composite_encode(c@)),
    decreases c,
{
    match &c.filters {
        None => Err(Error::InvalidQuery),
        Some(fs) => {
            if fs.len() == 0 {
                return Err(Error::InvalidQuery);
            }
            match write_filters(fs) {
                Err(e) => Err(e),
                Ok(trees) => {
                    let mut m: Vec<(String, Json)> = Vec::new();
                    assert(members_view(m@) =~= Seq::<(Seq<char>, JsonView)>::empty());
                    put(&mut m, "filters", Json::Array(trees));
                    put_opt(&mut m, "op", string_json(&c.op));
                    Ok(Json::Object(m))
                },
            }
        },
    }
}

fn write_filters(v: &Vec<Filter>) -> (r: Result<Vec<Json>, Error>)
    ensures
        match r {
            Ok(trees) => filters_encode(filters_view(v@), v.len() as int) == Ok::<
                Seq<JsonView>,
                Error,
            >(jsons_view(trees@)),
            Err(e) => filters_encode(filters_view(v@), v.len() as int) == Err::<
                Seq<JsonView>,
                Error,
            >(e),
        },
    decreases v,
{
    let mut trees: Vec<Json> = Vec::new();
    let mut i: usize = 0;
    assert(jsons_view(trees@) =~= Seq::<JsonView>::empty());
    while i < v.len()
        invariant
            i <= v.len(),
            filters_encode(filters_view(v@), i as int) == Ok::<Seq<JsonView>, Error>(
                jsons_view(trees@),
            ),
        decreases v.len() - i,
    {
        let ghost before = jsons_view(trees@);
        match write_filter(&v[i]) {
            Ok(j) => {
                trees.push(j);
                assert(jsons_view(trees@) =~= before.push(j@));
            },
            Err(e) => {
                proof {
                    lemma_filters_encode_error(filters_view(v@), i + 1, v.len() as int);
                }
                return Err(e);
            },
        }
        i = i + 1;
    }
    Ok(trees)
}

fn read_filter(j: &Json) -> (r: Result<Filter, Error>)
    ensures
        yields(r, filter_decode(j@)),
    decreases j,
{
    match j {
        Json::Object(m) => {
            let composite = match find(m, "compositeFilter") {
                Some(i) => match read_composite(&m[i].1) {
                    Ok(c) => Some(c),
                    Err(e) => {
                        return Err(e);
                    },
                },
                None => None,
            };
            let field = match read_member::<FieldFilter>(j.member("fieldFilter")) {
                Ok(x) => x,
                Err(e) => {
                    return Err(e);
                },
            };
            let unary = match read_member::<UnaryFilter>(j.member("unaryFilter")) {
                Ok(x) => x,
                Err(e) => {
                    return Err(e);
                },
            };
            let set: usize = (if composite.is_some() {
                1usize
            } else {
                0usize
            }) + (if field.is_some() {
                1usize
            } else {
                0usize
            }) + (if unary.is_some() {
                1usize
            } else {
                0usize
            });
            if set != 1 {
                return Err(Error::InvalidQuery);
            }
            Ok(Filter { composite_filter: composite, field_filter: field, unary_filter: unary })
        },
        _ => Err(Error::InvalidQuery),
    }
}

fn read_composite(j: &Json) -> (r: Result<CompositeFilter, Error>)
    ensures
        yields(r, composite_decode(j@)),
    decreases j,
{
    match j {
        Json::Object(m) => {
            let filters = match find(m, "filters") {
                Some(i) => match &m[i].1 {
                    Json::Array(a) => match read_filters(a) {
                        Ok(v) => Some(v),
                        Err(e) => {
                            return Err(e);
                        },
                    },
                    _ => {
                        return Err(Error::InvalidQuery);
                    },
                },
                None => None,
            };
            let op = match read_string(j.member("op"), Error::InvalidQuery) {
                Ok(x) => x,
                Err(e) => {
                    return Err(e);
                },
            };
            let empty = match &filters {
                Some(v) => v.len() == 0,
                None => true,
            };
            if empty {
                return Err(Error::InvalidQuery);
            }
            Ok(CompositeFilter { filters: filters, op: op })
        },
        _ => Err(Error::InvalidQuery),
    }
}

fn read_filters(a: &Vec<Json>) -> (r: Result<Vec<Filter>, Error>)
    ensures
        match r {
            Ok(v) => filters_decode(jsons_view(a@), a.len() as int) == Ok::<Seq<FilterView>, Error>(
                filters_view(v@),
            ),
            Err(e) => filters_decode(jsons_view(a@), a.len() as int) == Err::<
                Seq<FilterView>,
                Error,
            >(e),
        },
    decreases a,
{
    let mut filters: Vec<Filter> = Vec::new();
    let mut i: usize = 0;
    assert(filters_view(filters@) =~= Seq::<FilterView>::empty());
    while i < a.len()
        invariant
            i <= a.len(),
            filters_decode(jsons_view(a@), i as int) == Ok::<Seq<FilterView>, Error>(
                filters_view(filters@),
            ),
        decreases a.len() - i,
    {
        let ghost before = filters_view(filters@);
        match read_filter(&a[i]) {
            Ok(f) => {
                filters.push(f);
                assert(filters_view(filters@) =~= before.push(f@));
            },
            Err(e) => {
                proof {
                    lemma_filters_decode_error(jsons_view(a@), i + 1, a.len() as int);
                }
                return Err(e);
            },
        }
        i = i + 1;
    }
    Ok(filters)
}

/// The trees of `n` filters are `n` trees, each the tree of its filter.
pub proof fn lemma_filters_encode_len(s: Seq<FilterView>, n: int)
    requires
        0 <= n <= s.len(),
        filters_encode(s, n) is Ok,
    ensures
        filters_encode(s, n)->Ok_0.len() == n,
        forall|i: int|
            0 <= i < n ==> filter_encode(s[i]) == Ok::<JsonView, Error>(
                #[trigger] filters_encode(s, n)->Ok_0[i],
            ),
    decreases n,
{
    if n > 0 {
        lemma_filters_encode_len(s, n - 1);
    }
}

/// What the first `n` trees of a list stand for depends on those trees only.
pub proof fn lemma_filters_decode_prefix(a: Seq<JsonView>, b: Seq<JsonView>, n: int)
    requires
        0 <= n <= a.len(),
        n <= b.len(),
        forall|i: int| 0 <= i < n ==> a[i] == b[i],
    ensures
        filters_decode(a, n) == filters_decode(b, n),
    decreases n,
{
    if n > 0 {
        lemma_filters_decode_prefix(a, b, n - 1);
    }
}

/// Round trip: a filter that can be sent is read back from its tree, however
/// deep composite filters nest in it.
pub proof fn lemma_filter_round_trip(f: FilterView)
    requires
        filter_encode(f) is Ok,
    ensures
        filter_decode(filter_encode(f)->Ok_0) == Ok::<FilterView, Error>(f),
    decreases f,
{
    reveal_strlit("compositeFilter");
    reveal_strlit("fieldFilter");
    reveal_strlit("unaryFilter");
    assert("compositeFilter"@.len() == 15 && "fieldFilter"@.len() == 11 && "unaryFilter"@.len()
        == 11 && "fieldFilter"@[0] == 'f' && "unaryFilter"@[0] == 'u');
    lemma_member_round_trip::<FieldFilter>(Error::InvalidQuery);
    lemma_member_round_trip::<UnaryFilter>(Error::InvalidQuery);
    match f.composite_filter {
        Some(c) => {
            let j = composite_encode(c)->Ok_0;
            lemma_single_lookups("compositeFilter"@, j);
            lemma_composite_round_trip(c);
        },
        None => match f.field_filter {
            Some(x) => {
                let j = FieldFilter::encode(x)->Ok_0;
                lemma_single_lookups("fieldFilter"@, j);
                assert(member_encode::<FieldFilter>(Some(x)) == Ok::<Option<JsonView>, Error>(
                    Some(j),
                ));
            },
            None => match f.unary_filter {
                Some(u) => {
                    let j = UnaryFilter::encode(u)->Ok_0;
                    lemma_single_lookups("unaryFilter"@, j);
                    assert(member_encode::<UnaryFilter>(Some(u)) == Ok::<Option<JsonView>, Error>(
                        Some(j),
                    ));
                },
                None => {},
            },
        },
    }
}

/// Round trip for composite filters.
pub proof fn lemma_composite_round_trip(c: CompositeFilterView)
    requires
        composite_encode(c) is Ok,
    ensures
        composite_decode(composite_encode(c)->Ok_0) == Ok::<CompositeFilterView, Error>(c),
    decreases c,
{
    reveal_strlit("filters");
    reveal_strlit("op");
    assert("filters"@.len() == 7 && "op"@.len() == 2);
    let fs = c.filters->Some_0;
    let trees = filters_encode(fs, fs.len() as int)->Ok_0;
    let first = with(Seq::empty(), "filters"@, Some(JsonView::Array(trees)));
    lemma_positions_with(Seq::empty(), "filters"@, Some(JsonView::Array(trees)));
    lemma_positions_with(first, "op"@, string_tree(c.op));
    lemma_lookups_with(Seq::empty(), "filters"@, Some(JsonView::Array(trees)));
    lemma_lookups_with(first, "op"@, string_tree(c.op));
    lemma_lookups_with(Seq::empty(), "op"@, None);
    lemma_plain_round_trip(Error::InvalidQuery);
    lemma_filters_encode_len(fs, fs.len() as int);
    lemma_filters_round_trip(fs, fs.len() as int);
    assert(fs.take(fs.len() as int) =~= fs);
    assert(position(Seq::<(Seq<char>, JsonView)>::empty(), "filters"@) == -1);
}

/// Round trip for lists of filters.
pub proof fn lemma_filters_round_trip(s: Seq<FilterView>, n: int)
    requires
        0 <= n <= s.len(),
        filters_encode(s, n) is Ok,
    ensures
        filters_decode(filters_encode(s, n)->Ok_0, n) == Ok::<Seq<FilterView>, Error>(s.take(n)),
    decreases s, n,
{
    if n > 0 {
        let trees = filters_encode(s, n)->Ok_0;
        let before = filters_encode(s, n - 1)->Ok_0;
        lemma_filters_round_trip(s, n - 1);
        lemma_filters_encode_len(s, n - 1);
        lemma_filters_encode_len(s, n);
        lemma_filters_decode_prefix(trees, before, n - 1);
        lemma_filter_round_trip(s[n - 1]);
        assert(s.take(n - 1).push(s[n - 1]) =~= s.take(n));
    } else {
        assert(s.take(0) =~= Seq::<FilterView>::empty());
    }
}

/// The tree of a filter that can be sent is well-formed.
pub proof fn lemma_filter_well_formed(f: FilterView)
    requires
        filter_encode(f) is Ok,
    ensures
        well_formed(filter_encode(f)->Ok_0),
    decreases f,
{
    lemma_trees_well_formed();
    match f.composite_filter {
        Some(c) => {
            lemma_composite_well_formed(c);
        },
        None => match f.field_filter {
            Some(x) => {
                FieldFilter::lemma_well_formed(x);
            },
            None => match f.unary_filter {
                Some(u) => {
                    UnaryFilter::lemma_well_formed(u);
                },
                None => {},
            },
        },
    }
}

/// The tree of a composite filter that can be sent is well-formed.
pub proof fn lemma_composite_well_formed(c: CompositeFilterView)
    requires
        composite_encode(c) is Ok,
    ensures
        well_formed(composite_encode(c)->Ok_0),
    decreases c,
{
    lemma_trees_well_formed();
    let fs = c.filters->Some_0;
    let trees = filters_encode(fs, fs.len() as int)->Ok_0;
    lemma_filters_encode_len(fs, fs.len() as int);
    assert forall|i: int| 0 <= i < trees.len() implies well_formed(#[trigger] trees[i]) by {
        assert(filter_encode(fs[i]) == Ok::<JsonView, Error>(trees[i]));
        lemma_filter_well_formed(fs[i]);
    }
    assert(well_formed(JsonView::Array(trees)));
}

impl Wire for Filter {
    open spec fn encode(v: FilterView) -> Result<JsonView, Error> {
        filter_encode(v)
    }

    open spec fn decode(j: JsonView) -> Result<FilterView, Error> {
        filter_decode(j)
    }

    /// The tree that the filter is sent as: `InvalidQuery` where it, or a
    /// filter inside it, sets no kind or several, or where a composite
    /// filter has no operands.
    fn to_json(&self) -> (r: Result<Json, Error>) {
        write_filter(self)
    }

    /// The filter that a tree stands for.
    fn from_json(j: &Json) -> (r: Result<Filter, Error>) {
        read_filter(j)
    }

    proof fn lemma_round_trip(v: FilterView) {
        lemma_filter_round_trip(v);
    }

    proof fn lemma_well_formed(v: FilterView) {
        lemma_filter_well_formed(v);
    }
}

impl Wire for CompositeFilter {
    open spec fn encode(v: CompositeFilterView) -> Result<JsonView, Error> {
        composite_encode(v)
    }

    open spec fn decode(j: JsonView) -> Result<CompositeFilterView, Error> {
        composite_decode(j)
    }

    /// The tree that the composite filter is sent as: `InvalidQuery` where
    /// it has no list of filters or an empty one.
    fn to_json(&self) -> (r: Result<Json, Error>) {
        write_composite(self)
    }

    /// The composite filter that a tree stands for.
    fn from_json(j: &Json) -> (r: Result<CompositeFilter, Error>) {
        read_composite(j)
    }

    proof fn lemma_round_trip(v: CompositeFilterView) {
        lemma_composite_round_trip(v);
    }

    proof fn lemma_well_formed(v: CompositeFilterView) {
        lemma_composite_well_formed(v);
    }
}

impl Clone for UnaryFilter {
    fn clone(&self) -> (r: Self)
        ensures
            r@ == self@,
    {
        UnaryFilter { field: copy_field(&self.field), op: copy_text(&self.op) }
    }
}

fn copy_filter(f: &Filter) -> (r: Filter)
    ensures
        r@ == f@,
    decreases f,
{
    let composite = match &f.composite_filter {
        Some(c) => Some(copy_composite(c)),
        None => None,
    };
    let field = match &f.field_filter {
        Some(x) => Some(x.clone()),
        None => None,
    };
    let unary = match &f.unary_filter {
        Some(u) => Some(u.clone()),
        None => None,
    };
    Filter { composite_filter: composite, field_filter: field, unary_filter: unary }
}

fn copy_composite(c: &CompositeFilter) -> (r: CompositeFilter)
    ensures
        r@ == c@,
    decreases c,
{
    let filters = match &c.filters {
        Some(v) => Some(copy_filters(v)),
        None => None,
    };
    CompositeFilter { filters: filters, op: copy_text(&c.op) }
}

fn copy_filters(v: &Vec<Filter>) -> (r: Vec<Filter>)
    ensures
        filters_view(r@) == filters_view(v@),
    decreases v,
{
    let mut r: Vec<Filter> = Vec::new();
    let mut i: usize = 0;
    while i < v.len()
        invariant
            i <= v.len(),
            r.len() == i,
            forall|k: int| 0 <= k < i ==> filter_view(r[k]) == filter_view(v[k]),
        decreases v.len() - i,
    {
        r.push(copy_filter(&v[i]));
        i = i + 1;
    }
    assert(filters_view(r@) =~= filters_view(v@));
    r
}

impl Clone for Filter {
    fn clone(&self) -> (r: Self)
        ensures
            r@ == self@,
    {
        copy_filter(self)
    }
}

impl Clone for CompositeFilter {
    fn clone(&self) -> (r: Self)
        ensures
            r@ == self@,
    {
        copy_composite(self)
    }
}

impl Default for UnaryFilter {
    /// The filter that sets nothing.
    fn default() -> (r: UnaryFilter)
        ensures
            r@ == (UnaryFilterView { field: None, op: None }),
    {
        UnaryFilter {
            field: None,
            op: None,
        }
    }
}

impl Default for Filter {
    /// The filter that sets no kind.
    fn default() -> (r: Filter)
        ensures
            r@ == (FilterView { composite_filter: None, field_filter: None, unary_filter: None }),
    {
        Filter {
            composite_filter: None,
            field_filter: None,
            unary_filter: None,
        }
    }
}

impl Default for CompositeFilter {
    /// The composite filter without filters or operator.
    fn default() -> (r: CompositeFilter)
        ensures
            r@ == (CompositeFilterView { filters: None, op: None }),
    {
        CompositeFilter {
            filters: None,
            op: None,
        }
    }
}

} // verus!
