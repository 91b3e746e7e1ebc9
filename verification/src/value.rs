//! Field values: the union of the kinds of value that a document's field
//! can hold, with the arrays and maps that nest them.

use vstd::prelude::*;
use vstd::std_specs::cmp::PartialEqSpecImpl;
use vstd::utf8::encode_utf8;
use crate::error::{encoding, opt_view, yields, Error};
use crate::json::{
    find, has, jsons_view, lemma_lookup_single, lemma_lookup_with, lemma_single_lookups, lookup,
    members_view, position, put, single, single_member, with, Json, JsonView, Members,
};
use crate::number::{
    decimal_of, i64_to_decimal, is_number, is_number_literal, lemma_decimal_round_trip,
    parse_decimal, parse_i64,
};
use crate::parse::{lemma_trees_well_formed, well_formed};
use crate::decimal::{
    lemma_equal_numbers_reflexive, literal_within, magnitude_at_most, same_literal,
    same_number_or_text,
};
use crate::wire::Wire;
use crate::text::{
    lemma_str_lt_irreflexive, lemma_str_lt_total, lemma_str_lt_transitive, precedes, same_text,
    str_lt, to_chars,
};

verus! {

/// A double-precision number as the wire carries it: one of the three values
/// that JSON has no literal for, or the number literal of a finite value.
/// Two finite numbers are equal where their literals stand for the same
/// number, however they are written; zero is equal to zero with either
/// sign. The value that is no number is equal to itself, so that a value
/// that holds it is equal to what it is read back as.
#[derive(Debug)]
pub enum Double {
    Nan,
    Infinity,
    NegInfinity,
    Finite(String),
}

/// The model of a double-precision number.
pub ghost enum DoubleView {
    Nan,
    Infinity,
    NegInfinity,
    Finite(Seq<char>),
}

impl View for Double {
    type V = DoubleView;

    open spec fn view(&self) -> DoubleView {
        match self {
            Double::Nan => DoubleView::Nan,
            Double::Infinity => DoubleView::Infinity,
            Double::NegInfinity => DoubleView::NegInfinity,
            Double::Finite(s) => DoubleView::Finite(s@),
        }
    }
}

impl Clone for Double {
    fn clone(&self) -> (r: Self)
        ensures
            r@ == self@,
    {
        match self {
            Double::Nan => Double::Nan,
            Double::Infinity => Double::Infinity,
            Double::NegInfinity => Double::NegInfinity,
            Double::Finite(s) => Double::Finite(s.clone()),
        }
    }
}

impl PartialEq for Double {
    fn eq(&self, other: &Self) -> (r: bool) {
        match self {
            Double::Nan => matches!(other, Double::Nan),
            Double::Infinity => matches!(other, Double::Infinity),
            Double::NegInfinity => matches!(other, Double::NegInfinity),
            Double::Finite(s) => match other {
                Double::Finite(t) => same_number_or_text(s.as_str(), t.as_str()),
                _ => false,
            },
        }
    }
}

impl PartialEqSpecImpl for Double {
    open spec fn obeys_eq_spec() -> bool {
        true
    }

    open spec fn eq_spec(&self, other: &Self) -> bool {
        equal_doubles(self@, other@)
    }
}

/// Two doubles are equal: both are the same of the three values that are not
/// finite, or both are finite and stand for the same number, zero with
/// whatever sign.
pub open spec fn equal_doubles(a: DoubleView, b: DoubleView) -> bool {
    match a {
        DoubleView::Finite(x) => b is Finite && same_literal(x, b->Finite_0),
        _ => a == b,
    }
}

/// Two coordinates are equal: both are absent, or both are present and equal
/// as doubles.
pub open spec fn equal_coordinates(a: Option<DoubleView>, b: Option<DoubleView>) -> bool {
    match a {
        Some(x) => b is Some && equal_doubles(x, b->Some_0),
        None => b is None,
    }
}

/// Two points are equal: their latitudes are, and their longitudes.
pub open spec fn equal_points(a: LatLngView, b: LatLngView) -> bool {
    equal_coordinates(a.latitude, b.latitude) && equal_coordinates(a.longitude, b.longitude)
}

/// A point on the surface of the Earth, in degrees: a latitude from -90 to
/// 90 and a longitude from -180 to 180.
#[derive(Debug, Clone)]
pub struct LatLng {
    /// The latitude, from -90 to 90.
    pub latitude: Option<Double>,
    /// The longitude, from -180 to 180.
    pub longitude: Option<Double>,
}

/// The model of a point.
pub ghost struct LatLngView {
    pub latitude: Option<DoubleView>,
    pub longitude: Option<DoubleView>,
}

impl View for LatLng {
    type V = LatLngView;

    open spec fn view(&self) -> LatLngView {
        LatLngView { latitude: opt_view(self.latitude), longitude: opt_view(self.longitude) }
    }
}

fn same_coordinate(a: &Option<Double>, b: &Option<Double>) -> (r: bool)
    ensures
        r == equal_coordinates(opt_view(*a), opt_view(*b)),
{
    match a {
        Some(x) => match b {
            Some(y) => x == y,
            None => false,
        },
        None => b.is_none(),
    }
}

impl PartialEq for LatLng {
    fn eq(&self, other: &Self) -> (r: bool) {
        same_coordinate(&self.latitude, &other.latitude) && same_coordinate(
            &self.longitude,
            &other.longitude,
        )
    }
}

impl PartialEqSpecImpl for LatLng {
    open spec fn obeys_eq_spec() -> bool {
        true
    }

    open spec fn eq_spec(&self, other: &Self) -> bool {
        equal_points(self@, other@)
    }
}

/// A value of a document's field: exactly one of the kinds below, or
/// `Unset` while a value is under construction. `Null` is a value of its
/// own, and differs from `Unset`.
#[derive(Debug)]
pub enum Value {
    Unset,
    Null,
    Boolean(bool),
    Integer(i64),
    Double(Double),
    Timestamp(String),
    String(String),
    Bytes(String),
    Reference(String),
    GeoPoint(LatLng),
    Array(ArrayValue),
    Mapping(MapValue),
}

/// An ordered sequence of values. The service refuses an array that holds
/// another array directly, without a map between them; the type does not.
#[derive(Debug)]
pub struct ArrayValue {
    pub values: Vec<Value>,
}

/// A mapping from field names to values. It holds each name once, and keeps
/// its entries in the order of their names.
#[derive(Debug)]
pub struct MapValue {
    entries: Vec<(String, Value)>,
}

/// The model of a value: its kind and its payload, arrays and maps as sequences.
pub ghost enum ValueView {
    Unset,
    Null,
    Boolean(bool),
    Integer(i64),
    Double(DoubleView),
    Timestamp(Seq<char>),
    String(Seq<char>),
    Bytes(Seq<char>),
    Reference(Seq<char>),
    GeoPoint(LatLngView),
    Array(Seq<ValueView>),
    Mapping(Seq<(Seq<char>, ValueView)>),
}

/// The entries of a map, in order.
pub type Entries = Seq<(Seq<char>, ValueView)>;

/// The model of a value.
pub open spec fn value_view(v: Value) -> ValueView
    decreases v,
{
    match v {
        Value::Unset => ValueView::Unset,
        Value::Null => ValueView::Null,
        Value::Boolean(b) => ValueView::Boolean(b),
        Value::Integer(i) => ValueView::Integer(i),
        Value::Double(d) => ValueView::Double(d@),
        Value::Timestamp(s) => ValueView::Timestamp(s@),
        Value::String(s) => ValueView::String(s@),
        Value::Bytes(s) => ValueView::Bytes(s@),
        Value::Reference(s) => ValueView::Reference(s@),
        Value::GeoPoint(g) => ValueView::GeoPoint(g@),
        Value::Array(a) => ValueView::Array(values_view(a.values@)),
        Value::Mapping(m) => ValueView::Mapping(m.model()),
    }
}

/// The models of the values of a list.
pub open spec fn values_view(s: Seq<Value>) -> Seq<ValueView>
    decreases s,
{
    Seq::new(
        s.len(),
        |i: int|
            if 0 <= i < s.len() {
                value_view(s[i])
            } else {
                ValueView::Unset
            },
    )
}

/// The models of the entries of a map.
pub open spec fn entries_view(s: Seq<(String, Value)>) -> Entries
    decreases s,
{
    Seq::new(
        s.len(),
        |i: int|
            if 0 <= i < s.len() {
                (s[i].0@, value_view(s[i].1))
            } else {
                (Seq::empty(), ValueView::Unset)
            },
    )
}

impl View for Value {
    type V = ValueView;

    open spec fn view(&self) -> ValueView {
        value_view(*self)
    }
}

impl View for MapValue {
    type V = Entries;

    open spec fn view(&self) -> Entries {
        self.model()
    }
}

impl View for ArrayValue {
    type V = Seq<ValueView>;

    open spec fn view(&self) -> Seq<ValueView> {
        values_view(self.values@)
    }
}

/// The view of an optional borrowed value.
pub open spec fn value_view_of(v: Option<&Value>) -> Option<ValueView> {
    match v {
        Some(v) => Some(v@),
        None => None,
    }
}

/// The names of the entries increase strictly.
pub open spec fn sorted(m: Entries) -> bool {
    forall|i: int, j: int| #![trigger m[i], m[j]] 0 <= i < j < m.len() ==> str_lt(m[i].0, m[j].0)
}

/// How many entries, from the `i`-th on, come before `key` without a gap;
/// added to `i`: where an entry named `key` stands or would stand.
pub open spec fn rank_from(m: Entries, key: Seq<char>, i: int) -> int
    decreases m.len() - i,
{
    if 0 <= i < m.len() && str_lt(m[i].0, key) {
        rank_from(m, key, i + 1)
    } else {
        i
    }
}

/// Where an entry named `key` stands or would stand.
pub open spec fn rank(m: Entries, key: Seq<char>) -> int {
    rank_from(m, key, 0)
}

/// The value that the map holds for `key`, if any.
pub open spec fn find_entry(m: Entries, key: Seq<char>) -> Option<ValueView> {
    let p = rank(m, key);
    if 0 <= p < m.len() && m[p].0 == key {
        Some(m[p].1)
    } else {
        None
    }
}

/// The map with `value` for `key`: in place of the value that it held for
/// that name, or as a new entry where the order of names puts it.
pub open spec fn put_entry(m: Entries, key: Seq<char>, value: ValueView) -> Entries {
    let p = rank(m, key);
    if 0 <= p < m.len() && m[p].0 == key {
        m.update(p, (key, value))
    } else if 0 <= p <= m.len() {
        m.insert(p, (key, value))
    } else {
        m
    }
}

/// The map without an entry for `key`.
pub open spec fn remove_entry(m: Entries, key: Seq<char>) -> Entries {
    let p = rank(m, key);
    if 0 <= p < m.len() && m[p].0 == key {
        m.remove(p)
    } else {
        m
    }
}

/// The rank lies between the start and the length; the entries before it come
/// before the name, and the one at it does not.
pub proof fn lemma_rank_from(m: Entries, key: Seq<char>, i: int)
    requires
        0 <= i <= m.len(),
    ensures
        i <= rank_from(m, key, i) <= m.len(),
        forall|j: int| i <= j < rank_from(m, key, i) ==> str_lt(#[trigger] m[j].0, key),
        rank_from(m, key, i) < m.len() ==> !str_lt(m[rank_from(m, key, i)].0, key),
    decreases m.len() - i,
{
    if i < m.len() && str_lt(m[i].0, key) {
        lemma_rank_from(m, key, i + 1);
    }
}

/// Putting an entry into a map whose names increase leaves them increasing.
pub proof fn lemma_put_sorted(m: Entries, key: Seq<char>, value: ValueView)
    requires
        sorted(m),
    ensures
        sorted(put_entry(m, key, value)),
{
    lemma_rank_from(m, key, 0);
    let p = rank(m, key);
    let r = put_entry(m, key, value);
    if p < m.len() && m[p].0 == key {
        assert forall|i: int, j: int| 0 <= i < j < r.len() implies str_lt(r[i].0, r[j].0) by {
            assert(str_lt(m[i].0, m[j].0));
        }
    } else {
        assert forall|j: int| p <= j < m.len() implies str_lt(key, #[trigger] m[j].0) by {
            lemma_str_lt_total(m[p].0, key);
            if p < j {
                assert(str_lt(m[p].0, m[j].0));
                lemma_str_lt_transitive(key, m[p].0, m[j].0);
            }
        }
        assert forall|i: int, j: int| 0 <= i < j < r.len() implies str_lt(r[i].0, r[j].0) by {
            if j < p {
                assert(str_lt(m[i].0, m[j].0));
            } else if j == p {
                assert(str_lt(m[i].0, key));
            } else if i < p {
                assert(str_lt(m[i].0, m[j - 1].0));
            } else if i == p {
                assert(str_lt(key, m[j - 1].0));
            } else {
                assert(str_lt(m[i - 1].0, m[j - 1].0));
            }
        }
    }
}

impl MapValue {
    #[verifier::type_invariant]
    spec fn inv(self) -> bool {
        sorted(entries_view(self.entries@))
    }

    /// The entries of the map, in the order of their names.
    pub closed spec fn model(&self) -> Entries
        decreases self,
    {
        entries_view(self.entries@)
    }

    /// The empty map: it holds nothing for any name.
    pub fn new() -> (m: MapValue)
        ensures
            m@ == Seq::<(Seq<char>, ValueView)>::empty(),
            forall|k: Seq<char>| #[trigger] find_entry(m@, k) is None,
    {
        let m = MapValue { entries: Vec::new() };
        assert(m@ =~= Seq::<(Seq<char>, ValueView)>::empty());
        m
    }

    /// The number of entries.
    pub fn len(&self) -> (n: usize)
        ensures
            n == self@.len(),
    {
        self.entries.len()
    }

    /// The entries, in the order of their names.
    pub fn entries(&self) -> (e: &Vec<(String, Value)>)
        ensures
            entries_view(e@) == self@,
            sorted(self@),
    {
        proof {
            use_type_invariant(self);
        }
        &self.entries
    }

    fn locate(&self, key: &str) -> (p: usize)
        ensures
            p == rank(self@, key@),
            p <= self@.len(),
    {
        let mut i: usize = 0;
        while i < self.entries.len() && precedes(self.entries[i].0.as_str(), key)
            invariant
                i <= self.entries.len(),
                rank(self@, key@) == rank_from(self@, key@, i as int),
            decreases self.entries.len() - i,
        {
            i = i + 1;
        }
        i
    }

    /// The value that the map holds for `key`, if any.
    pub fn get(&self, key: &str) -> (r: Option<&Value>)
        ensures
            value_view_of(r) == find_entry(self@, key@),
    {
        let p = self.locate(key);
        if p < self.entries.len() && same_text(self.entries[p].0.as_str(), key) {
            Some(&self.entries[p].1)
        } else {
            None
        }
    }

    /// This map with `value` for `key`, in place of the one that the map
    /// held for that name, if any: afterwards it holds `value` for `key`,
    /// and for every other name what it held before.
    pub fn with_entry(self, key: String, value: Value) -> (m: MapValue)
        ensures
            m@ == put_entry(self@, key@, value@),
            sorted(m@),
            forall|k: Seq<char>| #[trigger]
                find_entry(m@, k) == if k == key@ {
                    Some(value@)
                } else {
                    find_entry(self@, k)
                },
    {
        proof {
            use_type_invariant(&self);
            lemma_put_sorted(self@, key@, value@);
            assert forall|k: Seq<char>| #[trigger]
                find_entry(put_entry(self@, key@, value@), k) == if k == key@ {
                    Some(value@)
                } else {
                    find_entry(self@, k)
                } by {
                lemma_find_put(self@, key@, value@, k);
            }
        }
        let p = self.locate(key.as_str());
        let ghost before = self@;
        let found = p < self.entries.len() && same_text(self.entries[p].0.as_str(), key.as_str());
        let mut entries = self.entries;
        if found {
            entries.set(p, (key, value));
        } else {
            entries.insert(p, (key, value));
        }
        assert(entries_view(entries@) =~= put_entry(before, key@, value@));
        MapValue { entries: entries }
    }

    /// This map without an entry for `key`, and the value that it held for
    /// that name, if any: afterwards the map holds nothing for `key`, and for
    /// every other name what it held before.
    pub fn without_entry(self, key: &str) -> (r: (MapValue, Option<Value>))
        ensures
            r.0@ == remove_entry(self@, key@),
            opt_view(r.1) == find_entry(self@, key@),
            sorted(r.0@),
            forall|k: Seq<char>| #[trigger]
                find_entry(r.0@, k) == if k == key@ {
                    None
                } else {
                    find_entry(self@, k)
                },
    {
        proof {
            use_type_invariant(&self);
            lemma_remove_sorted(self@, key@);
            assert forall|k: Seq<char>| #[trigger]
                find_entry(remove_entry(self@, key@), k) == if k == key@ {
                    None
                } else {
                    find_entry(self@, k)
                } by {
                lemma_find_remove(self@, key@, k);
            }
        }
        let p = self.locate(key);
        let ghost before = self@;
        let found = p < self.entries.len() && same_text(self.entries[p].0.as_str(), key);
        let mut entries = self.entries;
        if found {
            let entry = entries.remove(p);
            assert(entries_view(entries@) =~= remove_entry(before, key@));
            assert(entry.1@ == before[p as int].1);
            (MapValue { entries: entries }, Some(entry.1))
        } else {
            (MapValue { entries: entries }, None)
        }
    }

    /// Takes the entry for `key` out of the map and returns the value that
    /// the map held for that name, if any: afterwards the map holds nothing
    /// for `key`, and for every other name what it held before.
    pub fn remove(&mut self, key: &str) -> (r: Option<Value>)
        ensures
            final(self)@ == remove_entry(old(self)@, key@),
            opt_view(r) == find_entry(old(self)@, key@),
            sorted(final(self)@),
            forall|k: Seq<char>| #[trigger]
                find_entry(final(self)@, k) == if k == key@ {
                    None
                } else {
                    find_entry(old(self)@, k)
                },
    {
        let mut taken = MapValue::new();
        core::mem::swap(self, &mut taken);
        let (rest, value) = taken.without_entry(key);
        *self = rest;
        value
    }

    /// Sets the value for `key`, in place of the one that the map held for
    /// that name, if any: afterwards the map holds `value` for `key`, and
    /// for every other name what it held before.
    pub fn insert(&mut self, key: String, value: Value)
        ensures
            final(self)@ == put_entry(old(self)@, key@, value@),
            sorted(final(self)@),
            forall|k: Seq<char>| #[trigger]
                find_entry(final(self)@, k) == if k == key@ {
                    Some(value@)
                } else {
                    find_entry(old(self)@, k)
                },
    {
        let mut taken = MapValue::new();
        core::mem::swap(self, &mut taken);
        *self = taken.with_entry(key, value);
    }
}

/// Two values are equal: they are of the same kind and hold equal payloads,
/// doubles compared as numbers, arrays element by element, maps entry by
/// entry. A value that is not set is equal to one that is not set, and to no
/// other.
pub open spec fn equal_values(a: ValueView, b: ValueView) -> bool
    decreases a,
{
    match a {
        ValueView::Double(x) => b is Double && equal_doubles(x, b->Double_0),
        ValueView::GeoPoint(x) => b is GeoPoint && equal_points(x, b->GeoPoint_0),
        ValueView::Array(x) => b is Array && equal_lists(x, b->Array_0),
        ValueView::Mapping(x) => b is Mapping && equal_entries(x, b->Mapping_0),
        _ => a == b,
    }
}

/// Two lists of values are equal: they are as long, and hold equal values
/// place by place.
pub open spec fn equal_lists(a: Seq<ValueView>, b: Seq<ValueView>) -> bool
    decreases a,
{
    &&& a.len() == b.len()
    &&& forall|i: int| #![trigger a[i], b[i]] 0 <= i < a.len() ==> equal_values(a[i], b[i])
}

/// Two maps are equal: they hold the same names, and equal values for each.
pub open spec fn equal_entries(a: Entries, b: Entries) -> bool
    decreases a,
{
    &&& a.len() == b.len()
    &&& forall|i: int|
        #![trigger a[i], b[i]]
        0 <= i < a.len() ==> a[i].0 == b[i].0 && equal_values(a[i].1, b[i].1)
}

/// The fields of two documents are equal: both are absent, or both are
/// present and equal as maps.
pub open spec fn equal_fields(a: Option<Entries>, b: Option<Entries>) -> bool {
    match a {
        Some(x) => b is Some && equal_entries(x, b->Some_0),
        None => b is None,
    }
}

/// A value is equal to itself.
pub proof fn lemma_equal_values_reflexive(v: ValueView)
    ensures
        equal_values(v, v),
    decreases v,
{
    match v {
        ValueView::Double(x) => {
            lemma_equal_doubles_reflexive(x);
        },
        ValueView::GeoPoint(x) => {
            if x.latitude is Some {
                lemma_equal_doubles_reflexive(x.latitude->Some_0);
            }
            if x.longitude is Some {
                lemma_equal_doubles_reflexive(x.longitude->Some_0);
            }
        },
        ValueView::Array(x) => {
            assert forall|i: int| #![trigger x[i]] 0 <= i < x.len() implies equal_values(
                x[i],
                x[i],
            ) by {
                lemma_equal_values_reflexive(x[i]);
            }
        },
        ValueView::Mapping(x) => {
            lemma_equal_entries_reflexive(x);
        },
        _ => {},
    }
}

/// A map is equal to itself.
pub proof fn lemma_equal_entries_reflexive(m: Entries)
    ensures
        equal_entries(m, m),
    decreases m,
{
    assert forall|i: int| #![trigger m[i]] 0 <= i < m.len() implies equal_values(
        m[i].1,
        m[i].1,
    ) by {
        lemma_equal_values_reflexive(m[i].1);
    }
}

/// A double is equal to itself.
pub proof fn lemma_equal_doubles_reflexive(d: DoubleView)
    ensures
        equal_doubles(d, d),
{
    if let DoubleView::Finite(x) = d {
        lemma_equal_numbers_reflexive(x);
    }
}

fn same_value(a: &Value, b: &Value) -> (r: bool)
    ensures
        r == equal_values(a@, b@),
    decreases a,
{
    match a {
        Value::Unset => matches!(b, Value::Unset),
        Value::Null => matches!(b, Value::Null),
        Value::Boolean(x) => match b {
            Value::Boolean(y) => *x == *y,
            _ => false,
        },
        Value::Integer(x) => match b {
            Value::Integer(y) => *x == *y,
            _ => false,
        },
        Value::Double(x) => match b {
            Value::Double(y) => x == y,
            _ => false,
        },
        Value::Timestamp(x) => match b {
            Value::Timestamp(y) => same_text(x.as_str(), y.as_str()),
            _ => false,
        },
        Value::String(x) => match b {
            Value::String(y) => same_text(x.as_str(), y.as_str()),
            _ => false,
        },
        Value::Bytes(x) => match b {
            Value::Bytes(y) => same_text(x.as_str(), y.as_str()),
            _ => false,
        },
        Value::Reference(x) => match b {
            Value::Reference(y) => same_text(x.as_str(), y.as_str()),
            _ => false,
        },
        Value::GeoPoint(x) => match b {
            Value::GeoPoint(y) => x == y,
            _ => false,
        },
        Value::Array(x) => match b {
            Value::Array(y) => same_values(&x.values, &y.values),
            _ => false,
        },
        Value::Mapping(x) => match b {
            Value::Mapping(y) => same_entries(&x.entries, &y.entries),
            _ => false,
        },
    }
}

fn same_values(a: &Vec<Value>, b: &Vec<Value>) -> (r: bool)
    ensures
        r == equal_lists(values_view(a@), values_view(b@)),
    decreases a,
{
    if a.len() != b.len() {
        return false;
    }
    let mut i: usize = 0;
    while i < a.len()
        invariant
            i <= a.len(),
            a.len() == b.len(),
            forall|k: int|
                #![trigger values_view(a@)[k], values_view(b@)[k]]
                0 <= k < i ==> equal_values(values_view(a@)[k], values_view(b@)[k]),
        decreases a.len() - i,
    {
        if !same_value(&a[i], &b[i]) {
            assert(!equal_values(values_view(a@)[i as int], values_view(b@)[i as int]));
            return false;
        }
        i = i + 1;
    }
    true
}

fn same_entries(a: &Vec<(String, Value)>, b: &Vec<(String, Value)>) -> (r: bool)
    ensures
        r == equal_entries(entries_view(a@), entries_view(b@)),
    decreases a,
{
    if a.len() != b.len() {
        return false;
    }
    let mut i: usize = 0;
    while i < a.len()
        invariant
            i <= a.len(),
            a.len() == b.len(),
            forall|k: int|
                #![trigger entries_view(a@)[k], entries_view(b@)[k]]
                0 <= k < i ==> entries_view(a@)[k].0 == entries_view(b@)[k].0 && equal_values(
                    entries_view(a@)[k].1,
                    entries_view(b@)[k].1,
                ),
        decreases a.len() - i,
    {
        if !same_text(a[i].0.as_str(), b[i].0.as_str()) || !same_value(&a[i].1, &b[i].1) {
            assert(!(entries_view(a@)[i as int].0 == entries_view(b@)[i as int].0 && equal_values(
                entries_view(a@)[i as int].1,
                entries_view(b@)[i as int].1,
            )));
            return false;
        }
        i = i + 1;
    }
    true
}

impl PartialEq for Value {
    /// Two values are equal where they are of the same kind and hold equal
    /// payloads; arrays and maps are compared entry by entry.
    fn eq(&self, other: &Self) -> (r: bool) {
        same_value(self, other)
    }
}

impl PartialEqSpecImpl for Value {
    open spec fn obeys_eq_spec() -> bool {
        true
    }

    open spec fn eq_spec(&self, other: &Self) -> bool {
        equal_values(self@, other@)
    }
}

impl PartialEq for ArrayValue {
    fn eq(&self, other: &Self) -> (r: bool) {
        same_values(&self.values, &other.values)
    }
}

impl PartialEqSpecImpl for ArrayValue {
    open spec fn obeys_eq_spec() -> bool {
        true
    }

    open spec fn eq_spec(&self, other: &Self) -> bool {
        equal_lists(self@, other@)
    }
}

impl PartialEq for MapValue {
    fn eq(&self, other: &Self) -> (r: bool) {
        same_entries(&self.entries, &other.entries)
    }
}

impl PartialEqSpecImpl for MapValue {
    open spec fn obeys_eq_spec() -> bool {
        true
    }

    open spec fn eq_spec(&self, other: &Self) -> bool {
        equal_entries(self@, other@)
    }
}

fn copy_value(v: &Value) -> (r: Value)
    ensures
        r@ == v@,
    decreases v,
{
    match v {
        Value::Unset => Value::Unset,
        Value::Null => Value::Null,
        Value::Boolean(x) => Value::Boolean(*x),
        Value::Integer(x) => Value::Integer(*x),
        Value::Double(x) => Value::Double(x.clone()),
        Value::Timestamp(x) => Value::Timestamp(x.clone()),
        Value::String(x) => Value::String(x.clone()),
        Value::Bytes(x) => Value::Bytes(x.clone()),
        Value::Reference(x) => Value::Reference(x.clone()),
        Value::GeoPoint(x) => {
            let latitude = match &x.latitude {
                Some(d) => Some(d.clone()),
                None => None,
            };
            let longitude = match &x.longitude {
                Some(d) => Some(d.clone()),
                None => None,
            };
            Value::GeoPoint(LatLng { latitude: latitude, longitude: longitude })
        },
        Value::Array(x) => Value::Array(ArrayValue { values: copy_values(&x.values) }),
        Value::Mapping(x) => {
            proof {
                use_type_invariant(x);
            }
            Value::Mapping(MapValue { entries: copy_entries(&x.entries) })
        },
    }
}

fn copy_values(a: &Vec<Value>) -> (r: Vec<Value>)
    ensures
        values_view(r@) == values_view(a@),
    decreases a,
{
    let mut r: Vec<Value> = Vec::new();
    let mut i: usize = 0;
    while i < a.len()
        invariant
            i <= a.len(),
            r.len() == i,
            forall|k: int| 0 <= k < i ==> value_view(r[k]) == value_view(a[k]),
        decreases a.len() - i,
    {
        r.push(copy_value(&a[i]));
        i = i + 1;
    }
    assert(values_view(r@) =~= values_view(a@));
    r
}

fn copy_entries(a: &Vec<(String, Value)>) -> (r: Vec<(String, Value)>)
    ensures
        entries_view(r@) == entries_view(a@),
    decreases a,
{
    let mut r: Vec<(String, Value)> = Vec::new();
    let mut i: usize = 0;
    while i < a.len()
        invariant
            i <= a.len(),
            r.len() == i,
            forall|k: int| 0 <= k < i ==> entries_view(r@)[k] == entries_view(a@)[k],
        decreases a.len() - i,
    {
        r.push((a[i].0.clone(), copy_value(&a[i].1)));
        i = i + 1;
    }
    assert(entries_view(r@) =~= entries_view(a@));
    r
}

impl Clone for Value {
    fn clone(&self) -> (r: Self)
        ensures
            r@ == self@,
    {
        copy_value(self)
    }
}

impl Clone for ArrayValue {
    fn clone(&self) -> (r: Self)
        ensures
            r@ == self@,
    {
        ArrayValue { values: copy_values(&self.values) }
    }
}

impl Clone for MapValue {
    fn clone(&self) -> (r: Self)
        ensures
            r@ == self@,
    {
        proof {
            use_type_invariant(self);
        }
        MapValue { entries: copy_entries(&self.entries) }
    }
}

/// A field name that a map may hold: not empty, and of at most 1500 bytes
/// in UTF-8.
pub open spec fn valid_key(k: Seq<char>) -> bool {
    k.len() > 0 && encode_utf8(k).len() <= 1500
}

impl DoubleView {
    /// A finite number holds a number literal.
    pub open spec fn valid(self) -> bool {
        match self {
            DoubleView::Finite(l) => is_number_literal(l),
            _ => true,
        }
    }

    /// `MalformedValue` where a finite number holds no number literal.
    pub open spec fn check(self) -> Result<(), Error> {
        if self.valid() {
            Ok(())
        } else {
            Err(Error::MalformedValue)
        }
    }

    /// What sending the number gives.
    pub open spec fn encode(self) -> Result<JsonView, Error> {
        encoding(self.check(), self.tree())
    }

    /// A finite number is written as its literal; the three other values as
    /// the strings `NaN`, `Infinity` and `-Infinity`.
    pub open spec fn tree(self) -> JsonView {
        match self {
            DoubleView::Nan => JsonView::String("NaN"@),
            DoubleView::Infinity => JsonView::String("Infinity"@),
            DoubleView::NegInfinity => JsonView::String("-Infinity"@),
            DoubleView::Finite(l) => JsonView::Number(l),
        }
    }

    /// The number that a tree stands for: a number literal, or one of the
    /// three strings.
    pub open spec fn decode(j: JsonView) -> Result<DoubleView, Error> {
        match j {
            JsonView::Number(l) => if is_number_literal(l) {
                Ok(DoubleView::Finite(l))
            } else {
                Err(Error::MalformedValue)
            },
            JsonView::String(s) => if s == "NaN"@ {
                Ok(DoubleView::Nan)
            } else if s == "Infinity"@ {
                Ok(DoubleView::Infinity)
            } else if s == "-Infinity"@ {
                Ok(DoubleView::NegInfinity)
            } else {
                Err(Error::MalformedValue)
            },
            _ => Err(Error::MalformedValue),
        }
    }
}

/// A coordinate, where present, is a finite number between `-bound` and
/// `bound`.
pub open spec fn coordinate_valid(c: Option<DoubleView>, bound: nat) -> bool {
    match c {
        None => true,
        Some(DoubleView::Finite(l)) => is_number_literal(l) && magnitude_at_most(l, bound),
        Some(_) => false,
    }
}

/// The tree of a coordinate, where there is one.
pub open spec fn coordinate_tree(c: Option<DoubleView>) -> Option<JsonView> {
    match c {
        Some(d) => Some(d.tree()),
        None => None,
    }
}

/// The coordinate of an optional member: a number literal that stands for a
/// number between `-bound` and `bound`.
pub open spec fn coordinate_decode(j: Option<JsonView>, bound: nat) -> Result<
    Option<DoubleView>,
    Error,
> {
    match j {
        None => Ok(None),
        Some(JsonView::Number(l)) => if is_number_literal(l) && magnitude_at_most(l, bound) {
            Ok(Some(DoubleView::Finite(l)))
        } else {
            Err(Error::MalformedValue)
        },
        Some(_) => Err(Error::MalformedValue),
    }
}

impl LatLngView {
    /// The latitude, where present, lies between -90 and 90, and the
    /// longitude between -180 and 180.
    pub open spec fn valid(self) -> bool {
        coordinate_valid(self.latitude, 90) && coordinate_valid(self.longitude, 180)
    }

    /// `MalformedValue` where a coordinate is no finite number in its range.
    pub open spec fn check(self) -> Result<(), Error> {
        if self.valid() {
            Ok(())
        } else {
            Err(Error::MalformedValue)
        }
    }

    /// What sending the point gives.
    pub open spec fn encode(self) -> Result<JsonView, Error> {
        encoding(self.check(), self.tree())
    }

    /// The members `latitude` and `longitude`, each where the point holds it.
    pub open spec fn tree(self) -> JsonView {
        JsonView::Object(
            with(
                with(Seq::empty(), "latitude"@, coordinate_tree(self.latitude)),
                "longitude"@,
                coordinate_tree(self.longitude),
            ),
        )
    }

    /// The point that a tree stands for.
    pub open spec fn decode(j: JsonView) -> Result<LatLngView, Error> {
        match j {
            JsonView::Object(m) => match coordinate_decode(lookup(m, "latitude"@), 90) {
                Err(e) => Err(e),
                Ok(latitude) => match coordinate_decode(lookup(m, "longitude"@), 180) {
                    Err(e) => Err(e),
                    Ok(longitude) => Ok(LatLngView { latitude: latitude, longitude: longitude }),
                },
            },
            _ => Err(Error::MalformedValue),
        }
    }
}

/// A value that may be sent: it is set, and so is every value inside it; its
/// numbers hold number literals; the names of its maps are field names, each
/// held once, in order.
pub open spec fn valid_value(v: ValueView) -> bool
    decreases v,
{
    match v {
        ValueView::Unset => false,
        ValueView::Double(d) => d.valid(),
        ValueView::GeoPoint(g) => g.valid(),
        ValueView::Array(a) => valid_values(a),
        ValueView::Mapping(m) => valid_entries(m),
        _ => true,
    }
}

/// Every value of the list may be sent.
pub open spec fn valid_values(a: Seq<ValueView>) -> bool
    decreases a,
{
    forall|i: int| 0 <= i < a.len() ==> valid_value(#[trigger] a[i])
}

/// The names of the map increase, each is a field name, and each value may be
/// sent.
pub open spec fn valid_entries(m: Entries) -> bool
    decreases m,
{
    &&& sorted(m)
    &&& forall|i: int| 0 <= i < m.len() ==> valid_key((#[trigger] m[i]).0) && valid_value(m[i].1)
}

/// The tree of a value: an object with one member, named after the value's
/// kind. An integer is written as a decimal inside a string.
pub open spec fn value_tree(v: ValueView) -> JsonView
    decreases v,
{
    match v {
        ValueView::Unset => JsonView::Object(Seq::empty()),
        ValueView::Null => single("nullValue"@, JsonView::Null),
        ValueView::Boolean(b) => single("booleanValue"@, JsonView::Bool(b)),
        ValueView::Integer(i) => single("integerValue"@, JsonView::String(decimal_of(i as int))),
        ValueView::Double(d) => single("doubleValue"@, d.tree()),
        ValueView::Timestamp(s) => single("timestampValue"@, JsonView::String(s)),
        ValueView::String(s) => single("stringValue"@, JsonView::String(s)),
        ValueView::Bytes(s) => single("bytesValue"@, JsonView::String(s)),
        ValueView::Reference(s) => single("referenceValue"@, JsonView::String(s)),
        ValueView::GeoPoint(g) => single("geoPointValue"@, g.tree()),
        ValueView::Array(a) => single("arrayValue"@, array_tree(a)),
        ValueView::Mapping(m) => single("mapValue"@, map_tree(m)),
    }
}

/// The trees of the values of a list.
pub open spec fn value_trees(a: Seq<ValueView>) -> Seq<JsonView>
    decreases a, 0int,
{
    Seq::new(
        a.len(),
        |i: int|
            if 0 <= i < a.len() {
                value_tree(a[i])
            } else {
                JsonView::Null
            },
    )
}

/// The members that the entries of a map become: one for each, in order.
pub open spec fn entry_trees(m: Entries) -> Members
    decreases m, 0int,
{
    Seq::new(
        m.len(),
        |i: int|
            if 0 <= i < m.len() {
                (m[i].0, value_tree(m[i].1))
            } else {
                (Seq::empty(), JsonView::Null)
            },
    )
}

/// The tree of an array value: an object whose member `values` holds the
/// elements; the member is left out where there are none.
pub open spec fn array_tree(a: Seq<ValueView>) -> JsonView
    decreases a, 1int,
{
    JsonView::Object(
        with(
            Seq::empty(),
            "values"@,
            if a.len() > 0 {
                Some(JsonView::Array(value_trees(a)))
            } else {
                None
            },
        ),
    )
}

/// The tree of a map value: an object whose member `fields` holds one member
/// for each entry; the member is left out where there are none.
pub open spec fn map_tree(m: Entries) -> JsonView
    decreases m, 1int,
{
    JsonView::Object(
        with(
            Seq::empty(),
            "fields"@,
            if m.len() > 0 {
                Some(JsonView::Object(entry_trees(m)))
            } else {
                None
            },
        ),
    )
}

/// How many of the eleven kinds of value the object names.
pub open spec fn variants(m: Members) -> int {
    has(m, "nullValue"@) + has(m, "booleanValue"@) + has(m, "integerValue"@) + has(
        m,
        "doubleValue"@,
    ) + has(m, "timestampValue"@) + has(m, "stringValue"@) + has(m, "bytesValue"@) + has(
        m,
        "referenceValue"@,
    ) + has(m, "geoPointValue"@) + has(m, "arrayValue"@) + has(m, "mapValue"@)
}

/// The characters of a payload that has to be a string.
pub open spec fn string_payload(p: JsonView) -> Result<Seq<char>, Error> {
    match p {
        JsonView::String(s) => Ok(s),
        _ => Err(Error::MalformedValue),
    }
}

/// The value that an object stands for which names one kind of value, and
/// neither an array nor a map.
pub open spec fn scalar_decode(m: Members) -> Result<ValueView, Error> {
    match lookup(m, "nullValue"@) {
        Some(p) => match p {
            JsonView::Null => Ok(ValueView::Null),
            _ => Err(Error::MalformedValue),
        },
        None => match lookup(m, "booleanValue"@) {
            Some(p) => match p {
                JsonView::Bool(b) => Ok(ValueView::Boolean(b)),
                _ => Err(Error::MalformedValue),
            },
            None => match lookup(m, "integerValue"@) {
                Some(p) => match p {
                    JsonView::String(s) => match parse_decimal(
                        s,
                        i64::MIN as int,
                        i64::MAX as int,
                    ) {
                        Some(i) => Ok(ValueView::Integer(i as i64)),
                        None => Err(Error::MalformedValue),
                    },
                    _ => Err(Error::MalformedValue),
                },
                None => match lookup(m, "doubleValue"@) {
                    Some(p) => match DoubleView::decode(p) {
                        Ok(d) => Ok(ValueView::Double(d)),
                        Err(e) => Err(e),
                    },
                    None => opaque_decode(m),
                },
            },
        },
    }
}

/// The value that a tree stands for. The tree has to be an object that names
/// exactly one kind of value, with a payload of that kind; any other member
/// is passed over.
pub open spec fn value_decode(j: JsonView) -> Result<ValueView, Error>
    decreases j,
{
    match j {
        JsonView::Object(m) => {
            let ia = position(m, "arrayValue"@);
            let im = position(m, "mapValue"@);
            if variants(m) != 1 {
                Err(Error::MalformedValue)
            } else if 0 <= ia < m.len() {
                match array_decode(m[ia].1) {
                    Ok(a) => Ok(ValueView::Array(a)),
                    Err(e) => Err(e),
                }
            } else if 0 <= im < m.len() {
                match map_decode(m[im].1) {
                    Ok(e) => Ok(ValueView::Mapping(e)),
                    Err(e) => Err(e),
                }
            } else {
                scalar_decode(m)
            }
        },
        _ => Err(Error::MalformedValue),
    }
}

/// The values that the first `n` trees of a list stand for, or the first
/// error among them.
pub open spec fn values_decode(a: Seq<JsonView>, n: int) -> Result<Seq<ValueView>, Error>
    decreases a, n,
{
    if n <= 0 || n > a.len() {
        Ok(Seq::empty())
    } else {
        match values_decode(a, n - 1) {
            Err(e) => Err(e),
            Ok(before) => match value_decode(a[n - 1]) {
                Err(e) => Err(e),
                Ok(v) => Ok(before.push(v)),
            },
        }
    }
}

/// The elements that the tree of an array value stands for.
pub open spec fn array_decode(j: JsonView) -> Result<Seq<ValueView>, Error>
    decreases j,
{
    match j {
        JsonView::Object(m) => {
            let i = position(m, "values"@);
            if 0 <= i < m.len() {
                match m[i].1 {
                    JsonView::Array(a) => values_decode(a, a.len() as int),
                    _ => Err(Error::MalformedValue),
                }
            } else {
                Ok(Seq::empty())
            }
        },
        _ => Err(Error::MalformedValue),
    }
}

/// The map that the first `n` members of an object stand for: each member is
/// put into the map in turn, so that of two members of one name the later
/// counts. A name that no map may hold is an error.
pub open spec fn fields_decode(m: Members, n: int) -> Result<Entries, Error>
    decreases m, n,
{
    if n <= 0 || n > m.len() {
        Ok(Seq::empty())
    } else {
        match fields_decode(m, n - 1) {
            Err(e) => Err(e),
            Ok(before) => if !valid_key(m[n - 1].0) {
                Err(Error::MalformedValue)
            } else {
                match value_decode(m[n - 1].1) {
                    Err(e) => Err(e),
                    Ok(v) => Ok(put_entry(before, m[n - 1].0, v)),
                }
            },
        }
    }
}

/// The entries that the tree of a map value stands for.
pub open spec fn map_decode(j: JsonView) -> Result<Entries, Error>
    decreases j,
{
    match j {
        JsonView::Object(m) => {
            let i = position(m, "fields"@);
            if 0 <= i < m.len() {
                match m[i].1 {
                    JsonView::Object(f) => fields_decode(f, f.len() as int),
                    _ => Err(Error::MalformedValue),
                }
            } else {
                Ok(Seq::empty())
            }
        },
        _ => Err(Error::MalformedValue),
    }
}

impl ValueView {
    /// Whether the value may be sent.
    pub open spec fn valid(self) -> bool {
        valid_value(self)
    }

    /// `MalformedValue` where the value may not be sent.
    pub open spec fn check(self) -> Result<(), Error> {
        if valid_value(self) {
            Ok(())
        } else {
            Err(Error::MalformedValue)
        }
    }

    /// The tree that the value is sent as.
    pub open spec fn tree(self) -> JsonView {
        value_tree(self)
    }

    /// What sending the value gives: its tree, or `MalformedValue` where it
    /// may not be sent.
    pub open spec fn encode(self) -> Result<JsonView, Error> {
        encoding(self.check(), self.tree())
    }

    /// The value that a tree stands for.
    pub open spec fn decode(j: JsonView) -> Result<ValueView, Error> {
        value_decode(j)
    }
}

/// What sending an array value gives.
pub open spec fn array_encode(a: Seq<ValueView>) -> Result<JsonView, Error> {
    if valid_values(a) {
        Ok(array_tree(a))
    } else {
        Err(Error::MalformedValue)
    }
}

/// What sending a map value gives.
pub open spec fn map_encode(m: Entries) -> Result<JsonView, Error> {
    if valid_entries(m) {
        Ok(map_tree(m))
    } else {
        Err(Error::MalformedValue)
    }
}

fn key_ok(k: &str) -> (r: bool)
    ensures
        r == valid_key(k@),
{
    let bytes = k.as_bytes();
    !k.is_empty() && bytes.len() <= 1500
}

impl Double {
    /// Whether the number may be sent.
    pub fn is_valid(&self) -> (r: bool)
        ensures
            r == self@.valid(),
    {
        match self {
            Double::Finite(l) => is_number(l.as_str()),
            _ => true,
        }
    }

    fn tree(&self) -> (j: Json)
        ensures
            j@ == self@.tree(),
    {
        match self {
            Double::Nan => Json::String(String::from_str("NaN")),
            Double::Infinity => Json::String(String::from_str("Infinity")),
            Double::NegInfinity => Json::String(String::from_str("-Infinity")),
            Double::Finite(l) => Json::Number(l.clone()),
        }
    }

    /// The tree that the number is sent as, or `MalformedValue` where it
    /// holds no number literal.
    fn write(&self) -> (r: Result<Json, Error>)
        ensures
            yields(r, self@.encode()),
    {
        if self.is_valid() {
            Ok(self.tree())
        } else {
            Err(Error::MalformedValue)
        }
    }

    /// The number that a tree stands for: a number literal, or one of the
    /// strings `NaN`, `Infinity` and `-Infinity`.
    fn read(j: &Json) -> (r: Result<Double, Error>)
        ensures
            yields(r, DoubleView::decode(j@)),
    {
        match j {
            Json::Number(l) => {
                if is_number(l.as_str()) {
                    Ok(Double::Finite(l.clone()))
                } else {
                    Err(Error::MalformedValue)
                }
            },
            Json::String(s) => {
                if same_text(s.as_str(), "NaN") {
                    Ok(Double::Nan)
                } else if same_text(s.as_str(), "Infinity") {
                    Ok(Double::Infinity)
                } else if same_text(s.as_str(), "-Infinity") {
                    Ok(Double::NegInfinity)
                } else {
                    Err(Error::MalformedValue)
                }
            },
            _ => Err(Error::MalformedValue),
        }
    }
}

fn coordinate_ok(c: &Option<Double>, bound: u32) -> (r: bool)
    ensures
        r == coordinate_valid(opt_view(*c), bound as nat),
{
    match c {
        None => true,
        Some(Double::Finite(l)) => literal_within(l.as_str(), bound),
        Some(_) => false,
    }
}

fn coordinate_from(j: Option<&Json>, bound: u32) -> (r: Result<Option<Double>, Error>)
    ensures
        match r {
            Ok(c) => coordinate_decode(crate::json::view_of(j), bound as nat) == Ok::<
                Option<DoubleView>,
                Error,
            >(opt_view(c)),
            Err(e) => coordinate_decode(crate::json::view_of(j), bound as nat) == Err::<
                Option<DoubleView>,
                Error,
            >(e),
        },
{
    match j {
        None => Ok(None),
        Some(Json::Number(l)) => {
            if literal_within(l.as_str(), bound) {
                Ok(Some(Double::Finite(l.clone())))
            } else {
                Err(Error::MalformedValue)
            }
        },
        Some(_) => Err(Error::MalformedValue),
    }
}

impl LatLng {
    /// Whether the point may be sent: each coordinate that it holds is a
    /// finite number in its range.
    pub fn is_valid(&self) -> (r: bool)
        ensures
            r == self@.valid(),
    {
        coordinate_ok(&self.latitude, 90) && coordinate_ok(&self.longitude, 180)
    }

    fn tree(&self) -> (j: Json)
        ensures
            j@ == self@.tree(),
    {
        let mut m: Vec<(String, Json)> = Vec::new();
        assert(members_view(m@) =~= Seq::<(Seq<char>, JsonView)>::empty());
        match &self.latitude {
            Some(d) => {
                put(&mut m, "latitude", d.tree());
            },
            None => {},
        }
        match &self.longitude {
            Some(d) => {
                put(&mut m, "longitude", d.tree());
            },
            None => {},
        }
        Json::Object(m)
    }

    /// The tree that the point is sent as, or `MalformedValue` where it may
    /// not be sent.
    fn write(&self) -> (r: Result<Json, Error>)
        ensures
            yields(r, self@.encode()),
    {
        if self.is_valid() {
            Ok(self.tree())
        } else {
            Err(Error::MalformedValue)
        }
    }

    /// The point that a tree stands for.
    fn read(j: &Json) -> (r: Result<LatLng, Error>)
        ensures
            yields(r, LatLngView::decode(j@)),
    {
        match j {
            Json::Object(_) => {
                let latitude = match coordinate_from(j.member("latitude"), 90) {
                    Ok(c) => c,
                    Err(e) => {
                        return Err(e);
                    },
                };
                let longitude = match coordinate_from(j.member("longitude"), 180) {
                    Ok(c) => c,
                    Err(e) => {
                        return Err(e);
                    },
                };
                Ok(LatLng { latitude: latitude, longitude: longitude })
            },
            _ => Err(Error::MalformedValue),
        }
    }
}

fn check_value(v: &Value) -> (r: bool)
    ensures
        r == valid_value(v@),
    decreases v,
{
    match v {
        Value::Unset => false,
        Value::Double(d) => d.is_valid(),
        Value::GeoPoint(g) => g.is_valid(),
        Value::Array(a) => check_values(&a.values),
        Value::Mapping(m) => {
            proof {
                use_type_invariant(m);
            }
            check_entries(&m.entries)
        },
        _ => true,
    }
}

fn check_values(a: &Vec<Value>) -> (r: bool)
    ensures
        r == valid_values(values_view(a@)),
    decreases a,
{
    let mut i: usize = 0;
    while i < a.len()
        invariant
            i <= a.len(),
            forall|k: int| 0 <= k < i ==> valid_value(#[trigger] values_view(a@)[k]),
        decreases a.len() - i,
    {
        if !check_value(&a[i]) {
            assert(!valid_value(values_view(a@)[i as int]));
            return false;
        }
        i = i + 1;
    }
    true
}

fn check_entries(a: &Vec<(String, Value)>) -> (r: bool)
    requires
        sorted(entries_view(a@)),
    ensures
        r == valid_entries(entries_view(a@)),
    decreases a,
{
    let mut i: usize = 0;
    while i < a.len()
        invariant
            i <= a.len(),
            forall|k: int|
                0 <= k < i ==> valid_key((#[trigger] entries_view(a@)[k]).0) && valid_value(
                    entries_view(a@)[k].1,
                ),
        decreases a.len() - i,
    {
        if !key_ok(a[i].0.as_str()) || !check_value(&a[i].1) {
            assert(!(valid_key(entries_view(a@)[i as int].0) && valid_value(
                entries_view(a@)[i as int].1,
            )));
            return false;
        }
        i = i + 1;
    }
    true
}

fn build_value(v: &Value) -> (j: Json)
    ensures
        j@ == value_tree(v@),
    decreases v,
{
    match v {
        Value::Unset => {
            let m: Vec<(String, Json)> = Vec::new();
            assert(members_view(m@) =~= Seq::<(Seq<char>, JsonView)>::empty());
            Json::Object(m)
        },
        Value::Null => single_member("nullValue", Json::Null),
        Value::Boolean(b) => single_member("booleanValue", Json::Bool(*b)),
        Value::Integer(i) => single_member("integerValue", Json::String(i64_to_decimal(*i))),
        Value::Double(d) => single_member("doubleValue", d.tree()),
        Value::Timestamp(s) => single_member("timestampValue", Json::String(s.clone())),
        Value::String(s) => single_member("stringValue", Json::String(s.clone())),
        Value::Bytes(s) => single_member("bytesValue", Json::String(s.clone())),
        Value::Reference(s) => single_member("referenceValue", Json::String(s.clone())),
        Value::GeoPoint(g) => single_member("geoPointValue", g.tree()),
        Value::Array(a) => single_member("arrayValue", build_array(&a.values)),
        Value::Mapping(m) => single_member("mapValue", build_map(&m.entries)),
    }
}

fn build_values(a: &Vec<Value>) -> (r: Vec<Json>)
    ensures
        jsons_view(r@) == value_trees(values_view(a@)),
    decreases a, 0int,
{
    let mut r: Vec<Json> = Vec::new();
    let mut i: usize = 0;
    while i < a.len()
        invariant
            i <= a.len(),
            r.len() == i,
            forall|k: int|
                #![trigger values_view(a@)[k]]
                0 <= k < i ==> jsons_view(r@)[k] == value_tree(values_view(a@)[k]),
        decreases a.len() - i,
    {
        r.push(build_value(&a[i]));
        i = i + 1;
    }
    assert(jsons_view(r@) =~= value_trees(values_view(a@)));
    r
}

fn build_entries(a: &Vec<(String, Value)>) -> (r: Vec<(String, Json)>)
    ensures
        members_view(r@) == entry_trees(entries_view(a@)),
    decreases a, 0int,
{
    let mut r: Vec<(String, Json)> = Vec::new();
    let mut i: usize = 0;
    while i < a.len()
        invariant
            i <= a.len(),
            r.len() == i,
            forall|k: int|
                #![trigger entries_view(a@)[k]]
                0 <= k < i ==> members_view(r@)[k] == (
                    entries_view(a@)[k].0,
                    value_tree(entries_view(a@)[k].1),
                ),
        decreases a.len() - i,
    {
        r.push((a[i].0.clone(), build_value(&a[i].1)));
        i = i + 1;
    }
    assert(members_view(r@) =~= entry_trees(entries_view(a@)));
    r
}

fn build_array(a: &Vec<Value>) -> (j: Json)
    ensures
        j@ == array_tree(values_view(a@)),
    decreases a, 1int,
{
    let mut m: Vec<(String, Json)> = Vec::new();
    assert(members_view(m@) =~= Seq::<(Seq<char>, JsonView)>::empty());
    if a.len() > 0 {
        put(&mut m, "values", Json::Array(build_values(a)));
    }
    Json::Object(m)
}

fn build_map(a: &Vec<(String, Value)>) -> (j: Json)
    ensures
        j@ == map_tree(entries_view(a@)),
    decreases a, 1int,
{
    let mut m: Vec<(String, Json)> = Vec::new();
    assert(members_view(m@) =~= Seq::<(Seq<char>, JsonView)>::empty());
    if a.len() > 0 {
        put(&mut m, "fields", Json::Object(build_entries(a)));
    }
    Json::Object(m)
}

fn has_member(m: &Vec<(String, Json)>, key: &str) -> (r: usize)
    ensures
        r == has(members_view(m@), key@),
{
    match find(m, key) {
        Some(_) => 1,
        None => 0,
    }
}

fn count_variants(m: &Vec<(String, Json)>) -> (r: usize)
    ensures
        r == variants(members_view(m@)),
{
    has_member(m, "nullValue") + has_member(m, "booleanValue") + has_member(m, "integerValue")
        + has_member(m, "doubleValue") + has_member(m, "timestampValue") + has_member(
        m,
        "stringValue",
    ) + has_member(m, "bytesValue") + has_member(m, "referenceValue") + has_member(
        m,
        "geoPointValue",
    ) + has_member(m, "arrayValue") + has_member(m, "mapValue")
}

fn string_from(j: &Json) -> (r: Result<String, Error>)
    ensures
        match r {
            Ok(s) => string_payload(j@) == Ok::<Seq<char>, Error>(s@),
            Err(e) => string_payload(j@) == Err::<Seq<char>, Error>(e),
        },
{
    match j {
        Json::String(s) => Ok(s.clone()),
        _ => Err(Error::MalformedValue),
    }
}

fn decode_scalar(m: &Vec<(String, Json)>) -> (r: Result<Value, Error>)
    ensures
        yields(r, scalar_decode(members_view(m@))),
{
    match find(m, "nullValue") {
        Some(i) => {
            return match &m[i].1 {
                Json::Null => Ok(Value::Null),
                _ => Err(Error::MalformedValue),
            };
        },
        None => {},
    }
    match find(m, "booleanValue") {
        Some(i) => {
            return match &m[i].1 {
                Json::Bool(b) => Ok(Value::Boolean(*b)),
                _ => Err(Error::MalformedValue),
            };
        },
        None => {},
    }
    match find(m, "integerValue") {
        Some(i) => {
            return match &m[i].1 {
                Json::String(s) => match parse_i64(s.as_str()) {
                    Some(v) => Ok(Value::Integer(v)),
                    None => Err(Error::MalformedValue),
                },
                _ => Err(Error::MalformedValue),
            };
        },
        None => {},
    }
    match find(m, "doubleValue") {
        Some(i) => {
            return match Double::read(&m[i].1) {
                Ok(d) => Ok(Value::Double(d)),
                Err(e) => Err(e),
            };
        },
        None => {},
    }
    decode_opaque(m)
}

/// The value that an object stands for which names one kind of value, among
/// the kinds that are carried as they are: timestamps, strings, bytes,
/// references and points.
pub open spec fn opaque_decode(m: Members) -> Result<ValueView, Error> {
    match lookup(m, "timestampValue"@) {
        Some(p) => match string_payload(p) {
            Ok(s) => Ok(ValueView::Timestamp(s)),
            Err(e) => Err(e),
        },
        None => match lookup(m, "stringValue"@) {
            Some(p) => match string_payload(p) {
                Ok(s) => Ok(ValueView::String(s)),
                Err(e) => Err(e),
            },
            None => match lookup(m, "bytesValue"@) {
                Some(p) => match string_payload(p) {
                    Ok(s) => Ok(ValueView::Bytes(s)),
                    Err(e) => Err(e),
                },
                None => match lookup(m, "referenceValue"@) {
                    Some(p) => match string_payload(p) {
                        Ok(s) => Ok(ValueView::Reference(s)),
                        Err(e) => Err(e),
                    },
                    None => match lookup(m, "geoPointValue"@) {
                        Some(p) => match LatLngView::decode(p) {
                            Ok(g) => Ok(ValueView::GeoPoint(g)),
                            Err(e) => Err(e),
                        },
                        None => Err(Error::MalformedValue),
                    },
                },
            },
        },
    }
}

fn decode_opaque(m: &Vec<(String, Json)>) -> (r: Result<Value, Error>)
    ensures
        yields(r, opaque_decode(members_view(m@))),
{
    match find(m, "timestampValue") {
        Some(i) => {
            return match string_from(&m[i].1) {
                Ok(s) => Ok(Value::Timestamp(s)),
                Err(e) => Err(e),
            };
        },
        None => {},
    }
    match find(m, "stringValue") {
        Some(i) => {
            return match string_from(&m[i].1) {
                Ok(s) => Ok(Value::String(s)),
                Err(e) => Err(e),
            };
        },
        None => {},
    }
    match find(m, "bytesValue") {
        Some(i) => {
            return match string_from(&m[i].1) {
                Ok(s) => Ok(Value::Bytes(s)),
                Err(e) => Err(e),
            };
        },
        None => {},
    }
    match find(m, "referenceValue") {
        Some(i) => {
            return match string_from(&m[i].1) {
                Ok(s) => Ok(Value::Reference(s)),
                Err(e) => Err(e),
            };
        },
        None => {},
    }
    match find(m, "geoPointValue") {
        Some(i) => {
            return match LatLng::read(&m[i].1) {
                Ok(g) => Ok(Value::GeoPoint(g)),
                Err(e) => Err(e),
            };
        },
        None => {},
    }
    Err(Error::MalformedValue)
}

fn decode_value(j: &Json) -> (r: Result<Value, Error>)
    ensures
        yields(r, value_decode(j@)),
    decreases j,
{
    match j {
        Json::Object(m) => {
            if count_variants(m) != 1 {
                return Err(Error::MalformedValue);
            }
            match find(m, "arrayValue") {
                Some(i) => {
                    return match decode_array(&m[i].1) {
                        Ok(values) => Ok(Value::Array(ArrayValue { values: values })),
                        Err(e) => Err(e),
                    };
                },
                None => {},
            }
            match find(m, "mapValue") {
                Some(i) => {
                    return match decode_map(&m[i].1) {
                        Ok(map) => Ok(Value::Mapping(map)),
                        Err(e) => Err(e),
                    };
                },
                None => {},
            }
            decode_scalar(m)
        },
        _ => Err(Error::MalformedValue),
    }
}

fn decode_values(a: &Vec<Json>) -> (r: Result<Vec<Value>, Error>)
    ensures
        match r {
            Ok(v) => values_decode(jsons_view(a@), a.len() as int) == Ok::<Seq<ValueView>, Error>(
                values_view(v@),
            ),
            Err(e) => values_decode(jsons_view(a@), a.len() as int) == Err::<Seq<ValueView>, Error>(
                e,
            ),
        },
    decreases a,
{
    let mut r: Vec<Value> = Vec::new();
    let mut i: usize = 0;
    assert(values_view(r@) =~= Seq::<ValueView>::empty());
    while i < a.len()
        invariant
            i <= a.len(),
            values_decode(jsons_view(a@), i as int) == Ok::<Seq<ValueView>, Error>(values_view(r@)),
        decreases a.len() - i,
    {
        let ghost before = values_view(r@);
        match decode_value(&a[i]) {
            Ok(v) => {
                r.push(v);
                assert(values_view(r@) =~= before.push(v@));
            },
            Err(e) => {
                proof {
                    lemma_values_decode_error(jsons_view(a@), i + 1, a.len() as int);
                }
                return Err(e);
            },
        }
        i = i + 1;
    }
    Ok(r)
}

/// Once the trees of a list have given an error, more of them give the same.
pub proof fn lemma_values_decode_error(a: Seq<JsonView>, n: int, k: int)
    requires
        0 <= n <= k <= a.len(),
        values_decode(a, n) is Err,
    ensures
        values_decode(a, k) == values_decode(a, n),
    decreases k - n,
{
    if n < k {
        lemma_values_decode_error(a, n, k - 1);
    }
}

/// Once the members of an object have given an error, more of them give the
/// same.
pub proof fn lemma_fields_decode_error(m: Members, n: int, k: int)
    requires
        0 <= n <= k <= m.len(),
        fields_decode(m, n) is Err,
    ensures
        fields_decode(m, k) == fields_decode(m, n),
    decreases k - n,
{
    if n < k {
        lemma_fields_decode_error(m, n, k - 1);
    }
}

fn decode_array(j: &Json) -> (r: Result<Vec<Value>, Error>)
    ensures
        match r {
            Ok(v) => array_decode(j@) == Ok::<Seq<ValueView>, Error>(values_view(v@)),
            Err(e) => array_decode(j@) == Err::<Seq<ValueView>, Error>(e),
        },
    decreases j,
{
    match j {
        Json::Object(m) => match find(m, "values") {
            Some(i) => match &m[i].1 {
                Json::Array(a) => decode_values(a),
                _ => Err(Error::MalformedValue),
            },
            None => {
                let r: Vec<Value> = Vec::new();
                assert(values_view(r@) =~= Seq::<ValueView>::empty());
                Ok(r)
            },
        },
        _ => Err(Error::MalformedValue),
    }
}

fn decode_fields(m: &Vec<(String, Json)>) -> (r: Result<MapValue, Error>)
    ensures
        match r {
            Ok(v) => fields_decode(members_view(m@), m.len() as int) == Ok::<Entries, Error>(v@),
            Err(e) => fields_decode(members_view(m@), m.len() as int) == Err::<Entries, Error>(e),
        },
    decreases m,
{
    let mut r = MapValue::new();
    let mut i: usize = 0;
    while i < m.len()
        invariant
            i <= m.len(),
            fields_decode(members_view(m@), i as int) == Ok::<Entries, Error>(r@),
        decreases m.len() - i,
    {
        if !key_ok(m[i].0.as_str()) {
            proof {
                lemma_fields_decode_error(members_view(m@), i + 1, m.len() as int);
            }
            return Err(Error::MalformedValue);
        }
        match decode_value(&m[i].1) {
            Ok(v) => {
                r = r.with_entry(m[i].0.clone(), v);
            },
            Err(e) => {
                proof {
                    lemma_fields_decode_error(members_view(m@), i + 1, m.len() as int);
                }
                return Err(e);
            },
        }
        i = i + 1;
    }
    Ok(r)
}

fn decode_map(j: &Json) -> (r: Result<MapValue, Error>)
    ensures
        match r {
            Ok(v) => map_decode(j@) == Ok::<Entries, Error>(v@),
            Err(e) => map_decode(j@) == Err::<Entries, Error>(e),
        },
    decreases j,
{
    match j {
        Json::Object(m) => match find(m, "fields") {
            Some(i) => match &m[i].1 {
                Json::Object(f) => decode_fields(f),
                _ => Err(Error::MalformedValue),
            },
            None => Ok(MapValue::new()),
        },
        _ => Err(Error::MalformedValue),
    }
}

impl Value {
    /// Whether the value may be sent.
    pub fn is_valid(&self) -> (r: bool)
        ensures
            r == self@.valid(),
    {
        check_value(self)
    }

    /// The tree that the value is sent as, or `MalformedValue` where the
    /// value, or a value inside it, may not be sent.
    fn write(&self) -> (r: Result<Json, Error>)
        ensures
            yields(r, self@.encode()),
    {
        if check_value(self) {
            Ok(build_value(self))
        } else {
            Err(Error::MalformedValue)
        }
    }

    /// The value that a tree stands for, or `MalformedValue` where it stands
    /// for none.
    fn read(j: &Json) -> (r: Result<Value, Error>)
        ensures
            yields(r, ValueView::decode(j@)),
    {
        decode_value(j)
    }
}

impl ArrayValue {
    /// Whether every element may be sent.
    pub fn is_valid(&self) -> (r: bool)
        ensures
            r == valid_values(self@),
    {
        check_values(&self.values)
    }

    /// The tree that the array is sent as.
    fn write(&self) -> (r: Result<Json, Error>)
        ensures
            yields(r, array_encode(self@)),
    {
        if check_values(&self.values) {
            Ok(build_array(&self.values))
        } else {
            Err(Error::MalformedValue)
        }
    }

    /// The array that a tree stands for.
    fn read(j: &Json) -> (r: Result<ArrayValue, Error>)
        ensures
            yields(r, array_decode(j@)),
    {
        match decode_array(j) {
            Ok(values) => Ok(ArrayValue { values: values }),
            Err(e) => Err(e),
        }
    }
}

impl MapValue {
    /// Whether every name is a field name and every value may be sent.
    pub fn is_valid(&self) -> (r: bool)
        ensures
            r == valid_entries(self@),
    {
        proof {
            use_type_invariant(self);
        }
        check_entries(&self.entries)
    }

    /// The tree that the map is sent as.
    fn write(&self) -> (r: Result<Json, Error>)
        ensures
            match r {
                Ok(j) => map_encode(self@) == Ok::<JsonView, Error>(j@),
                Err(e) => map_encode(self@) == Err::<JsonView, Error>(e),
            },
    {
        if self.is_valid() {
            Ok(build_map(&self.entries))
        } else {
            Err(Error::MalformedValue)
        }
    }

    /// The map that a tree stands for.
    fn read(j: &Json) -> (r: Result<MapValue, Error>)
        ensures
            match r {
                Ok(v) => map_decode(j@) == Ok::<Entries, Error>(v@),
                Err(e) => map_decode(j@) == Err::<Entries, Error>(e),
            },
    {
        decode_map(j)
    }
}

/// The names of the eleven kinds of value differ from one another.
pub proof fn lemma_value_keys()
    ensures
        "nullValue"@.len() == 9 && "nullValue"@[0] == 'n',
        "booleanValue"@.len() == 12 && "booleanValue"@[0] == 'b',
        "integerValue"@.len() == 12 && "integerValue"@[0] == 'i',
        "doubleValue"@.len() == 11 && "doubleValue"@[0] == 'd',
        "timestampValue"@.len() == 14 && "timestampValue"@[0] == 't',
        "stringValue"@.len() == 11 && "stringValue"@[0] == 's',
        "bytesValue"@.len() == 10 && "bytesValue"@[0] == 'b',
        "referenceValue"@.len() == 14 && "referenceValue"@[0] == 'r',
        "geoPointValue"@.len() == 13 && "geoPointValue"@[0] == 'g',
        "arrayValue"@.len() == 10 && "arrayValue"@[0] == 'a',
        "mapValue"@.len() == 8 && "mapValue"@[0] == 'm',
{
    reveal_strlit("nullValue");
    reveal_strlit("booleanValue");
    reveal_strlit("integerValue");
    reveal_strlit("doubleValue");
    reveal_strlit("timestampValue");
    reveal_strlit("stringValue");
    reveal_strlit("bytesValue");
    reveal_strlit("referenceValue");
    reveal_strlit("geoPointValue");
    reveal_strlit("arrayValue");
    reveal_strlit("mapValue");
}

/// A number that may be sent is read back from its tree.
pub proof fn lemma_double_round_trip(d: DoubleView)
    requires
        d.valid(),
    ensures
        DoubleView::decode(d.tree()) == Ok::<DoubleView, Error>(d),
{
    reveal_strlit("NaN");
    reveal_strlit("Infinity");
    reveal_strlit("-Infinity");
    assert("NaN"@.len() == 3 && "Infinity"@.len() == 8 && "-Infinity"@.len() == 9);
}

/// A point that may be sent is read back from its tree.
pub proof fn lemma_lat_lng_round_trip(g: LatLngView)
    requires
        g.valid(),
    ensures
        LatLngView::decode(g.tree()) == Ok::<LatLngView, Error>(g),
{
    reveal_strlit("latitude");
    reveal_strlit("longitude");
    assert("latitude"@.len() == 8 && "longitude"@.len() == 9);
    let none = Seq::<(Seq<char>, JsonView)>::empty();
    let first = with(none, "latitude"@, coordinate_tree(g.latitude));
    lemma_lookup_with(none, "latitude"@, coordinate_tree(g.latitude), "latitude"@);
    lemma_lookup_with(none, "latitude"@, coordinate_tree(g.latitude), "longitude"@);
    lemma_lookup_with(first, "longitude"@, coordinate_tree(g.longitude), "latitude"@);
    lemma_lookup_with(first, "longitude"@, coordinate_tree(g.longitude), "longitude"@);
    assert(lookup(none, "latitude"@) is None && lookup(none, "longitude"@) is None);
}

/// Putting an entry whose name comes after every name of the map appends it.
pub proof fn lemma_put_last(m: Entries, key: Seq<char>, value: ValueView)
    requires
        forall|j: int| 0 <= j < m.len() ==> str_lt(#[trigger] m[j].0, key),
    ensures
        put_entry(m, key, value) == m.push((key, value)),
{
    lemma_rank_from(m, key, 0);
    assert(rank(m, key) == m.len());
    assert(m.insert(m.len() as int, (key, value)) =~= m.push((key, value)));
}

/// Round trip: a value that may be sent is read back from its tree, whatever
/// the depth to which arrays and maps nest in it.
pub proof fn lemma_value_round_trip(v: ValueView)
    requires
        valid_value(v),
    ensures
        value_decode(value_tree(v)) == Ok::<ValueView, Error>(v),
    decreases v,
{
    lemma_value_keys();
    match v {
        ValueView::Unset => {},
        ValueView::Null => {
            lemma_single_lookups("nullValue"@, JsonView::Null);
        },
        ValueView::Boolean(b) => {
            lemma_single_lookups("booleanValue"@, JsonView::Bool(b));
        },
        ValueView::Integer(i) => {
            lemma_single_lookups("integerValue"@, JsonView::String(decimal_of(i as int)));
            lemma_decimal_round_trip(i as int, i64::MIN as int, i64::MAX as int);
        },
        ValueView::Double(d) => {
            lemma_single_lookups("doubleValue"@, d.tree());
            lemma_double_round_trip(d);
        },
        ValueView::Timestamp(s) => {
            lemma_single_lookups("timestampValue"@, JsonView::String(s));
        },
        ValueView::String(s) => {
            lemma_single_lookups("stringValue"@, JsonView::String(s));
        },
        ValueView::Bytes(s) => {
            lemma_single_lookups("bytesValue"@, JsonView::String(s));
        },
        ValueView::Reference(s) => {
            lemma_single_lookups("referenceValue"@, JsonView::String(s));
        },
        ValueView::GeoPoint(g) => {
            lemma_single_lookups("geoPointValue"@, g.tree());
            lemma_lat_lng_round_trip(g);
        },
        ValueView::Array(a) => {
            lemma_single_lookups("arrayValue"@, array_tree(a));
            lemma_array_round_trip(a);
        },
        ValueView::Mapping(m) => {
            lemma_single_lookups("mapValue"@, map_tree(m));
            lemma_map_round_trip(m);
        },
    }
}

/// Round trip, in terms of equality: what a value that may be sent is read
/// back as is equal to the value.
pub proof fn lemma_value_round_trip_equal(v: ValueView)
    requires
        valid_value(v),
    ensures
        value_decode(value_tree(v)) is Ok,
        equal_values(value_decode(value_tree(v))->Ok_0, v),
{
    lemma_value_round_trip(v);
    lemma_equal_values_reflexive(v);
}

/// The first `n` values of a list that may be sent are read back from their
/// trees.
pub proof fn lemma_values_round_trip(a: Seq<ValueView>, n: int)
    requires
        valid_values(a),
        0 <= n <= a.len(),
    ensures
        values_decode(value_trees(a), n) == Ok::<Seq<ValueView>, Error>(a.take(n)),
    decreases a, 0int, n,
{
    if n > 0 {
        lemma_values_round_trip(a, n - 1);
        lemma_value_round_trip(a[n - 1]);
        assert(a.take(n - 1).push(a[n - 1]) =~= a.take(n));
    } else {
        assert(a.take(0) =~= Seq::<ValueView>::empty());
    }
}

/// Round trip for arrays: the elements of an array that may be sent are read
/// back from its tree.
pub proof fn lemma_array_round_trip(a: Seq<ValueView>)
    requires
        valid_values(a),
    ensures
        array_decode(array_tree(a)) == Ok::<Seq<ValueView>, Error>(a),
    decreases a, 1int,
{
    reveal_strlit("values");
    if a.len() > 0 {
        let payload = JsonView::Array(value_trees(a));
        assert(with(Seq::empty(), "values"@, Some(payload)) =~= seq![("values"@, payload)]);
        lemma_lookup_single("values"@, payload, "values"@);
        lemma_values_round_trip(a, a.len() as int);
        assert(a.take(a.len() as int) =~= a);
    } else {
        assert(a =~= Seq::<ValueView>::empty());
    }
}

/// The first `n` entries of a map that may be sent are read back from their
/// members.
pub proof fn lemma_fields_round_trip(m: Entries, n: int)
    requires
        valid_entries(m),
        0 <= n <= m.len(),
    ensures
        fields_decode(entry_trees(m), n) == Ok::<Entries, Error>(m.take(n)),
    decreases m, 0int, n,
{
    if n > 0 {
        lemma_fields_round_trip(m, n - 1);
        lemma_value_round_trip(m[n - 1].1);
        let before = m.take(n - 1);
        assert forall|j: int| 0 <= j < before.len() implies str_lt(#[trigger] before[j].0, m[n - 1].0) by {
            assert(before[j] == m[j]);
        }
        lemma_put_last(before, m[n - 1].0, m[n - 1].1);
        assert(before.push(m[n - 1]) =~= m.take(n));
    } else {
        assert(m.take(0) =~= Seq::<(Seq<char>, ValueView)>::empty());
    }
}

/// Round trip for maps: the entries of a map that may be sent are read back
/// from its tree.
pub proof fn lemma_map_round_trip(m: Entries)
    requires
        valid_entries(m),
    ensures
        map_decode(map_tree(m)) == Ok::<Entries, Error>(m),
    decreases m, 1int,
{
    reveal_strlit("fields");
    if m.len() > 0 {
        let payload = JsonView::Object(entry_trees(m));
        assert(with(Seq::empty(), "fields"@, Some(payload)) =~= seq![("fields"@, payload)]);
        lemma_lookup_single("fields"@, payload, "fields"@);
        lemma_fields_round_trip(m, m.len() as int);
        assert(m.take(m.len() as int) =~= m);
    } else {
        assert(m =~= Seq::<(Seq<char>, ValueView)>::empty());
    }
}

impl Wire for Double {
    open spec fn encode(v: DoubleView) -> Result<JsonView, Error> {
        v.encode()
    }

    open spec fn decode(j: JsonView) -> Result<DoubleView, Error> {
        DoubleView::decode(j)
    }

    /// The tree that the number is sent as, or `MalformedValue` where it
    /// holds no number literal.
    fn to_json(&self) -> (r: Result<Json, Error>) {
        self.write()
    }

    /// The number that a tree stands for: a number literal, or one of the
    /// strings `NaN`, `Infinity` and `-Infinity`.
    fn from_json(j: &Json) -> (r: Result<Double, Error>) {
        Double::read(j)
    }

    proof fn lemma_round_trip(v: DoubleView) {
        lemma_double_round_trip(v);
    }

    proof fn lemma_well_formed(v: DoubleView) {
    }
}

impl Wire for LatLng {
    open spec fn encode(v: LatLngView) -> Result<JsonView, Error> {
        v.encode()
    }

    open spec fn decode(j: JsonView) -> Result<LatLngView, Error> {
        LatLngView::decode(j)
    }

    /// The tree that the point is sent as, or `MalformedValue` where a
    /// coordinate is no finite number or lies outside its range.
    fn to_json(&self) -> (r: Result<Json, Error>) {
        self.write()
    }

    /// The point that a tree stands for.
    fn from_json(j: &Json) -> (r: Result<LatLng, Error>) {
        LatLng::read(j)
    }

    proof fn lemma_round_trip(v: LatLngView) {
        lemma_lat_lng_round_trip(v);
    }

    proof fn lemma_well_formed(v: LatLngView) {
        lemma_trees_well_formed();
    }
}

impl Wire for Value {
    open spec fn encode(v: ValueView) -> Result<JsonView, Error> {
        v.encode()
    }

    open spec fn decode(j: JsonView) -> Result<ValueView, Error> {
        value_decode(j)
    }

    /// The tree that the value is sent as, or `MalformedValue` where the
    /// value, or a value inside it, may not be sent.
    fn to_json(&self) -> (r: Result<Json, Error>) {
        self.write()
    }

    /// The value that a tree stands for, or `MalformedValue` where it stands
    /// for none.
    fn from_json(j: &Json) -> (r: Result<Value, Error>) {
        Value::read(j)
    }

    proof fn lemma_round_trip(v: ValueView) {
        lemma_value_round_trip(v);
    }

    proof fn lemma_well_formed(v: ValueView) {
        lemma_value_well_formed(v);
    }
}

impl Wire for ArrayValue {
    open spec fn encode(v: Seq<ValueView>) -> Result<JsonView, Error> {
        array_encode(v)
    }

    open spec fn decode(j: JsonView) -> Result<Seq<ValueView>, Error> {
        array_decode(j)
    }

    /// The tree that the array is sent as, or `MalformedValue` where an
    /// element may not be sent.
    fn to_json(&self) -> (r: Result<Json, Error>) {
        self.write()
    }

    /// The array that a tree stands for.
    fn from_json(j: &Json) -> (r: Result<ArrayValue, Error>) {
        ArrayValue::read(j)
    }

    proof fn lemma_round_trip(v: Seq<ValueView>) {
        lemma_array_round_trip(v);
    }

    proof fn lemma_well_formed(v: Seq<ValueView>) {
        lemma_array_well_formed(v);
    }
}

impl Wire for MapValue {
    open spec fn encode(v: Entries) -> Result<JsonView, Error> {
        map_encode(v)
    }

    open spec fn decode(j: JsonView) -> Result<Entries, Error> {
        map_decode(j)
    }

    /// The tree that the map is sent as, or `MalformedValue` where a name is
    /// no field name or a value may not be sent.
    fn to_json(&self) -> (r: Result<Json, Error>) {
        self.write()
    }

    /// The map that a tree stands for.
    fn from_json(j: &Json) -> (r: Result<MapValue, Error>) {
        MapValue::read(j)
    }

    proof fn lemma_round_trip(v: Entries) {
        lemma_map_round_trip(v);
    }

    proof fn lemma_well_formed(v: Entries) {
        lemma_map_well_formed(v);
    }
}

/// A message without content; it is sent as the empty object.
#[derive(Debug, Clone, Copy, PartialEq, Eq)]
pub struct Empty {
    _never_set: Option<bool>,
}

/// The model of the message without content.
pub ghost struct EmptyView {}

impl View for Empty {
    type V = EmptyView;

    open spec fn view(&self) -> EmptyView {
        EmptyView {  }
    }
}

impl Empty {
    /// The message without content: its one field, which is never set, holds nothing.
    pub fn new() -> (e: Empty)
        ensures
            e@ == (EmptyView {  }),
            e.never_set() is None,
    {
        Empty { _never_set: None }
    }

    /// What the one field of the message holds.
    pub closed spec fn never_set(&self) -> Option<bool> {
        self._never_set
    }
}

impl Wire for Empty {
    open spec fn encode(v: EmptyView) -> Result<JsonView, Error> {
        Ok(JsonView::Object(Seq::empty()))
    }

    open spec fn decode(j: JsonView) -> Result<EmptyView, Error> {
        match j {
            JsonView::Object(_) => Ok(EmptyView {  }),
            _ => Err(Error::MalformedValue),
        }
    }

    /// The empty object.
    fn to_json(&self) -> (r: Result<Json, Error>) {
        let m: Vec<(String, Json)> = Vec::new();
        assert(members_view(m@) =~= Seq::<(Seq<char>, JsonView)>::empty());
        Ok(Json::Object(m))
    }

    /// The message that an object stands for, whatever its members, or
    /// `MalformedValue` where the tree is no object.
    fn from_json(j: &Json) -> (r: Result<Empty, Error>) {
        match j {
            Json::Object(_) => Ok(Empty { _never_set: None }),
            _ => Err(Error::MalformedValue),
        }
    }

    proof fn lemma_round_trip(v: EmptyView) {
    }

    proof fn lemma_well_formed(v: EmptyView) {
    }
}

/// A reserved field name: it starts with two underscores and ends with two.
pub open spec fn is_reserved(k: Seq<char>) -> bool {
    k.len() >= 4 && k[0] == '_' && k[1] == '_' && k[k.len() - 2] == '_' && k[k.len() - 1] == '_'
}

/// A map inside the value, at any depth, holds a reserved name.
pub open spec fn reserved_in_value(v: ValueView) -> bool
    decreases v,
{
    match v {
        ValueView::Array(a) => reserved_in_values(a),
        ValueView::Mapping(m) => reserved_in_entries(m),
        _ => false,
    }
}

/// A map inside one of the values, at any depth, holds a reserved name.
pub open spec fn reserved_in_values(a: Seq<ValueView>) -> bool
    decreases a,
{
    exists|i: int| 0 <= i < a.len() && reserved_in_value(#[trigger] a[i])
}

/// The map holds a reserved name, or a map inside one of its values does.
pub open spec fn reserved_in_entries(m: Entries) -> bool
    decreases m,
{
    exists|i: int|
        0 <= i < m.len() && (is_reserved((#[trigger] m[i]).0) || reserved_in_value(m[i].1))
}

/// Whether `k` is a reserved field name.
pub fn is_reserved_name(k: &str) -> (r: bool)
    ensures
        r == is_reserved(k@),
{
    let c = to_chars(k);
    let n = c.len();
    n >= 4 && c[0] == '_' && c[1] == '_' && c[n - 2] == '_' && c[n - 1] == '_'
}

fn reserved_value(v: &Value) -> (r: bool)
    ensures
        r == reserved_in_value(v@),
    decreases v,
{
    match v {
        Value::Array(a) => reserved_values(&a.values),
        Value::Mapping(m) => reserved_entries(&m.entries),
        _ => false,
    }
}

fn reserved_values(a: &Vec<Value>) -> (r: bool)
    ensures
        r == reserved_in_values(values_view(a@)),
    decreases a,
{
    let mut i: usize = 0;
    while i < a.len()
        invariant
            i <= a.len(),
            forall|k: int| 0 <= k < i ==> !reserved_in_value(#[trigger] values_view(a@)[k]),
        decreases a.len() - i,
    {
        if reserved_value(&a[i]) {
            assert(reserved_in_value(values_view(a@)[i as int]));
            return true;
        }
        i = i + 1;
    }
    false
}

fn reserved_entries(a: &Vec<(String, Value)>) -> (r: bool)
    ensures
        r == reserved_in_entries(entries_view(a@)),
    decreases a,
{
    let mut i: usize = 0;
    while i < a.len()
        invariant
            i <= a.len(),
            forall|k: int|
                0 <= k < i ==> !(is_reserved((#[trigger] entries_view(a@)[k]).0)
                    || reserved_in_value(entries_view(a@)[k].1)),
        decreases a.len() - i,
    {
        if is_reserved_name(a[i].0.as_str()) || reserved_value(&a[i].1) {
            assert(is_reserved(entries_view(a@)[i as int].0) || reserved_in_value(
                entries_view(a@)[i as int].1,
            ));
            return true;
        }
        i = i + 1;
    }
    false
}

impl Value {
    /// Whether a map inside the value, at any depth, holds a reserved name.
    pub fn has_reserved_name(&self) -> (r: bool)
        ensures
            r == reserved_in_value(self@),
    {
        reserved_value(self)
    }
}

impl MapValue {
    /// Whether the map, or a map inside one of its values, holds a reserved
    /// name.
    pub fn has_reserved_name(&self) -> (r: bool)
        ensures
            r == reserved_in_entries(self@),
    {
        reserved_entries(&self.entries)
    }
}

/// What the fields of a document become as a member: one member for each
/// entry. `MalformedValue` where a name is no field name or a value may not
/// be sent; `FieldNameReserved` where a name is reserved, at any depth,
/// unless `system_fields` permits it.
pub open spec fn fields_encode(o: Option<Entries>, system_fields: bool) -> Result<
    Option<JsonView>,
    Error,
> {
    match o {
        None => Ok(None),
        Some(m) => if !valid_entries(m) {
            Err(Error::MalformedValue)
        } else if !system_fields && reserved_in_entries(m) {
            Err(Error::FieldNameReserved)
        } else {
            Ok(Some(JsonView::Object(entry_trees(m))))
        },
    }
}

/// The fields that an optional member stands for.
pub open spec fn fields_member_decode(j: Option<JsonView>) -> Result<Option<Entries>, Error> {
    match j {
        None => Ok(None),
        Some(JsonView::Object(f)) => match fields_decode(f, f.len() as int) {
            Ok(m) => Ok(Some(m)),
            Err(e) => Err(e),
        },
        Some(_) => Err(Error::MalformedValue),
    }
}

/// Round trip for the fields of a document.
pub proof fn lemma_fields_member_round_trip(o: Option<Entries>, system_fields: bool)
    requires
        fields_encode(o, system_fields) is Ok,
    ensures
        fields_member_decode(fields_encode(o, system_fields)->Ok_0) == Ok::<Option<Entries>, Error>(
            o,
        ),
{
    if let Some(m) = o {
        lemma_fields_round_trip(m, m.len() as int);
        assert(m.take(m.len() as int) =~= m);
        assert(entry_trees(m).len() == m.len());
    }
}

/// The member that the fields of a document become.
pub fn write_fields(o: &Option<MapValue>, system_fields: bool) -> (r: Result<Option<Json>, Error>)
    ensures
        match r {
            Ok(j) => fields_encode(opt_view(*o), system_fields) == Ok::<Option<JsonView>, Error>(
                crate::json::view_opt(j),
            ),
            Err(e) => fields_encode(opt_view(*o), system_fields) == Err::<Option<JsonView>, Error>(
                e,
            ),
        },
{
    match o {
        None => Ok(None),
        Some(m) => {
            if !m.is_valid() {
                Err(Error::MalformedValue)
            } else if !system_fields && m.has_reserved_name() {
                Err(Error::FieldNameReserved)
            } else {
                Ok(Some(Json::Object(build_entries(&m.entries))))
            }
        },
    }
}

/// The fields that an optional member stands for.
pub fn read_fields(j: Option<&Json>) -> (r: Result<Option<MapValue>, Error>)
    ensures
        match r {
            Ok(m) => fields_member_decode(crate::json::view_of(j)) == Ok::<Option<Entries>, Error>(
                opt_view(m),
            ),
            Err(e) => fields_member_decode(crate::json::view_of(j)) == Err::<Option<Entries>, Error>(
                e,
            ),
        },
{
    match j {
        None => Ok(None),
        Some(Json::Object(f)) => match decode_fields(f) {
            Ok(m) => Ok(Some(m)),
            Err(e) => Err(e),
        },
        Some(_) => Err(Error::MalformedValue),
    }
}

/// The value that the bits of a double-precision number stand for, where it
/// is not finite: all bits of the exponent are set; with the rest of the
/// bits clear it is an infinity, of the sign that the first bit gives, else
/// it is no number.
pub open spec fn non_finite(bits: u64) -> Option<DoubleView> {
    if (bits >> 52) & 0x7ff != 0x7ff {
        None
    } else if bits & 0xf_ffff_ffff_ffff != 0 {
        Some(DoubleView::Nan)
    } else if bits >> 63 == 0 {
        Some(DoubleView::Infinity)
    } else {
        Some(DoubleView::NegInfinity)
    }
}

/// The bits of the double-precision number that is not finite.
pub open spec fn non_finite_bits(d: DoubleView) -> Option<u64> {
    match d {
        DoubleView::Nan => Some(0x7ff8_0000_0000_0000u64),
        DoubleView::Infinity => Some(0x7ff0_0000_0000_0000u64),
        DoubleView::NegInfinity => Some(0xfff0_0000_0000_0000u64),
        DoubleView::Finite(_) => None,
    }
}

/// The bits of a value that is not finite stand for that value.
pub proof fn lemma_non_finite_bits(d: DoubleView)
    ensures
        match non_finite_bits(d) {
            Some(bits) => non_finite(bits) == Some(d),
            None => d is Finite,
        },
{
    assert((0x7ff8_0000_0000_0000u64 >> 52) & 0x7ff == 0x7ff && 0x7ff8_0000_0000_0000u64
        & 0xf_ffff_ffff_ffff != 0) by (bit_vector);
    assert((0x7ff0_0000_0000_0000u64 >> 52) & 0x7ff == 0x7ff && 0x7ff0_0000_0000_0000u64
        & 0xf_ffff_ffff_ffff == 0 && 0x7ff0_0000_0000_0000u64 >> 63 == 0) by (bit_vector);
    assert((0xfff0_0000_0000_0000u64 >> 52) & 0x7ff == 0x7ff && 0xfff0_0000_0000_0000u64
        & 0xf_ffff_ffff_ffff == 0 && 0xfff0_0000_0000_0000u64 >> 63 == 1) by (bit_vector);
}

impl Double {
    /// The value that the bits of a double-precision number stand for, where
    /// the number is not finite; nothing where it is finite, and is carried
    /// by its literal.
    pub fn from_bits(bits: u64) -> (r: Option<Double>)
        ensures
            opt_view(r) == non_finite(bits),
    {
        if (bits >> 52) & 0x7ff != 0x7ff {
            None
        } else if bits & 0xf_ffff_ffff_ffff != 0 {
            Some(Double::Nan)
        } else if bits >> 63 == 0 {
            Some(Double::Infinity)
        } else {
            Some(Double::NegInfinity)
        }
    }

    /// The bits of the double-precision number, where it is not finite.
    pub fn to_bits(&self) -> (r: Option<u64>)
        ensures
            r == non_finite_bits(self@),
    {
        match self {
            Double::Nan => Some(0x7ff8_0000_0000_0000u64),
            Double::Infinity => Some(0x7ff0_0000_0000_0000u64),
            Double::NegInfinity => Some(0xfff0_0000_0000_0000u64),
            Double::Finite(_) => None,
        }
    }
}

impl Default for Value {
    /// The value that is not set.
    fn default() -> (v: Value)
        ensures
            v@ == ValueView::Unset,
    {
        Value::Unset
    }
}

impl Default for ArrayValue {
    /// The array without elements.
    fn default() -> (a: ArrayValue)
        ensures
            a@ == Seq::<ValueView>::empty(),
    {
        let a = ArrayValue { values: Vec::new() };
        assert(a@ =~= Seq::<ValueView>::empty());
        a
    }
}

impl Default for MapValue {
    /// The map without entries.
    fn default() -> (m: MapValue)
        ensures
            m@ == Seq::<(Seq<char>, ValueView)>::empty(),
    {
        MapValue::new()
    }
}

/// The tree of a value that may be sent is well-formed.
pub proof fn lemma_value_well_formed(v: ValueView)
    requires
        valid_value(v),
    ensures
        well_formed(value_tree(v)),
    decreases v,
{
    lemma_trees_well_formed();
    match v {
        ValueView::Array(a) => {
            lemma_array_well_formed(a);
        },
        ValueView::Mapping(m) => {
            lemma_map_well_formed(m);
        },
        _ => {},
    }
}

/// The tree of an array that may be sent is well-formed.
pub proof fn lemma_array_well_formed(a: Seq<ValueView>)
    requires
        valid_values(a),
    ensures
        well_formed(array_tree(a)),
    decreases a, 1int,
{
    lemma_trees_well_formed();
    let trees = value_trees(a);
    assert forall|i: int| 0 <= i < trees.len() implies well_formed(#[trigger] trees[i]) by {
        lemma_value_well_formed(a[i]);
    }
    assert(well_formed(JsonView::Array(trees)));
}

/// The members that the entries of a map that may be sent become are
/// well-formed.
pub proof fn lemma_entries_well_formed(m: Entries)
    requires
        valid_entries(m),
    ensures
        well_formed(JsonView::Object(entry_trees(m))),
    decreases m, 0int,
{
    let trees = entry_trees(m);
    assert forall|i: int| 0 <= i < trees.len() implies well_formed((#[trigger] trees[i]).1) by {
        lemma_value_well_formed(m[i].1);
    }
}

/// The tree of a map that may be sent is well-formed.
pub proof fn lemma_map_well_formed(m: Entries)
    requires
        valid_entries(m),
    ensures
        well_formed(map_tree(m)),
    decreases m, 1int,
{
    lemma_trees_well_formed();
    lemma_entries_well_formed(m);
}

/// The member that the fields of a document become is well-formed.
pub proof fn lemma_fields_well_formed(o: Option<Entries>, system_fields: bool)
    requires
        fields_encode(o, system_fields) is Ok,
    ensures
        fields_encode(o, system_fields)->Ok_0 is Some ==> well_formed(
            fields_encode(o, system_fields)->Ok_0->Some_0,
        ),
{
    if let Some(m) = o {
        lemma_entries_well_formed(m);
    }
}

/// The rank of a name is the one place before which every name comes before
/// it and at which none does.
pub proof fn lemma_rank_is(m: Entries, key: Seq<char>, p: int)
    requires
        0 <= p <= m.len(),
        forall|j: int| 0 <= j < p ==> str_lt(#[trigger] m[j].0, key),
        p < m.len() ==> !str_lt(m[p].0, key),
    ensures
        rank(m, key) == p,
{
    lemma_rank_from_to(m, key, 0, p);
}

/// From a place at or before the rank of a name, the rank is reached.
pub proof fn lemma_rank_from_to(m: Entries, key: Seq<char>, i: int, p: int)
    requires
        0 <= i <= p <= m.len(),
        forall|j: int| 0 <= j < p ==> str_lt(#[trigger] m[j].0, key),
        p < m.len() ==> !str_lt(m[p].0, key),
    ensures
        rank_from(m, key, i) == p,
    decreases p - i,
{
    if i < p {
        assert(str_lt(m[i].0, key));
        lemma_rank_from_to(m, key, i + 1, p);
    }
}

/// In a map whose names increase, a name that it holds has its place as its
/// rank, and the map holds for it the value at that place.
pub proof fn lemma_find_at(m: Entries, i: int)
    requires
        sorted(m),
        0 <= i < m.len(),
    ensures
        rank(m, m[i].0) == i,
        find_entry(m, m[i].0) == Some(m[i].1),
{
    lemma_str_lt_irreflexive(m[i].0);
    assert forall|j: int| 0 <= j < i implies str_lt(#[trigger] m[j].0, m[i].0) by {
        assert(str_lt(m[j].0, m[i].0));
    }
    lemma_rank_is(m, m[i].0, i);
}

/// What a map holds after a value was put into it: that value for the name
/// it was put under, and for every other name what it held before.
pub proof fn lemma_find_put(m: Entries, key: Seq<char>, value: ValueView, other: Seq<char>)
    requires
        sorted(m),
    ensures
        find_entry(put_entry(m, key, value), other) == if other == key {
            Some(value)
        } else {
            find_entry(m, other)
        },
{
    let p = rank(m, key);
    let q = rank(m, other);
    let r = put_entry(m, key, value);
    lemma_rank_from(m, key, 0);
    lemma_rank_from(m, other, 0);
    lemma_put_sorted(m, key, value);
    lemma_str_lt_irreflexive(key);
    lemma_str_lt_irreflexive(other);
    if other == key {
        assert forall|j: int| 0 <= j < p implies str_lt(#[trigger] r[j].0, key) by {
            assert(r[j] == m[j]);
            assert(str_lt(m[j].0, key));
        }
        lemma_rank_is(r, key, p);
    } else if p < m.len() && m[p].0 == key {
        assert forall|j: int| 0 <= j < q implies str_lt(#[trigger] r[j].0, other) by {
            assert(r[j].0 == m[j].0);
            assert(str_lt(m[j].0, other));
        }
        if q < m.len() {
            assert(r[q].0 == m[q].0);
        }
        lemma_rank_is(r, other, q);
    } else {
        lemma_str_lt_total(key, other);
        if str_lt(other, key) {
            if q > p {
                assert(str_lt(m[p].0, other));
                lemma_str_lt_transitive(m[p].0, other, key);
            }
            assert forall|j: int| 0 <= j < q implies str_lt(#[trigger] r[j].0, other) by {
                assert(r[j] == m[j]);
                assert(str_lt(m[j].0, other));
            }
            if q < p {
                assert(r[q] == m[q]);
            } else {
                assert(r[q] == (key, value));
                if str_lt(key, other) {
                    lemma_str_lt_transitive(key, other, key);
                }
                if p < m.len() && m[p].0 == other {
                    lemma_str_lt_total(m[p].0, key);
                    if str_lt(key, m[p].0) {
                        lemma_str_lt_transitive(key, other, key);
                    }
                }
            }
            lemma_rank_is(r, other, q);
        } else {
            if q < p {
                assert(str_lt(m[q].0, key));
                lemma_str_lt_transitive(m[q].0, key, other);
            }
            assert forall|j: int| 0 <= j < q + 1 implies str_lt(#[trigger] r[j].0, other) by {
                if j < p {
                    assert(r[j] == m[j]);
                    assert(str_lt(m[j].0, other));
                } else if j == p {
                    assert(r[j] == (key, value));
                } else {
                    assert(r[j] == m[j - 1]);
                    assert(str_lt(m[j - 1].0, other));
                }
            }
            if q < m.len() {
                assert(r[q + 1] == m[q]);
            }
            lemma_rank_is(r, other, q + 1);
        }
    }
}

/// A map is what it holds: two maps whose names increase and that hold the
/// same value, or none, for every name are the same map.
pub proof fn lemma_map_unique(a: Entries, b: Entries)
    requires
        sorted(a),
        sorted(b),
        forall|k: Seq<char>| find_entry(a, k) == find_entry(b, k),
    ensures
        a == b,
{
    lemma_same_prefix(a, b, if a.len() <= b.len() { a.len() as int } else { b.len() as int });
    if a.len() < b.len() {
        let i = a.len() as int;
        lemma_find_at(b, i);
        lemma_rank_from(a, b[i].0, 0);
        let q = rank(a, b[i].0);
        assert(find_entry(a, b[i].0) == find_entry(b, b[i].0));
        assert(a[q] == b[q]);
        assert(str_lt(b[q].0, b[i].0));
        lemma_str_lt_irreflexive(b[i].0);
    } else if b.len() < a.len() {
        let i = b.len() as int;
        lemma_find_at(a, i);
        lemma_rank_from(b, a[i].0, 0);
        let q = rank(b, a[i].0);
        assert(find_entry(a, a[i].0) == find_entry(b, a[i].0));
        assert(a[q] == b[q]);
        assert(str_lt(a[q].0, a[i].0));
        lemma_str_lt_irreflexive(a[i].0);
    }
    assert(a =~= b);
}

/// Two maps that hold the same for every name agree on their first entries.
pub proof fn lemma_same_prefix(a: Entries, b: Entries, n: int)
    requires
        sorted(a),
        sorted(b),
        forall|k: Seq<char>| find_entry(a, k) == find_entry(b, k),
        0 <= n <= a.len(),
        n <= b.len(),
    ensures
        forall|i: int| 0 <= i < n ==> a[i] == b[i],
    decreases n,
{
    if n > 0 {
        lemma_same_prefix(a, b, n - 1);
        let i = n - 1;
        lemma_find_at(a, i);
        lemma_find_at(b, i);
        lemma_rank_from(b, a[i].0, 0);
        lemma_rank_from(a, b[i].0, 0);
        let q = rank(b, a[i].0);
        let p = rank(a, b[i].0);
        assert(find_entry(a, a[i].0) == find_entry(b, a[i].0));
        assert(find_entry(a, b[i].0) == find_entry(b, b[i].0));
        lemma_str_lt_irreflexive(a[i].0);
        lemma_str_lt_irreflexive(b[i].0);
        if q < i {
            assert(a[q] == b[q]);
            assert(str_lt(a[q].0, a[i].0));
        } else if q > i {
            assert(str_lt(b[i].0, b[q].0));
            if p < i {
                assert(a[p] == b[p]);
                assert(str_lt(b[p].0, b[i].0));
            } else if p > i {
                assert(str_lt(a[i].0, a[p].0));
                lemma_str_lt_transitive(a[i].0, b[i].0, a[i].0);
            }
        }
    }
}

/// The order in which two values are put under different names does not
/// matter: the map is the same, and so is the text that it is written as.
pub proof fn lemma_put_commutes(
    m: Entries,
    first: Seq<char>,
    x: ValueView,
    second: Seq<char>,
    y: ValueView,
)
    requires
        sorted(m),
        first != second,
    ensures
        put_entry(put_entry(m, first, x), second, y) == put_entry(
            put_entry(m, second, y),
            first,
            x,
        ),
{
    let a = put_entry(put_entry(m, first, x), second, y);
    let b = put_entry(put_entry(m, second, y), first, x);
    lemma_put_sorted(m, first, x);
    lemma_put_sorted(m, second, y);
    lemma_put_sorted(put_entry(m, first, x), second, y);
    lemma_put_sorted(put_entry(m, second, y), first, x);
    assert forall|k: Seq<char>| find_entry(a, k) == find_entry(b, k) by {
        lemma_find_put(m, first, x, k);
        lemma_find_put(put_entry(m, first, x), second, y, k);
        lemma_find_put(m, second, y, k);
        lemma_find_put(put_entry(m, second, y), first, x, k);
    }
    lemma_map_unique(a, b);
}

/// Putting an entry that may be sent into a map that may be sent gives a
/// map that may be sent.
pub proof fn lemma_put_valid(m: Entries, key: Seq<char>, value: ValueView)
    requires
        valid_entries(m),
        valid_key(key),
        valid_value(value),
    ensures
        valid_entries(put_entry(m, key, value)),
{
    lemma_put_sorted(m, key, value);
    lemma_rank_from(m, key, 0);
    let p = rank(m, key);
    let r = put_entry(m, key, value);
    assert forall|i: int| 0 <= i < r.len() implies valid_key((#[trigger] r[i]).0) && valid_value(
        r[i].1,
    ) by {
        if p < m.len() && m[p].0 == key {
            if i != p {
                assert(r[i] == m[i]);
            }
        } else if i < p {
            assert(r[i] == m[i]);
        } else if i > p {
            assert(r[i] == m[i - 1]);
        }
    }
}

/// What is read can be sent: the value that a tree stands for may be sent.
pub proof fn lemma_decode_valid(j: JsonView)
    requires
        value_decode(j) is Ok,
    ensures
        valid_value(value_decode(j)->Ok_0),
    decreases j,
{
    match j {
        JsonView::Object(m) => {
            let ia = position(m, "arrayValue"@);
            let im = position(m, "mapValue"@);
            if 0 <= ia < m.len() {
                lemma_array_decode_valid(m[ia].1);
            } else if 0 <= im < m.len() {
                lemma_map_decode_valid(m[im].1);
            }
        },
        _ => {},
    }
}

/// The values that the trees of a list stand for may be sent.
pub proof fn lemma_values_decode_valid(a: Seq<JsonView>, n: int)
    requires
        values_decode(a, n) is Ok,
    ensures
        valid_values(values_decode(a, n)->Ok_0),
    decreases a, n,
{
    if 0 < n <= a.len() {
        lemma_values_decode_valid(a, n - 1);
        lemma_decode_valid(a[n - 1]);
        let before = values_decode(a, n - 1)->Ok_0;
        let all = values_decode(a, n)->Ok_0;
        assert forall|i: int| 0 <= i < all.len() implies valid_value(#[trigger] all[i]) by {
            if i < before.len() {
                assert(all[i] == before[i]);
            }
        }
    }
}

/// The elements that the tree of an array value stands for may be sent.
pub proof fn lemma_array_decode_valid(j: JsonView)
    requires
        array_decode(j) is Ok,
    ensures
        valid_values(array_decode(j)->Ok_0),
    decreases j,
{
    match j {
        JsonView::Object(m) => {
            let i = position(m, "values"@);
            if 0 <= i < m.len() {
                match m[i].1 {
                    JsonView::Array(a) => {
                        lemma_values_decode_valid(a, a.len() as int);
                    },
                    _ => {},
                }
            }
        },
        _ => {},
    }
}

/// The map that the members of an object stand for may be sent.
pub proof fn lemma_fields_decode_valid(m: Members, n: int)
    requires
        fields_decode(m, n) is Ok,
    ensures
        valid_entries(fields_decode(m, n)->Ok_0),
    decreases m, n,
{
    if 0 < n <= m.len() {
        lemma_fields_decode_valid(m, n - 1);
        lemma_decode_valid(m[n - 1].1);
        lemma_put_valid(fields_decode(m, n - 1)->Ok_0, m[n - 1].0, value_decode(m[n - 1].1)->Ok_0);
    }
}

/// The entries that the tree of a map value stands for may be sent.
pub proof fn lemma_map_decode_valid(j: JsonView)
    requires
        map_decode(j) is Ok,
    ensures
        valid_entries(map_decode(j)->Ok_0),
    decreases j,
{
    match j {
        JsonView::Object(m) => {
            let i = position(m, "fields"@);
            if 0 <= i < m.len() {
                match m[i].1 {
                    JsonView::Object(f) => {
                        lemma_fields_decode_valid(f, f.len() as int);
                    },
                    _ => {},
                }
            }
        },
        _ => {},
    }
}

/// Maps that hold the same are written the same: whatever the order in which
/// their entries were put, two maps that hold the same value, or none, for
/// every name give the same tree, and so the same text.
pub proof fn lemma_same_map_same_tree(a: Entries, b: Entries)
    requires
        sorted(a),
        sorted(b),
        forall|k: Seq<char>| find_entry(a, k) == find_entry(b, k),
    ensures
        map_encode(a) == map_encode(b),
        fields_encode(Some(a), false) == fields_encode(Some(b), false),
{
    lemma_map_unique(a, b);
}

/// Taking an entry out of a map whose names increase leaves them
/// increasing.
pub proof fn lemma_remove_sorted(m: Entries, key: Seq<char>)
    requires
        sorted(m),
    ensures
        sorted(remove_entry(m, key)),
{
    lemma_rank_from(m, key, 0);
    let p = rank(m, key);
    let r = remove_entry(m, key);
    if p < m.len() && m[p].0 == key {
        assert forall|i: int, j: int| 0 <= i < j < r.len() implies str_lt(r[i].0, r[j].0) by {
            let x = if i < p { i } else { i + 1 };
            let y = if j < p { j } else { j + 1 };
            assert(r[i] == m[x] && r[j] == m[y]);
            assert(str_lt(m[x].0, m[y].0));
        }
    }
}

/// What a map holds after an entry was taken out of it: nothing for the name
/// of the entry, and for every other name what it held before.
pub proof fn lemma_find_remove(m: Entries, key: Seq<char>, other: Seq<char>)
    requires
        sorted(m),
    ensures
        find_entry(remove_entry(m, key), other) == if other == key {
            None
        } else {
            find_entry(m, other)
        },
{
    let p = rank(m, key);
    let q = rank(m, other);
    let r = remove_entry(m, key);
    lemma_rank_from(m, key, 0);
    lemma_rank_from(m, other, 0);
    lemma_str_lt_irreflexive(key);
    lemma_str_lt_irreflexive(other);
    if p < m.len() && m[p].0 == key {
        if other == key {
            assert forall|j: int| 0 <= j < p implies str_lt(#[trigger] r[j].0, key) by {
                assert(r[j] == m[j]);
                assert(str_lt(m[j].0, key));
            }
            if p < r.len() {
                assert(r[p] == m[p + 1]);
                assert(str_lt(m[p].0, m[p + 1].0));
                if str_lt(r[p].0, key) {
                    lemma_str_lt_transitive(key, r[p].0, key);
                }
            }
            lemma_rank_is(r, key, p);
        } else {
            lemma_str_lt_total(key, other);
            if str_lt(other, key) {
                if q > p {
                    assert(str_lt(m[p].0, other));
                    lemma_str_lt_transitive(other, key, other);
                }
                assert forall|j: int| 0 <= j < q implies str_lt(#[trigger] r[j].0, other) by {
                    assert(r[j] == m[j]);
                    assert(str_lt(m[j].0, other));
                }
                if q < p {
                    assert(r[q] == m[q]);
                } else if q < r.len() {
                    assert(r[q] == m[p + 1]);
                    assert(str_lt(m[p].0, m[p + 1].0));
                    if str_lt(r[q].0, other) {
                        lemma_str_lt_transitive(key, r[q].0, other);
                        lemma_str_lt_transitive(key, other, key);
                    }
                    if r[q].0 == other {
                        lemma_str_lt_transitive(key, other, key);
                    }
                }
                lemma_rank_is(r, other, q);
            } else {
                if q <= p {
                    assert(!str_lt(m[q].0, other));
                    if q < p {
                        assert(str_lt(m[q].0, m[p].0));
                        lemma_str_lt_transitive(m[q].0, key, other);
                    }
                }
                assert forall|j: int| 0 <= j < q - 1 implies str_lt(#[trigger] r[j].0, other) by {
                    if j < p {
                        assert(r[j] == m[j]);
                        assert(str_lt(m[j].0, other));
                    } else {
                        assert(r[j] == m[j + 1]);
                        assert(str_lt(m[j + 1].0, other));
                    }
                }
                if q < m.len() {
                    assert(r[q - 1] == m[q]);
                }
                lemma_rank_is(r, other, q - 1);
            }
        }
    }
}

impl Default for LatLng {
    /// The point without coordinates.
    fn default() -> (r: LatLng)
        ensures
            r@ == (LatLngView { latitude: None, longitude: None }),
    {
        LatLng {
            latitude: None,
            longitude: None,
        }
    }
}

impl Default for Empty {
    /// The message without content: its one field, which is never set, holds nothing.
    fn default() -> (e: Empty)
        ensures
            e@ == (EmptyView {  }),
            e.never_set() is None,
    {
        Empty { _never_set: None }
    }
}

} // verus!
