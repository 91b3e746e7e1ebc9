//! What the types that cross the wire have in common: each is sent as a JSON
//! tree and read back from one. Lists and optional members are mapped here
//! once, for every such type.

use vstd::prelude::*;
use crate::error::{opt_view, seq_view, yields, Error};
use crate::json::{jsons_view, text, view_of, view_opt, Json, JsonView};
use crate::parse::{lemma_text_round_trip, parse_text, well_formed};

verus! {

/// A type that is sent as a JSON tree and read back from one.
pub trait Wire: View + Sized {
    /// What sending a value gives: its tree, or the error that refuses the
    /// value.
    spec fn encode(v: Self::V) -> Result<JsonView, Error>;

    /// The value that a tree stands for, or the error that refuses the tree.
    spec fn decode(j: JsonView) -> Result<Self::V, Error>;

    /// The tree that this value is sent as.
    fn to_json(&self) -> (r: Result<Json, Error>)
        ensures
            yields(r, Self::encode(self@)),
    ;

    /// The value that a tree stands for.
    fn from_json(j: &Json) -> (r: Result<Self, Error>)
        ensures
            yields(r, Self::decode(j@)),
    ;

    /// Round trip: a value that can be sent is read back from its tree.
    proof fn lemma_round_trip(v: Self::V)
        requires
            Self::encode(v) is Ok,
        ensures
            Self::decode(Self::encode(v)->Ok_0) == Ok::<Self::V, Error>(v),
    ;

    /// The numbers of a tree that a value is sent as hold number literals,
    /// so that its text is JSON.
    proof fn lemma_well_formed(v: Self::V)
        requires
            Self::encode(v) is Ok,
        ensures
            well_formed(Self::encode(v)->Ok_0),
    ;
}

/// What writing a value gives: the compact text of its tree, or the error
/// that refuses the value.
pub open spec fn encode_text<T: Wire>(v: T::V) -> Result<Seq<char>, Error> {
    match T::encode(v) {
        Ok(j) => Ok(text(j)),
        Err(e) => Err(e),
    }
}

/// The value that a text stands for: `MalformedValue` where the text is no
/// JSON, else what its tree stands for.
pub open spec fn decode_text<T: Wire>(s: Seq<char>) -> Result<T::V, Error> {
    match parse_text(s) {
        Some(j) => T::decode(j),
        None => Err(Error::MalformedValue),
    }
}

/// Round trip through text: a value that can be sent is read back from the
/// text that it is sent as.
pub proof fn lemma_text_round_trip_of<T: Wire>(v: T::V)
    requires
        encode_text::<T>(v) is Ok,
    ensures
        decode_text::<T>(encode_text::<T>(v)->Ok_0) == Ok::<T::V, Error>(v),
{
    T::lemma_well_formed(v);
    T::lemma_round_trip(v);
    lemma_text_round_trip(T::encode(v)->Ok_0);
}

/// Different values are written differently: two values that are sent as
/// the same text are the same value.
pub proof fn lemma_text_tells_values_apart<T: Wire>(v: T::V, w: T::V)
    requires
        encode_text::<T>(v) is Ok,
        encode_text::<T>(v) == encode_text::<T>(w),
    ensures
        v == w,
{
    lemma_text_round_trip_of::<T>(v);
    lemma_text_round_trip_of::<T>(w);
}

/// Whether a value can be sent: nothing, or the error that refuses it.
pub fn validate<T: Wire>(value: &T) -> (r: Result<(), Error>)
    ensures
        match r {
            Ok(_) => T::encode(value@) is Ok,
            Err(e) => T::encode(value@) == Err::<JsonView, Error>(e),
        },
{
    match value.to_json() {
        Ok(_) => Ok(()),
        Err(e) => Err(e),
    }
}

/// The text that a value is sent as: the compact text of its tree.
pub fn serialize<T: Wire>(value: &T) -> (r: Result<String, Error>)
    ensures
        match r {
            Ok(s) => encode_text::<T>(value@) == Ok::<Seq<char>, Error>(s@),
            Err(e) => encode_text::<T>(value@) == Err::<Seq<char>, Error>(e),
        },
{
    match value.to_json() {
        Ok(j) => Ok(j.to_text()),
        Err(e) => Err(e),
    }
}

/// The value that a text stands for: `MalformedValue` where the text is no
/// JSON, else what its tree stands for.
pub fn deserialize<T: Wire>(text: &str) -> (r: Result<T, Error>)
    ensures
        yields(r, decode_text::<T>(text@)),
{
    match Json::parse(text) {
        Some(j) => T::from_json(&j),
        None => Err(Error::MalformedValue),
    }
}

/// The trees of the first `n` values of a list, or the first error among
/// them.
pub open spec fn list_encode<T: Wire>(s: Seq<T::V>, n: int) -> Result<Seq<JsonView>, Error>
    decreases n,
{
    if n <= 0 || n > s.len() {
        Ok(Seq::empty())
    } else {
        match list_encode::<T>(s, n - 1) {
            Err(e) => Err(e),
            Ok(before) => match T::encode(s[n - 1]) {
                Err(e) => Err(e),
                Ok(j) => Ok(before.push(j)),
            },
        }
    }
}

/// The values that the first `n` trees of a list stand for, or the first
/// error among them.
pub open spec fn list_decode<T: Wire>(a: Seq<JsonView>, n: int) -> Result<Seq<T::V>, Error>
    decreases n,
{
    if n <= 0 || n > a.len() {
        Ok(Seq::empty())
    } else {
        match list_decode::<T>(a, n - 1) {
            Err(e) => Err(e),
            Ok(before) => match T::decode(a[n - 1]) {
                Err(e) => Err(e),
                Ok(v) => Ok(before.push(v)),
            },
        }
    }
}

/// Once the values of a list have given an error, more of them give the same.
pub proof fn lemma_list_encode_error<T: Wire>(s: Seq<T::V>, n: int, k: int)
    requires
        0 <= n <= k <= s.len(),
        list_encode::<T>(s, n) is Err,
    ensures
        list_encode::<T>(s, k) == list_encode::<T>(s, n),
    decreases k - n,
{
    if n < k {
        lemma_list_encode_error::<T>(s, n, k - 1);
    }
}

/// Once the trees of a list have given an error, more of them give the same.
pub proof fn lemma_list_decode_error<T: Wire>(a: Seq<JsonView>, n: int, k: int)
    requires
        0 <= n <= k <= a.len(),
        list_decode::<T>(a, n) is Err,
    ensures
        list_decode::<T>(a, k) == list_decode::<T>(a, n),
    decreases k - n,
{
    if n < k {
        lemma_list_decode_error::<T>(a, n, k - 1);
    }
}

/// The trees of `n` values are `n` trees.
pub proof fn lemma_list_encode_len<T: Wire>(s: Seq<T::V>, n: int)
    requires
        0 <= n <= s.len(),
        list_encode::<T>(s, n) is Ok,
    ensures
        list_encode::<T>(s, n)->Ok_0.len() == n,
        forall|i: int|
            0 <= i < n ==> T::encode(s[i]) == Ok::<JsonView, Error>(
                #[trigger] list_encode::<T>(s, n)->Ok_0[i],
            ),
    decreases n,
{
    if n > 0 {
        lemma_list_encode_len::<T>(s, n - 1);
    }
}

/// What the first `n` trees of a list stand for depends on those trees only.
pub proof fn lemma_list_decode_prefix<T: Wire>(a: Seq<JsonView>, b: Seq<JsonView>, n: int)
    requires
        0 <= n <= a.len(),
        n <= b.len(),
        forall|i: int| 0 <= i < n ==> a[i] == b[i],
    ensures
        list_decode::<T>(a, n) == list_decode::<T>(b, n),
    decreases n,
{
    if n > 0 {
        lemma_list_decode_prefix::<T>(a, b, n - 1);
    }
}

/// Round trip for lists: the values of a list that can be sent are read back
/// from their trees, in order.
pub proof fn lemma_list_round_trip<T: Wire>(s: Seq<T::V>, n: int)
    requires
        0 <= n <= s.len(),
        list_encode::<T>(s, n) is Ok,
    ensures
        list_decode::<T>(list_encode::<T>(s, n)->Ok_0, n) == Ok::<Seq<T::V>, Error>(s.take(n)),
    decreases n,
{
    if n > 0 {
        let trees = list_encode::<T>(s, n)->Ok_0;
        let before = list_encode::<T>(s, n - 1)->Ok_0;
        lemma_list_round_trip::<T>(s, n - 1);
        lemma_list_encode_len::<T>(s, n - 1);
        lemma_list_encode_len::<T>(s, n);
        lemma_list_decode_prefix::<T>(trees, before, n - 1);
        T::lemma_round_trip(s[n - 1]);
        assert(s.take(n - 1).push(s[n - 1]) =~= s.take(n));
    } else {
        assert(s.take(0) =~= Seq::<T::V>::empty());
    }
}

/// The trees of the values of a list.
pub fn write_list<T: Wire>(v: &Vec<T>) -> (r: Result<Vec<Json>, Error>)
    ensures
        match r {
            Ok(trees) => list_encode::<T>(seq_view(v@), v.len() as int) == Ok::<
                Seq<JsonView>,
                Error,
            >(jsons_view(trees@)),
            Err(e) => list_encode::<T>(seq_view(v@), v.len() as int) == Err::<
                Seq<JsonView>,
                Error,
            >(e),
        },
{
    let mut trees: Vec<Json> = Vec::new();
    let mut i: usize = 0;
    assert(jsons_view(trees@) =~= Seq::<JsonView>::empty());
    while i < v.len()
        invariant
            i <= v.len(),
            list_encode::<T>(seq_view(v@), i as int) == Ok::<Seq<JsonView>, Error>(
                jsons_view(trees@),
            ),
        decreases v.len() - i,
    {
        let ghost before = jsons_view(trees@);
        assert(seq_view(v@)[i as int] == v[i as int]@);
        match v[i].to_json() {
            Ok(j) => {
                trees.push(j);
                assert(jsons_view(trees@) =~= before.push(j@));
            },
            Err(e) => {
                proof {
                    lemma_list_encode_error::<T>(seq_view(v@), i + 1, v.len() as int);
                }
                return Err(e);
            },
        }
        i = i + 1;
    }
    Ok(trees)
}

/// The values that the trees of a list stand for.
pub fn read_list<T: Wire>(a: &Vec<Json>) -> (r: Result<Vec<T>, Error>)
    ensures
        match r {
            Ok(v) => list_decode::<T>(jsons_view(a@), a.len() as int) == Ok::<Seq<T::V>, Error>(
                seq_view(v@),
            ),
            Err(e) => list_decode::<T>(jsons_view(a@), a.len() as int) == Err::<Seq<T::V>, Error>(
                e,
            ),
        },
{
    let mut values: Vec<T> = Vec::new();
    let mut i: usize = 0;
    assert(seq_view(values@) =~= Seq::<T::V>::empty());
    while i < a.len()
        invariant
            i <= a.len(),
            list_decode::<T>(jsons_view(a@), i as int) == Ok::<Seq<T::V>, Error>(seq_view(values@)),
        decreases a.len() - i,
    {
        let ghost before = seq_view(values@);
        match T::from_json(&a[i]) {
            Ok(v) => {
                values.push(v);
                assert(seq_view(values@) =~= before.push(v@));
            },
            Err(e) => {
                proof {
                    lemma_list_decode_error::<T>(jsons_view(a@), i + 1, a.len() as int);
                }
                return Err(e);
            },
        }
        i = i + 1;
    }
    Ok(values)
}

/// The views of the items of an optional list.
pub open spec fn opt_seq_view<T: View>(o: Option<Vec<T>>) -> Option<Seq<T::V>> {
    match o {
        Some(v) => Some(seq_view(v@)),
        None => None,
    }
}

/// What an optional value becomes as a member: nothing where there is no
/// value, its tree where there is one, or the error that refuses it.
pub open spec fn member_encode<T: Wire>(o: Option<T::V>) -> Result<Option<JsonView>, Error> {
    match o {
        None => Ok(None),
        Some(v) => match T::encode(v) {
            Ok(j) => Ok(Some(j)),
            Err(e) => Err(e),
        },
    }
}

/// The value of an optional member.
pub open spec fn member_decode<T: Wire>(j: Option<JsonView>) -> Result<Option<T::V>, Error> {
    match j {
        None => Ok(None),
        Some(j) => match T::decode(j) {
            Ok(v) => Ok(Some(v)),
            Err(e) => Err(e),
        },
    }
}

/// What an optional list becomes as a member: nothing where there is no
/// list, an array of the trees of its values where there is one, or the
/// first error among them.
pub open spec fn list_member_encode<T: Wire>(o: Option<Seq<T::V>>) -> Result<
    Option<JsonView>,
    Error,
> {
    match o {
        None => Ok(None),
        Some(s) => match list_encode::<T>(s, s.len() as int) {
            Ok(trees) => Ok(Some(JsonView::Array(trees))),
            Err(e) => Err(e),
        },
    }
}

/// The list of an optional member: the member has to be an array, else the
/// error is `e`.
pub open spec fn list_member_decode<T: Wire>(j: Option<JsonView>, e: Error) -> Result<
    Option<Seq<T::V>>,
    Error,
> {
    match j {
        None => Ok(None),
        Some(JsonView::Array(a)) => match list_decode::<T>(a, a.len() as int) {
            Ok(s) => Ok(Some(s)),
            Err(x) => Err(x),
        },
        Some(_) => Err(e),
    }
}

/// Round trip for optional members and optional lists.
pub proof fn lemma_member_round_trip<T: Wire>(e: Error)
    ensures
        forall|o: Option<T::V>| #[trigger]
            member_encode::<T>(o) is Ok ==> member_decode::<T>(member_encode::<T>(o)->Ok_0)
                == Ok::<Option<T::V>, Error>(o),
        forall|o: Option<Seq<T::V>>| #[trigger]
            list_member_encode::<T>(o) is Ok ==> list_member_decode::<T>(
                list_member_encode::<T>(o)->Ok_0,
                e,
            ) == Ok::<Option<Seq<T::V>>, Error>(o),
{
    assert forall|o: Option<T::V>| #[trigger] member_encode::<T>(o) is Ok implies member_decode::<
        T,
    >(member_encode::<T>(o)->Ok_0) == Ok::<Option<T::V>, Error>(o) by {
        if let Some(v) = o {
            T::lemma_round_trip(v);
        }
    }
    assert forall|o: Option<Seq<T::V>>| #[trigger]
        list_member_encode::<T>(o) is Ok implies list_member_decode::<T>(
        list_member_encode::<T>(o)->Ok_0,
        e,
    ) == Ok::<Option<Seq<T::V>>, Error>(o) by {
        if let Some(s) = o {
            lemma_list_round_trip::<T>(s, s.len() as int);
            lemma_list_encode_len::<T>(s, s.len() as int);
            assert(s.take(s.len() as int) =~= s);
        }
    }
}

/// The trees of the values of a list that can be sent are well-formed, and
/// so are the members that optional values and optional lists become.
pub proof fn lemma_members_well_formed<T: Wire>()
    ensures
        forall|o: Option<T::V>|
            (#[trigger] member_encode::<T>(o)) is Ok && member_encode::<T>(o)->Ok_0 is Some
                ==> well_formed(member_encode::<T>(o)->Ok_0->Some_0),
        forall|o: Option<Seq<T::V>>|
            (#[trigger] list_member_encode::<T>(o)) is Ok && list_member_encode::<T>(o)->Ok_0
                is Some ==> well_formed(list_member_encode::<T>(o)->Ok_0->Some_0),
{
    assert forall|o: Option<T::V>|
        (#[trigger] member_encode::<T>(o)) is Ok && member_encode::<T>(
            o,
        )->Ok_0 is Some implies well_formed(member_encode::<T>(o)->Ok_0->Some_0) by {
        T::lemma_well_formed(o->Some_0);
    }
    assert forall|o: Option<Seq<T::V>>|
        (#[trigger] list_member_encode::<T>(o)) is Ok && list_member_encode::<T>(
            o,
        )->Ok_0 is Some implies well_formed(list_member_encode::<T>(o)->Ok_0->Some_0) by {
        let s = o->Some_0;
        let trees = list_encode::<T>(s, s.len() as int)->Ok_0;
        lemma_list_encode_len::<T>(s, s.len() as int);
        assert forall|i: int| 0 <= i < trees.len() implies well_formed(#[trigger] trees[i]) by {
            assert(T::encode(s[i]) == Ok::<JsonView, Error>(trees[i]));
            T::lemma_well_formed(s[i]);
        }
    }
}

/// The member that an optional value becomes.
pub fn write_member<T: Wire>(o: &Option<T>) -> (r: Result<Option<Json>, Error>)
    ensures
        match r {
            Ok(j) => member_encode::<T>(opt_view(*o)) == Ok::<Option<JsonView>, Error>(view_opt(j)),
            Err(e) => member_encode::<T>(opt_view(*o)) == Err::<Option<JsonView>, Error>(e),
        },
{
    match o {
        None => Ok(None),
        Some(v) => match v.to_json() {
            Ok(j) => Ok(Some(j)),
            Err(e) => Err(e),
        },
    }
}

/// The value of an optional member.
pub fn read_member<T: Wire>(j: Option<&Json>) -> (r: Result<Option<T>, Error>)
    ensures
        match r {
            Ok(v) => member_decode::<T>(view_of(j)) == Ok::<Option<T::V>, Error>(opt_view(v)),
            Err(e) => member_decode::<T>(view_of(j)) == Err::<Option<T::V>, Error>(e),
        },
{
    match j {
        None => Ok(None),
        Some(j) => match T::from_json(j) {
            Ok(v) => Ok(Some(v)),
            Err(e) => Err(e),
        },
    }
}

/// The member that an optional list becomes.
pub fn write_list_member<T: Wire>(o: &Option<Vec<T>>) -> (r: Result<Option<Json>, Error>)
    ensures
        match r {
            Ok(j) => list_member_encode::<T>(opt_seq_view(*o)) == Ok::<Option<JsonView>, Error>(
                view_opt(j),
            ),
            Err(e) => list_member_encode::<T>(opt_seq_view(*o)) == Err::<Option<JsonView>, Error>(
                e,
            ),
        },
{
    match o {
        None => Ok(None),
        Some(v) => match write_list(v) {
            Ok(trees) => Ok(Some(Json::Array(trees))),
            Err(e) => Err(e),
        },
    }
}

/// The list of an optional member.
pub fn read_list_member<T: Wire>(j: Option<&Json>, e: Error) -> (r: Result<Option<Vec<T>>, Error>)
    ensures
        match r {
            Ok(v) => list_member_decode::<T>(view_of(j), e) == Ok::<Option<Seq<T::V>>, Error>(
                opt_seq_view(v),
            ),
            Err(x) => list_member_decode::<T>(view_of(j), e) == Err::<Option<Seq<T::V>>, Error>(x),
        },
{
    match j {
        None => Ok(None),
        Some(Json::Array(a)) => match read_list(a) {
            Ok(v) => Ok(Some(v)),
            Err(x) => Err(x),
        },
        Some(_) => Err(e),
    }
}

} // verus!
