//! JSON trees, the lookup of an object's members, and the compact text of a
//! tree.

use vstd::prelude::*;
use crate::error::{opt_view, Error};
use crate::number::{decimal_of, i64_to_decimal, lemma_decimal_round_trip, parse_decimal, parse_i64};
use vstd::std_specs::cmp::PartialEqSpecImpl;
use crate::text::{from_chars, push_text, same_text};

verus! {

/// A JSON value. A number keeps the literal it is written with, and an
/// object keeps its members in the order in which they are written.
#[derive(Debug)]
pub enum Json {
    Null,
    Bool(bool),
    Number(String),
    String(String),
    Array(Vec<Json>),
    Object(Vec<(String, Json)>),
}

/// The mathematical model of a JSON value.
pub ghost enum JsonView {
    Null,
    Bool(bool),
    Number(Seq<char>),
    String(Seq<char>),
    Array(Seq<JsonView>),
    Object(Seq<(Seq<char>, JsonView)>),
}

/// The members of an object, in order.
pub type Members = Seq<(Seq<char>, JsonView)>;

/// The model of a tree.
pub open spec fn json_view(j: Json) -> JsonView
    decreases j,
{
    match j {
        Json::Null => JsonView::Null,
        Json::Bool(b) => JsonView::Bool(b),
        Json::Number(n) => JsonView::Number(n@),
        Json::String(s) => JsonView::String(s@),
        Json::Array(v) => JsonView::Array(jsons_view(v@)),
        Json::Object(m) => JsonView::Object(members_view(m@)),
    }
}

/// The models of the trees of a list.
pub open spec fn jsons_view(s: Seq<Json>) -> Seq<JsonView>
    decreases s,
{
    Seq::new(
        s.len(),
        |i: int|
            if 0 <= i < s.len() {
                json_view(s[i])
            } else {
                JsonView::Null
            },
    )
}

/// The models of the members of an object.
pub open spec fn members_view(s: Seq<(String, Json)>) -> Members
    decreases s,
{
    Seq::new(
        s.len(),
        |i: int|
            if 0 <= i < s.len() {
                (s[i].0@, json_view(s[i].1))
            } else {
                (Seq::empty(), JsonView::Null)
            },
    )
}

impl View for Json {
    type V = JsonView;

    open spec fn view(&self) -> JsonView {
        json_view(*self)
    }
}

/// The view of an optional borrowed tree.
pub open spec fn view_of(j: Option<&Json>) -> Option<JsonView> {
    match j {
        Some(j) => Some(j@),
        None => None,
    }
}

/// Where the last member named `key` stands, or -1 if there is none.
pub open spec fn position(m: Members, key: Seq<char>) -> int
    decreases m.len(),
{
    if m.len() == 0 {
        -1
    } else if m.last().0 == key {
        m.len() - 1
    } else {
        position(m.drop_last(), key)
    }
}

/// The value of the last member named `key`, if there is one.
pub open spec fn lookup(m: Members, key: Seq<char>) -> Option<JsonView> {
    let i = position(m, key);
    if 0 <= i < m.len() {
        Some(m[i].1)
    } else {
        None
    }
}

/// A position is that of a member of the given name, or -1.
pub proof fn lemma_position(m: Members, key: Seq<char>)
    ensures
        -1 <= position(m, key) < m.len(),
        position(m, key) >= 0 ==> m[position(m, key)].0 == key,
    decreases m.len(),
{
    if m.len() > 0 && m.last().0 != key {
        lemma_position(m.drop_last(), key);
    }
}

/// `m`, followed by a member `key` where `v` holds a value for it.
pub open spec fn with(m: Members, key: Seq<char>, v: Option<JsonView>) -> Members {
    match v {
        Some(j) => m.push((key, j)),
        None => m,
    }
}

/// What a lookup finds after a member was added.
pub proof fn lemma_lookup_with(m: Members, key: Seq<char>, v: Option<JsonView>, k: Seq<char>)
    ensures
        lookup(with(m, key, v), k) == if v is Some && key == k {
            v
        } else {
            lookup(m, k)
        },
{
    lemma_position(m, k);
    if v is Some {
        assert(with(m, key, v).drop_last() =~= m);
    }
}

/// The object whose one member is `key` with `payload`.
pub open spec fn single(key: Seq<char>, payload: JsonView) -> JsonView {
    JsonView::Object(seq![(key, payload)])
}

/// What a lookup finds in an object of one member.
pub proof fn lemma_lookup_single(key: Seq<char>, payload: JsonView, k: Seq<char>)
    ensures
        lookup(seq![(key, payload)], k) == if key == k {
            Some(payload)
        } else {
            None
        },
        position(seq![(key, payload)], k) == if key == k {
            0int
        } else {
            -1int
        },
{
    let m = seq![(key, payload)];
    assert(m.len() == 1 && m.last() == (key, payload));
    assert(m.drop_last() =~= Seq::<(Seq<char>, JsonView)>::empty());
    assert(position(m.drop_last(), k) == -1);
}

/// What every lookup finds in an object of one member.
pub proof fn lemma_single_lookups(key: Seq<char>, payload: JsonView)
    ensures
        forall|k: Seq<char>| #[trigger]
            position(seq![(key, payload)], k) == if key == k {
                0int
            } else {
                -1int
            },
{
    assert forall|k: Seq<char>| #[trigger]
        position(seq![(key, payload)], k) == if key == k {
            0int
        } else {
            -1int
        } by {
        lemma_lookup_single(key, payload, k);
    }
}

/// 1 where the object has a member named `key`, else 0.
pub open spec fn has(m: Members, key: Seq<char>) -> int {
    if lookup(m, key) is Some {
        1
    } else {
        0
    }
}

impl JsonView {
    /// The value of the member named `key`, where this is an object that has
    /// one; of several members of that name the last counts.
    pub open spec fn member(self, key: Seq<char>) -> Option<JsonView> {
        match self {
            JsonView::Object(m) => lookup(m, key),
            _ => None,
        }
    }
}

/// The digit of base 16 that stands for `d`, for `d` from 0 to 15.
pub open spec fn hex_digit(d: int) -> char {
    if d < 10 {
        (d + 48) as char
    } else {
        (d + 87) as char
    }
}

/// How one character of a string is written inside quotes: the quote and the
/// backslash behind a backslash, the control characters by their short
/// names or as `\u00` and two digits of base 16, every other character as it
/// is.
pub open spec fn escape_char(c: char) -> Seq<char> {
    if c == '"' {
        seq!['\\', '"']
    } else if c == '\\' {
        seq!['\\', '\\']
    } else if c == '\n' {
        seq!['\\', 'n']
    } else if c == '\r' {
        seq!['\\', 'r']
    } else if c == '\t' {
        seq!['\\', 't']
    } else if c as int == 8 {
        seq!['\\', 'b']
    } else if c as int == 12 {
        seq!['\\', 'f']
    } else if (c as int) < 32 {
        seq!['\\', 'u', '0', '0', hex_digit(c as int / 16), hex_digit(c as int % 16)]
    } else {
        seq![c]
    }
}

/// The first `n` characters of `s`, each written as inside quotes.
pub open spec fn escaped(s: Seq<char>, n: int) -> Seq<char>
    decreases n,
{
    if n <= 0 || n > s.len() {
        Seq::empty()
    } else {
        escaped(s, n - 1) + escape_char(s[n - 1])
    }
}

/// A string as JSON writes it: between quotes, each character escaped.
pub open spec fn quoted(s: Seq<char>) -> Seq<char> {
    seq!['"'] + escaped(s, s.len() as int) + seq!['"']
}

/// The compact text of a tree: no white space, members and elements in
/// order, separated by commas.
pub open spec fn text(j: JsonView) -> Seq<char>
    decreases j,
{
    match j {
        JsonView::Null => seq!['n', 'u', 'l', 'l'],
        JsonView::Bool(b) => if b {
            seq!['t', 'r', 'u', 'e']
        } else {
            seq!['f', 'a', 'l', 's', 'e']
        },
        JsonView::Number(n) => n,
        JsonView::String(s) => quoted(s),
        JsonView::Array(a) => seq!['['] + elements_text(a, a.len() as int) + seq![']'],
        JsonView::Object(m) => seq!['{'] + members_text(m, m.len() as int) + seq!['}'],
    }
}

/// The text of the first `n` elements of an array.
pub open spec fn elements_text(a: Seq<JsonView>, n: int) -> Seq<char>
    decreases a, n,
{
    if n <= 0 || n > a.len() {
        Seq::empty()
    } else if n == 1 {
        text(a[0])
    } else {
        elements_text(a, n - 1) + seq![','] + text(a[n - 1])
    }
}

/// The text of the first `n` members of an object.
pub open spec fn members_text(m: Members, n: int) -> Seq<char>
    decreases m, n,
{
    if n <= 0 || n > m.len() {
        Seq::empty()
    } else if n == 1 {
        quoted(m[0].0) + seq![':'] + text(m[0].1)
    } else {
        members_text(m, n - 1) + seq![','] + quoted(m[n - 1].0) + seq![':'] + text(m[n - 1].1)
    }
}

fn hex_char(d: u8) -> (c: char)
    requires
        d < 16,
    ensures
        c == hex_digit(d as int),
{
    if d < 10 {
        (48u8 + d) as char
    } else {
        (87u8 + d) as char
    }
}

fn write_char(c: char, out: &mut Vec<char>)
    ensures
        final(out)@ == old(out)@ + escape_char(c),
{
    let code: u32 = c as u32;
    if c == '"' {
        out.push('\\');
        out.push('"');
    } else if c == '\\' {
        out.push('\\');
        out.push('\\');
    } else if c == '\n' {
        out.push('\\');
        out.push('n');
    } else if c == '\r' {
        out.push('\\');
        out.push('r');
    } else if c == '\t' {
        out.push('\\');
        out.push('t');
    } else if code == 8 {
        out.push('\\');
        out.push('b');
    } else if code == 12 {
        out.push('\\');
        out.push('f');
    } else if code < 32 {
        out.push('\\');
        out.push('u');
        out.push('0');
        out.push('0');
        out.push(hex_char((code / 16) as u8));
        out.push(hex_char((code % 16) as u8));
    } else {
        out.push(c);
    }
    assert(out@ =~= old(out)@ + escape_char(c));
}

fn write_string(s: &str, out: &mut Vec<char>)
    ensures
        final(out)@ == old(out)@ + quoted(s@),
{
    let c = crate::text::to_chars(s);
    out.push('"');
    let mut i: usize = 0;
    while i < c.len()
        invariant
            i <= c.len(),
            c@ == s@,
            out@ == old(out)@ + seq!['"'] + escaped(s@, i as int),
        decreases c.len() - i,
    {
        write_char(c[i], out);
        i = i + 1;
        assert(out@ =~= old(out)@ + seq!['"'] + escaped(s@, i as int));
    }
    out.push('"');
    assert(out@ =~= old(out)@ + quoted(s@));
}

fn write_json(j: &Json, out: &mut Vec<char>)
    ensures
        final(out)@ == old(out)@ + text(j@),
    decreases j,
{
    match j {
        Json::Null => {
            out.push('n');
            out.push('u');
            out.push('l');
            out.push('l');
        },
        Json::Bool(b) => {
            if *b {
                out.push('t');
                out.push('r');
                out.push('u');
                out.push('e');
            } else {
                out.push('f');
                out.push('a');
                out.push('l');
                out.push('s');
                out.push('e');
            }
        },
        Json::Number(n) => {
            push_text(out, n.as_str());
        },
        Json::String(s) => {
            write_string(s.as_str(), out);
        },
        Json::Array(v) => {
            out.push('[');
            write_elements(v, out);
            out.push(']');
        },
        Json::Object(m) => {
            out.push('{');
            write_members(m, out);
            out.push('}');
        },
    }
    assert(out@ =~= old(out)@ + text(j@));
}

fn write_elements(v: &Vec<Json>, out: &mut Vec<char>)
    ensures
        final(out)@ == old(out)@ + elements_text(jsons_view(v@), v.len() as int),
    decreases v,
{
    let mut i: usize = 0;
    while i < v.len()
        invariant
            i <= v.len(),
            out@ == old(out)@ + elements_text(jsons_view(v@), i as int),
        decreases v.len() - i,
    {
        if i > 0 {
            out.push(',');
        }
        write_json(&v[i], out);
        i = i + 1;
        assert(out@ =~= old(out)@ + elements_text(jsons_view(v@), i as int));
    }
}

fn write_members(m: &Vec<(String, Json)>, out: &mut Vec<char>)
    ensures
        final(out)@ == old(out)@ + members_text(members_view(m@), m.len() as int),
    decreases m,
{
    let mut i: usize = 0;
    while i < m.len()
        invariant
            i <= m.len(),
            out@ == old(out)@ + members_text(members_view(m@), i as int),
        decreases m.len() - i,
    {
        if i > 0 {
            out.push(',');
        }
        write_string(m[i].0.as_str(), out);
        out.push(':');
        write_json(&m[i].1, out);
        i = i + 1;
        assert(out@ =~= old(out)@ + members_text(members_view(m@), i as int));
    }
}

impl Json {
    /// The compact text of this tree.
    pub fn to_text(&self) -> (s: String)
        ensures
            s@ == text(self@),
    {
        let mut out: Vec<char> = Vec::new();
        write_json(self, &mut out);
        assert(out@ =~= text(self@));
        from_chars(&out)
    }

    /// The value of the member named `key`, where this is an object that has
    /// one; of several members of that name the last counts.
    pub fn member(&self, key: &str) -> (r: Option<&Json>)
        ensures
            view_of(r) == self@.member(key@),
    {
        match self {
            Json::Object(m) => {
                match find(m, key) {
                    Some(i) => Some(&m[i].1),
                    None => None,
                }
            },
            _ => None,
        }
    }
}

/// Where the last member named `key` stands among `m`, if there is one.
pub fn find(m: &Vec<(String, Json)>, key: &str) -> (r: Option<usize>)
    ensures
        match r {
            Some(i) => i < m.len() && i == position(members_view(m@), key@),
            None => position(members_view(m@), key@) == -1,
        },
{
    let mut i: usize = m.len();
    assert(members_view(m@).take(i as int) =~= members_view(m@));
    while i > 0
        invariant
            i <= m.len(),
            position(members_view(m@), key@) == position(members_view(m@).take(i as int), key@),
        decreases i,
    {
        i = i - 1;
        let ghost part = members_view(m@).take(i + 1);
        assert(part.last() == members_view(m@)[i as int]);
        assert(part.drop_last() =~= members_view(m@).take(i as int));
        if same_text(m[i].0.as_str(), key) {
            return Some(i);
        }
    }
    None
}

/// The object whose one member is `key` with `payload`.
pub fn single_member(key: &str, payload: Json) -> (j: Json)
    ensures
        j@ == single(key@, payload@),
{
    let mut m: Vec<(String, Json)> = Vec::new();
    put(&mut m, key, payload);
    assert(members_view(m@) =~= seq![(key@, payload@)]);
    Json::Object(m)
}

/// Appends a member to the members of an object under construction.
pub fn put(members: &mut Vec<(String, Json)>, key: &str, value: Json)
    ensures
        members_view(final(members)@) == members_view(old(members)@).push((key@, value@)),
{
    members.push((String::from_str(key), value));
    assert(members_view(members@) =~= members_view(old(members)@).push((key@, value@)));
}

/// The view of an optional tree.
pub open spec fn view_opt(j: Option<Json>) -> Option<JsonView> {
    match j {
        Some(j) => Some(j@),
        None => None,
    }
}

/// Appends a member to the members of an object under construction, where
/// there is a value for it.
pub fn put_opt(members: &mut Vec<(String, Json)>, key: &str, value: Option<Json>)
    ensures
        members_view(final(members)@) == with(members_view(old(members)@), key@, view_opt(value)),
{
    match value {
        Some(j) => {
            put(members, key, j);
        },
        None => {},
    }
}

/// What every lookup finds after a member was added.
pub proof fn lemma_lookups_with(m: Members, key: Seq<char>, v: Option<JsonView>)
    ensures
        forall|k: Seq<char>| #[trigger]
            lookup(with(m, key, v), k) == if v is Some && key == k {
                v
            } else {
                lookup(m, k)
            },
        lookup(Seq::empty(), key) is None,
{
    assert forall|k: Seq<char>| #[trigger]
        lookup(with(m, key, v), k) == if v is Some && key == k {
            v
        } else {
            lookup(m, k)
        } by {
        lemma_lookup_with(m, key, v, k);
    }
}

/// Where every lookup finds its member after a member was added.
pub proof fn lemma_positions_with(m: Members, key: Seq<char>, v: Option<JsonView>)
    ensures
        forall|k: Seq<char>| #[trigger]
            position(with(m, key, v), k) == if v is Some && key == k {
                m.len() as int
            } else {
                position(m, k)
            },
        v is Some ==> with(m, key, v).len() == m.len() + 1 && with(m, key, v)[m.len() as int].1
            == v->Some_0,
        v is None ==> with(m, key, v) == m,
{
    assert forall|k: Seq<char>| #[trigger]
        position(with(m, key, v), k) == if v is Some && key == k {
            m.len() as int
        } else {
            position(m, k)
        } by {
        if v is Some {
            assert(with(m, key, v).drop_last() =~= m);
        }
    }
}

/// The tree of an optional string.
pub open spec fn string_tree(s: Option<Seq<char>>) -> Option<JsonView> {
    match s {
        Some(s) => Some(JsonView::String(s)),
        None => None,
    }
}

/// The tree of an optional truth value.
pub open spec fn bool_tree(b: Option<bool>) -> Option<JsonView> {
    match b {
        Some(b) => Some(JsonView::Bool(b)),
        None => None,
    }
}

/// The tree of an optional 32-bit integer: a number written as a decimal.
pub open spec fn i32_tree(i: Option<i32>) -> Option<JsonView> {
    match i {
        Some(i) => Some(JsonView::Number(decimal_of(i as int))),
        None => None,
    }
}

/// The string of an optional member: none where the member is absent, an
/// error where it is no string.
pub open spec fn string_of(j: Option<JsonView>, e: Error) -> Result<Option<Seq<char>>, Error> {
    match j {
        None => Ok(None),
        Some(JsonView::String(s)) => Ok(Some(s)),
        Some(_) => Err(e),
    }
}

/// The truth value of an optional member.
pub open spec fn bool_of(j: Option<JsonView>, e: Error) -> Result<Option<bool>, Error> {
    match j {
        None => Ok(None),
        Some(JsonView::Bool(b)) => Ok(Some(b)),
        Some(_) => Err(e),
    }
}

/// The 32-bit integer of an optional member: the member has to be a number
/// written as a decimal that 32 bits can hold.
pub open spec fn i32_of(j: Option<JsonView>, e: Error) -> Result<Option<i32>, Error> {
    match j {
        None => Ok(None),
        Some(JsonView::Number(n)) => match parse_decimal(n, i32::MIN as int, i32::MAX as int) {
            Some(i) => Ok(Some(i as i32)),
            None => Err(e),
        },
        Some(_) => Err(e),
    }
}

/// Strings, truth values and integers are read back from their trees.
pub proof fn lemma_plain_round_trip(e: Error)
    ensures
        forall|s: Option<Seq<char>>| #[trigger] string_of(string_tree(s), e) == Ok::<Option<Seq<char>>, Error>(s),
        forall|b: Option<bool>| #[trigger] bool_of(bool_tree(b), e) == Ok::<Option<bool>, Error>(b),
        forall|i: Option<i32>| #[trigger] i32_of(i32_tree(i), e) == Ok::<Option<i32>, Error>(i),
{
    assert forall|i: Option<i32>| #[trigger] i32_of(i32_tree(i), e) == Ok::<Option<i32>, Error>(i) by {
        if let Some(x) = i {
            lemma_decimal_round_trip(x as int, i32::MIN as int, i32::MAX as int);
        }
    }
}

/// The tree of an optional string.
pub fn string_json(s: &Option<String>) -> (j: Option<Json>)
    ensures
        view_opt(j) == string_tree(opt_view(*s)),
{
    match s {
        Some(s) => Some(Json::String(s.clone())),
        None => None,
    }
}

/// The tree of an optional truth value.
pub fn bool_json(b: &Option<bool>) -> (j: Option<Json>)
    ensures
        view_opt(j) == bool_tree(*b),
{
    match b {
        Some(b) => Some(Json::Bool(*b)),
        None => None,
    }
}

/// The tree of an optional 32-bit integer.
pub fn i32_json(i: &Option<i32>) -> (j: Option<Json>)
    ensures
        view_opt(j) == i32_tree(*i),
{
    match i {
        Some(i) => Some(Json::Number(i64_to_decimal(*i as i64))),
        None => None,
    }
}

/// The string of an optional member.
pub fn read_string(j: Option<&Json>, e: Error) -> (r: Result<Option<String>, Error>)
    ensures
        match r {
            Ok(s) => string_of(view_of(j), e) == Ok::<Option<Seq<char>>, Error>(opt_view(s)),
            Err(x) => string_of(view_of(j), e) == Err::<Option<Seq<char>>, Error>(x),
        },
{
    match j {
        None => Ok(None),
        Some(Json::String(s)) => Ok(Some(s.clone())),
        Some(_) => Err(e),
    }
}

/// The truth value of an optional member.
pub fn read_bool(j: Option<&Json>, e: Error) -> (r: Result<Option<bool>, Error>)
    ensures
        r == bool_of(view_of(j), e),
{
    match j {
        None => Ok(None),
        Some(Json::Bool(b)) => Ok(Some(*b)),
        Some(_) => Err(e),
    }
}

/// The 32-bit integer of an optional member.
pub fn read_i32(j: Option<&Json>, e: Error) -> (r: Result<Option<i32>, Error>)
    ensures
        r == i32_of(view_of(j), e),
{
    match j {
        None => Ok(None),
        Some(Json::Number(n)) => match parse_i64(n.as_str()) {
            Some(v) => {
                if -2147483648 <= v && v <= 2147483647 {
                    Ok(Some(v as i32))
                } else {
                    Err(e)
                }
            },
            None => Err(e),
        },
        Some(_) => Err(e),
    }
}

fn same_json(a: &Json, b: &Json) -> (r: bool)
    ensures
        r == (a@ == b@),
    decreases a,
{
    match a {
        Json::Null => matches!(b, Json::Null),
        Json::Bool(x) => match b {
            Json::Bool(y) => *x == *y,
            _ => false,
        },
        Json::Number(x) => match b {
            Json::Number(y) => same_text(x.as_str(), y.as_str()),
            _ => false,
        },
        Json::String(x) => match b {
            Json::String(y) => same_text(x.as_str(), y.as_str()),
            _ => false,
        },
        Json::Array(x) => match b {
            Json::Array(y) => same_elements(x, y),
            _ => false,
        },
        Json::Object(x) => match b {
            Json::Object(y) => same_members(x, y),
            _ => false,
        },
    }
}

fn same_elements(a: &Vec<Json>, b: &Vec<Json>) -> (r: bool)
    ensures
        r == (jsons_view(a@) == jsons_view(b@)),
    decreases a,
{
    if a.len() != b.len() {
        assert(jsons_view(a@).len() != jsons_view(b@).len());
        return false;
    }
    let mut i: usize = 0;
    while i < a.len()
        invariant
            i <= a.len(),
            a.len() == b.len(),
            forall|k: int| 0 <= k < i ==> json_view(a[k]) == json_view(b[k]),
        decreases a.len() - i,
    {
        if !same_json(&a[i], &b[i]) {
            assert(jsons_view(a@)[i as int] != jsons_view(b@)[i as int]);
            return false;
        }
        i = i + 1;
    }
    assert(jsons_view(a@) =~= jsons_view(b@));
    true
}

fn same_members(a: &Vec<(String, Json)>, b: &Vec<(String, Json)>) -> (r: bool)
    ensures
        r == (members_view(a@) == members_view(b@)),
    decreases a,
{
    if a.len() != b.len() {
        assert(members_view(a@).len() != members_view(b@).len());
        return false;
    }
    let mut i: usize = 0;
    while i < a.len()
        invariant
            i <= a.len(),
            a.len() == b.len(),
            forall|k: int| 0 <= k < i ==> members_view(a@)[k] == members_view(b@)[k],
        decreases a.len() - i,
    {
        if !same_text(a[i].0.as_str(), b[i].0.as_str()) || !same_json(&a[i].1, &b[i].1) {
            assert(members_view(a@)[i as int] != members_view(b@)[i as int]);
            return false;
        }
        i = i + 1;
    }
    assert(members_view(a@) =~= members_view(b@));
    true
}

impl PartialEq for Json {
    /// Two trees are equal where they are of the same kind and hold the
    /// same; the members of objects are compared in order.
    fn eq(&self, other: &Self) -> (r: bool) {
        same_json(self, other)
    }
}

impl PartialEqSpecImpl for Json {
    open spec fn obeys_eq_spec() -> bool {
        true
    }

    open spec fn eq_spec(&self, other: &Self) -> bool {
        self@ == other@
    }
}

fn copy_json(j: &Json) -> (r: Json)
    ensures
        r@ == j@,
    decreases j,
{
    match j {
        Json::Null => Json::Null,
        Json::Bool(x) => Json::Bool(*x),
        Json::Number(x) => Json::Number(x.clone()),
        Json::String(x) => Json::String(x.clone()),
        Json::Array(x) => Json::Array(copy_elements(x)),
        Json::Object(x) => Json::Object(copy_members(x)),
    }
}

fn copy_elements(a: &Vec<Json>) -> (r: Vec<Json>)
    ensures
        jsons_view(r@) == jsons_view(a@),
    decreases a,
{
    let mut r: Vec<Json> = Vec::new();
    let mut i: usize = 0;
    while i < a.len()
        invariant
            i <= a.len(),
            r.len() == i,
            forall|k: int| 0 <= k < i ==> json_view(r[k]) == json_view(a[k]),
        decreases a.len() - i,
    {
        r.push(copy_json(&a[i]));
        i = i + 1;
    }
    assert(jsons_view(r@) =~= jsons_view(a@));
    r
}

fn copy_members(a: &Vec<(String, Json)>) -> (r: Vec<(String, Json)>)
    ensures
        members_view(r@) == members_view(a@),
    decreases a,
{
    let mut r: Vec<(String, Json)> = Vec::new();
    let mut i: usize = 0;
    while i < a.len()
        invariant
            i <= a.len(),
            r.len() == i,
            forall|k: int| 0 <= k < i ==> members_view(r@)[k] == members_view(a@)[k],
        decreases a.len() - i,
    {
        r.push((a[i].0.clone(), copy_json(&a[i].1)));
        i = i + 1;
    }
    assert(members_view(r@) =~= members_view(a@));
    r
}

impl Clone for Json {
    fn clone(&self) -> (r: Self)
        ensures
            r@ == self@,
    {
        copy_json(self)
    }
}

} // verus!
