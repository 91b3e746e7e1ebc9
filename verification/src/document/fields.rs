//! References to the fields of a document, and the filter that compares one
//! field with a value.

use vstd::prelude::*;
use crate::error::{opt_view, seq_view, Error};
use crate::number::is_digit;
use crate::parse::holds;
use crate::text::{from_chars, to_chars};
use crate::json::{
    lemma_lookups_with, lemma_plain_round_trip, lookup, members_view, put_opt, read_string,
    string_json, string_of, string_tree, with, Json, JsonView, Members,
};
use crate::value::{Value, ValueView};
use crate::parse::lemma_trees_well_formed;
use crate::wire::{
    lemma_member_round_trip, lemma_members_well_formed, member_decode, member_encode, read_member,
    write_member, Wire,
};

verus! {

/// A reference to a field of a document, by its path.
#[derive(Debug, PartialEq)]
pub struct FieldReference {
    /// The path: the names of the nested fields, separated by dots; a name
    /// that is not simple stands between back-ticks.
    pub field_path: Option<String>,
}

/// The model of a reference to a field.
pub ghost struct FieldReferenceView {
    pub field_path: Option<Seq<char>>,
}

impl View for FieldReference {
    type V = FieldReferenceView;

    open spec fn view(&self) -> FieldReferenceView {
        FieldReferenceView { field_path: opt_view(self.field_path) }
    }
}

/// A letter of the Latin alphabet, small or capital.
pub open spec fn is_letter(c: char) -> bool {
    97 <= c as int <= 122 || 65 <= c as int <= 90
}

/// A simple field name: letters, digits and underscores, the first no digit.
pub open spec fn is_simple(name: Seq<char>) -> bool {
    &&& name.len() > 0
    &&& !is_digit(name[0])
    &&& forall|i: int|
        0 <= i < name.len() ==> is_letter(#[trigger] name[i]) || is_digit(name[i]) || name[i] == '_'
}

/// A character of a quoted name: a back-tick or a backslash stands behind a
/// backslash.
pub open spec fn quote_char(c: char) -> Seq<char> {
    if c == '`' || c == '\\' {
        seq!['\\', c]
    } else {
        seq![c]
    }
}

/// The first `n` characters of a name as they stand between back-ticks.
pub open spec fn quoted_name(name: Seq<char>, n: int) -> Seq<char>
    decreases n,
{
    if n <= 0 || n > name.len() {
        Seq::empty()
    } else {
        quoted_name(name, n - 1) + quote_char(name[n - 1])
    }
}

/// A name as it stands in a path: as it is where it is simple, else between
/// back-ticks.
pub open spec fn segment_text(name: Seq<char>) -> Seq<char> {
    if is_simple(name) {
        name
    } else {
        seq!['`'] + quoted_name(name, name.len() as int) + seq!['`']
    }
}

/// The path of the first `n` names: the names as they stand in a path,
/// separated by dots.
pub open spec fn path_text(names: Seq<Seq<char>>, n: int) -> Seq<char>
    decreases n,
{
    if n <= 0 || n > names.len() {
        Seq::empty()
    } else if n == 1 {
        segment_text(names[0])
    } else {
        path_text(names, n - 1) + seq!['.'] + segment_text(names[n - 1])
    }
}

fn simple_name(c: &Vec<char>) -> (r: bool)
    ensures
        r == is_simple(c@),
{
    if c.len() == 0 || (c[0] >= '0' && c[0] <= '9') {
        return false;
    }
    let mut i: usize = 0;
    while i < c.len()
        invariant
            i <= c.len(),
            forall|k: int|
                0 <= k < i ==> is_letter(#[trigger] c@[k]) || is_digit(c@[k]) || c@[k] == '_',
        decreases c.len() - i,
    {
        let x = c[i];
        let simple = (x >= 'a' && x <= 'z') || (x >= 'A' && x <= 'Z') || (x >= '0' && x <= '9') || x
            == '_';
        if !simple {
            return false;
        }
        i = i + 1;
    }
    true
}

fn push_segment(out: &mut Vec<char>, name: &str)
    ensures
        final(out)@ == old(out)@ + segment_text(name@),
{
    let c = to_chars(name);
    if simple_name(&c) {
        let mut i: usize = 0;
        while i < c.len()
            invariant
                i <= c.len(),
                out@ == old(out)@ + c@.take(i as int),
            decreases c.len() - i,
        {
            out.push(c[i]);
            assert(c@.take(i + 1) =~= c@.take(i as int).push(c@[i as int]));
            i = i + 1;
        }
        assert(c@.take(c.len() as int) =~= c@);
    } else {
        out.push('`');
        let mut i: usize = 0;
        while i < c.len()
            invariant
                i <= c.len(),
                c@ == name@,
                out@ == old(out)@ + seq!['`'] + quoted_name(name@, i as int),
            decreases c.len() - i,
        {
            if c[i] == '`' || c[i] == '\\' {
                out.push('\\');
            }
            out.push(c[i]);
            i = i + 1;
            assert(out@ =~= old(out)@ + seq!['`'] + quoted_name(name@, i as int));
        }
        out.push('`');
        assert(out@ =~= old(out)@ + segment_text(name@));
    }
}

impl FieldReference {
    /// The reference to the field that the names lead to, from the
    /// outermost field inwards. A name that is not simple is put between
    /// back-ticks, its back-ticks and backslashes behind a backslash.
    pub fn from_segments(names: &Vec<String>) -> (r: FieldReference)
        ensures
            r@.field_path == Some(path_text(seq_view(names@), names.len() as int)),
    {
        let mut out: Vec<char> = Vec::new();
        let mut i: usize = 0;
        while i < names.len()
            invariant
                i <= names.len(),
                out@ == path_text(seq_view(names@), i as int),
            decreases names.len() - i,
        {
            if i > 0 {
                out.push('.');
            }
            push_segment(&mut out, names[i].as_str());
            i = i + 1;
            assert(out@ =~= path_text(seq_view(names@), i as int));
        }
        FieldReference { field_path: Some(from_chars(&out)) }
    }
}

/// A character of a simple field name.
pub open spec fn is_simple_char(c: char) -> bool {
    is_letter(c) || is_digit(c) || c == '_'
}

/// Where the run of characters of simple names that starts at `i` ends.
pub open spec fn simple_end(s: Seq<char>, i: int) -> int
    decreases s.len() - i,
{
    if 0 <= i < s.len() && is_simple_char(s[i]) {
        simple_end(s, i + 1)
    } else {
        i
    }
}

/// The characters of a quoted name from `i` on, behind those of `before`, up
/// to the closing back-tick, and the position after it. A backslash has to
/// stand before a back-tick or a backslash.
pub open spec fn parse_quoted_name(s: Seq<char>, i: int, before: Seq<char>) -> Option<
    (Seq<char>, int),
>
    decreases s.len() - i,
{
    if i < 0 || i >= s.len() {
        None
    } else if s[i] == '`' {
        Some((before, i + 1))
    } else if s[i] == '\\' {
        if i + 1 < s.len() && (s[i + 1] == '`' || s[i + 1] == '\\') {
            parse_quoted_name(s, i + 2, before.push(s[i + 1]))
        } else {
            None
        }
    } else {
        parse_quoted_name(s, i + 1, before.push(s[i]))
    }
}

/// The name that starts at `i`, simple or between back-ticks, and the
/// position after it.
pub open spec fn parse_name(s: Seq<char>, i: int) -> Option<(Seq<char>, int)> {
    if i < 0 || i >= s.len() {
        None
    } else if s[i] == '`' {
        parse_quoted_name(s, i + 1, Seq::empty())
    } else {
        let e = simple_end(s, i);
        if i < e <= s.len() && !is_digit(s[i]) {
            Some((s.subrange(i, e), e))
        } else {
            None
        }
    }
}

/// The names of a path from the one that starts at `i` on, behind those of
/// `before`: names separated by dots, up to the end of the path.
pub open spec fn parse_names(s: Seq<char>, i: int, before: Seq<Seq<char>>) -> Option<
    Seq<Seq<char>>,
>
    decreases s.len() - i,
{
    match parse_name(s, i) {
        None => None,
        Some((name, j)) => if j <= i || j > s.len() {
            None
        } else if j == s.len() {
            Some(before.push(name))
        } else if s[j] == '.' {
            parse_names(s, j + 1, before.push(name))
        } else {
            None
        },
    }
}

/// The names that a path leads through, where the path follows the rule for
/// writing them.
pub open spec fn parse_path(s: Seq<char>) -> Option<Seq<Seq<char>>> {
    parse_names(s, 0, Seq::empty())
}

fn pass_simple(c: &Vec<char>, from: usize) -> (to: usize)
    requires
        from <= c.len(),
    ensures
        to == simple_end(c@, from as int),
        from <= to <= c.len(),
{
    let mut i: usize = from;
    while i < c.len() && ((c[i] >= 'a' && c[i] <= 'z') || (c[i] >= 'A' && c[i] <= 'Z') || (c[i]
        >= '0' && c[i] <= '9') || c[i] == '_')
        invariant
            from <= i <= c.len(),
            simple_end(c@, from as int) == simple_end(c@, i as int),
        decreases c.len() - i,
    {
        i = i + 1;
    }
    i
}

fn read_quoted_name(c: &Vec<char>, start: usize) -> (r: Option<(Vec<char>, usize)>)
    requires
        start <= c.len(),
    ensures
        match r {
            Some((name, j)) => parse_quoted_name(c@, start as int, Seq::empty()) == Some(
                (name@, j as int),
            ) && start < j <= c.len(),
            None => parse_quoted_name(c@, start as int, Seq::empty()) is None,
        },
{
    let mut out: Vec<char> = Vec::new();
    let mut i: usize = start;
    while i < c.len()
        invariant
            start <= i <= c.len(),
            parse_quoted_name(c@, start as int, Seq::empty()) == parse_quoted_name(
                c@,
                i as int,
                out@,
            ),
        decreases c.len() - i,
    {
        let x = c[i];
        if x == '`' {
            return Some((out, i + 1));
        } else if x == '\\' {
            if c.len() - i > 1 && (c[i + 1] == '`' || c[i + 1] == '\\') {
                out.push(c[i + 1]);
                i = i + 2;
            } else {
                return None;
            }
        } else {
            out.push(x);
            i = i + 1;
        }
    }
    None
}

fn read_name(c: &Vec<char>, i: usize) -> (r: Option<(Vec<char>, usize)>)
    requires
        i <= c.len(),
    ensures
        match r {
            Some((name, j)) => parse_name(c@, i as int) == Some((name@, j as int)) && i < j
                <= c.len(),
            None => parse_name(c@, i as int) is None,
        },
{
    if i >= c.len() {
        return None;
    }
    if c[i] == '`' {
        read_quoted_name(c, i + 1)
    } else {
        let e = pass_simple(c, i);
        if e > i && !(c[i] >= '0' && c[i] <= '9') {
            let mut name: Vec<char> = Vec::new();
            let mut k: usize = i;
            while k < e
                invariant
                    i <= k <= e <= c.len(),
                    name@ == c@.subrange(i as int, k as int),
                decreases e - k,
            {
                name.push(c[k]);
                assert(c@.subrange(i as int, k + 1) =~= c@.subrange(i as int, k as int).push(
                    c@[k as int],
                ));
                k = k + 1;
            }
            Some((name, e))
        } else {
            None
        }
    }
}

impl FieldReference {
    /// The names that the path leads through, from the outermost field
    /// inwards; nothing where no path is set or the path does not follow the
    /// rule for writing names.
    pub fn segments(&self) -> (r: Option<Vec<String>>)
        ensures
            match self@.field_path {
                Some(path) => match r {
                    Some(names) => parse_path(path) == Some(seq_view(names@)),
                    None => parse_path(path) is None,
                },
                None => r is None,
            },
    {
        let path = match &self.field_path {
            Some(p) => p,
            None => {
                return None;
            },
        };
        let c = to_chars(path.as_str());
        let mut names: Vec<String> = Vec::new();
        let mut i: usize = 0;
        assert(seq_view(names@) =~= Seq::<Seq<char>>::empty());
        while i <= c.len()
            invariant
                i <= c.len(),
                c@ == path@,
                self@.field_path == Some(path@),
                parse_path(path@) == parse_names(c@, i as int, seq_view(names@)),
            decreases c.len() - i,
        {
            let ghost before = seq_view(names@);
            match read_name(&c, i) {
                None => {
                    return None;
                },
                Some((name, j)) => {
                    let text = from_chars(&name);
                    names.push(text);
                    assert(seq_view(names@) =~= before.push(name@));
                    if j == c.len() {
                        return Some(names);
                    } else if c[j] == '.' {
                        i = j + 1;
                    } else {
                        return None;
                    }
                },
            }
        }
        None
    }
}

impl Wire for FieldReference {
    /// The member `fieldPath`, where a path is set.
    open spec fn encode(v: FieldReferenceView) -> Result<JsonView, Error> {
        Ok(JsonView::Object(with(Seq::empty(), "fieldPath"@, string_tree(v.field_path))))
    }

    open spec fn decode(j: JsonView) -> Result<FieldReferenceView, Error> {
        match j {
            JsonView::Object(m) => match string_of(lookup(m, "fieldPath"@), Error::InvalidQuery) {
                Err(e) => Err(e),
                Ok(field_path) => Ok(FieldReferenceView { field_path: field_path }),
            },
            _ => Err(Error::InvalidQuery),
        }
    }

    fn to_json(&self) -> (r: Result<Json, Error>) {
        let mut m: Vec<(String, Json)> = Vec::new();
        assert(members_view(m@) =~= Seq::<(Seq<char>, JsonView)>::empty());
        put_opt(&mut m, "fieldPath", string_json(&self.field_path));
        Ok(Json::Object(m))
    }

    fn from_json(j: &Json) -> (r: Result<FieldReference, Error>) {
        match j {
            Json::Object(_) => {
                match read_string(j.member("fieldPath"), Error::InvalidQuery) {
                    Ok(x) => Ok(FieldReference { field_path: x }),
                    Err(e) => Err(e),
                }
            },
            _ => Err(Error::InvalidQuery),
        }
    }

    proof fn lemma_round_trip(v: FieldReferenceView) {
        lemma_lookups_with(Seq::empty(), "fieldPath"@, string_tree(v.field_path));
        lemma_plain_round_trip(Error::InvalidQuery);
    }

    proof fn lemma_well_formed(v: FieldReferenceView) {
        lemma_trees_well_formed();
    }
}

/// A filter on one field: the field, the operator, and the value that the
/// field is compared with.
#[derive(Debug, PartialEq)]
pub struct FieldFilter {
    /// The field to filter by.
    pub field: Option<FieldReference>,
    /// The value to compare to.
    pub value: Option<Value>,
    /// The operator to filter by.
    pub op: Option<String>,
}

/// The model of a filter on a field.
pub ghost struct FieldFilterView {
    pub field: Option<FieldReferenceView>,
    pub value: Option<ValueView>,
    pub op: Option<Seq<char>>,
}

impl View for FieldFilter {
    type V = FieldFilterView;

    open spec fn view(&self) -> FieldFilterView {
        FieldFilterView {
            field: opt_view(self.field),
            value: opt_view(self.value),
            op: opt_view(self.op),
        }
    }
}

impl FieldFilterView {
    /// The members of the filter's tree, given the tree of its value.
    pub open spec fn members(self, value: Option<JsonView>) -> Members {
        with(
            with(
                with(Seq::empty(), "field"@, member_encode::<FieldReference>(self.field)->Ok_0),
                "value"@,
                value,
            ),
            "op"@,
            string_tree(self.op),
        )
    }
}

impl Wire for FieldFilter {
    /// The members `field`, `value` and `op`, each where the filter holds
    /// it, or `MalformedValue` where the value may not be sent.
    open spec fn encode(v: FieldFilterView) -> Result<JsonView, Error> {
        match member_encode::<Value>(v.value) {
            Err(e) => Err(e),
            Ok(value) => Ok(JsonView::Object(v.members(value))),
        }
    }

    open spec fn decode(j: JsonView) -> Result<FieldFilterView, Error> {
        match j {
            JsonView::Object(m) => match member_decode::<FieldReference>(lookup(m, "field"@)) {
                Err(e) => Err(e),
                Ok(field) => match member_decode::<Value>(lookup(m, "value"@)) {
                    Err(e) => Err(e),
                    Ok(value) => match string_of(lookup(m, "op"@), Error::InvalidQuery) {
                        Err(e) => Err(e),
                        Ok(op) => Ok(FieldFilterView { field: field, value: value, op: op }),
                    },
                },
            },
            _ => Err(Error::InvalidQuery),
        }
    }

    fn to_json(&self) -> (r: Result<Json, Error>) {
        let value = match write_member(&self.value) {
            Ok(x) => x,
            Err(e) => {
                return Err(e);
            },
        };
        let field = match write_member(&self.field) {
            Ok(x) => x,
            Err(e) => {
                return Err(e);
            },
        };
        let mut m: Vec<(String, Json)> = Vec::new();
        assert(members_view(m@) =~= Seq::<(Seq<char>, JsonView)>::empty());
        put_opt(&mut m, "field", field);
        put_opt(&mut m, "value", value);
        put_opt(&mut m, "op", string_json(&self.op));
        Ok(Json::Object(m))
    }

    fn from_json(j: &Json) -> (r: Result<FieldFilter, Error>) {
        match j {
            Json::Object(_) => {
                let field = match read_member::<FieldReference>(j.member("field")) {
                    Ok(x) => x,
                    Err(e) => {
                        return Err(e);
                    },
                };
                let value = match read_member::<Value>(j.member("value")) {
                    Ok(x) => x,
                    Err(e) => {
                        return Err(e);
                    },
                };
                let op = match read_string(j.member("op"), Error::InvalidQuery) {
                    Ok(x) => x,
                    Err(e) => {
                        return Err(e);
                    },
                };
                Ok(FieldFilter { field: field, value: value, op: op })
            },
            _ => Err(Error::InvalidQuery),
        }
    }

    proof fn lemma_round_trip(v: FieldFilterView) {
        reveal_strlit("field");
        reveal_strlit("value");
        reveal_strlit("op");
        assert("field"@[0] == 'f' && "value"@[0] == 'v' && "op"@.len() == 2 && "field"@.len() == 5
            && "value"@.len() == 5);
        let field = member_encode::<FieldReference>(v.field)->Ok_0;
        let value = member_encode::<Value>(v.value)->Ok_0;
        let first = with(Seq::empty(), "field"@, field);
        let second = with(first, "value"@, value);
        lemma_lookups_with(Seq::empty(), "field"@, field);
        lemma_lookups_with(first, "value"@, value);
        lemma_lookups_with(second, "op"@, string_tree(v.op));
        lemma_lookups_with(Seq::empty(), "value"@, None);
        lemma_lookups_with(Seq::empty(), "op"@, None);
        lemma_plain_round_trip(Error::InvalidQuery);
        lemma_member_round_trip::<FieldReference>(Error::InvalidQuery);
        lemma_member_round_trip::<Value>(Error::InvalidQuery);
    }

    proof fn lemma_well_formed(v: FieldFilterView) {
        lemma_trees_well_formed();
        lemma_members_well_formed::<FieldReference>();
        lemma_members_well_formed::<Value>();
    }
}

/// A copy of an optional text.
pub fn copy_text(o: &Option<String>) -> (r: Option<String>)
    ensures
        opt_view(r) == opt_view(*o),
{
    match o {
        Some(s) => Some(s.clone()),
        None => None,
    }
}

/// A copy of an optional reference to a field.
pub fn copy_field(o: &Option<FieldReference>) -> (r: Option<FieldReference>)
    ensures
        opt_view(r) == opt_view(*o),
{
    match o {
        Some(f) => Some(f.clone()),
        None => None,
    }
}

impl Clone for FieldReference {
    fn clone(&self) -> (r: Self)
        ensures
            r@ == self@,
    {
        FieldReference { field_path: copy_text(&self.field_path) }
    }
}

impl Clone for FieldFilter {
    fn clone(&self) -> (r: Self)
        ensures
            r@ == self@,
    {
        let value = match &self.value {
            Some(v) => Some(v.clone()),
            None => None,
        };
        FieldFilter { field: copy_field(&self.field), value: value, op: copy_text(&self.op) }
    }
}

/// Reading one character of a name that was written between back-ticks
/// gives that character.
pub proof fn lemma_parse_quoted_char(s: Seq<char>, p: int, c: char, before: Seq<char>)
    requires
        holds(s, p, quote_char(c)),
    ensures
        parse_quoted_name(s, p, before) == parse_quoted_name(
            s,
            p + quote_char(c).len(),
            before.push(c),
        ),
{
    let e = quote_char(c);
    assert(s[p + 0] == e[0]);
    if c == '`' || c == '\\' {
        assert(e.len() == 2 && e[0] == '\\' && e[1] == c);
        assert(s[p + 1] == e[1]);
    } else {
        assert(e.len() == 1 && e[0] == c);
    }
}

/// What is written of the first characters of a name stands at the start of
/// what is written of more of them.
pub proof fn lemma_quoted_name_prefix(name: Seq<char>, m: int, n: int)
    requires
        0 <= m <= n <= name.len(),
    ensures
        quoted_name(name, m).len() <= quoted_name(name, n).len(),
        forall|x: int|
            0 <= x < quoted_name(name, m).len() ==> quoted_name(name, n)[x] == quoted_name(name, m)[x],
    decreases n - m,
{
    if m < n {
        lemma_quoted_name_prefix(name, m, n - 1);
    }
}

/// Reading a name that was written between back-ticks, up to its `m`-th
/// character.
pub proof fn lemma_parse_quoted_prefix(s: Seq<char>, i: int, name: Seq<char>, m: int)
    requires
        holds(s, i, seq!['`'] + quoted_name(name, name.len() as int) + seq!['`']),
        0 <= m <= name.len(),
    ensures
        parse_quoted_name(s, i + 1, Seq::empty()) == parse_quoted_name(
            s,
            i + 1 + quoted_name(name, m).len(),
            name.take(m),
        ),
    decreases m,
{
    if m == 0 {
        assert(name.take(0) =~= Seq::<char>::empty());
    } else {
        lemma_parse_quoted_prefix(s, i, name, m - 1);
        let n = name.len() as int;
        let w = seq!['`'] + quoted_name(name, n) + seq!['`'];
        let p = i + 1 + quoted_name(name, m - 1).len();
        let e = quote_char(name[m - 1]);
        lemma_quoted_name_prefix(name, m, n);
        assert(quoted_name(name, m) == quoted_name(name, m - 1) + e);
        assert forall|k: int| 0 <= k < e.len() implies s[p + k] == #[trigger] e[k] by {
            let x = quoted_name(name, m - 1).len() + k;
            assert(quoted_name(name, m)[x] == e[k]);
            assert(quoted_name(name, n)[x] == quoted_name(name, m)[x]);
            assert(w[1 + x] == quoted_name(name, n)[x]);
            assert(s[i + (1 + x)] == w[1 + x]);
        }
        assert(w.len() == quoted_name(name, n).len() + 2);
        lemma_parse_quoted_char(s, p, name[m - 1], name.take(m - 1));
        assert(name.take(m - 1).push(name[m - 1]) =~= name.take(m));
    }
}

/// A simple name that the path holds, with a dot or the end of the path
/// behind it, ends where it ends.
pub proof fn lemma_simple_end(s: Seq<char>, i: int, name: Seq<char>, x: int)
    requires
        holds(s, i, name),
        is_simple(name),
        0 <= x <= name.len(),
        i + name.len() == s.len() || s[i + name.len()] == '.',
    ensures
        simple_end(s, i + x) == i + name.len(),
    decreases name.len() - x,
{
    if x < name.len() {
        assert(s[i + x] == name[x]);
        assert(is_simple_char(name[x]));
        lemma_simple_end(s, i, name, x + 1);
    }
}

/// Round trip for one name: a name that was written into a path, with a dot
/// or the end of the path behind it, is read back.
pub proof fn lemma_parse_segment(s: Seq<char>, i: int, name: Seq<char>)
    requires
        holds(s, i, segment_text(name)),
        i + segment_text(name).len() == s.len() || s[i + segment_text(name).len()] == '.',
    ensures
        segment_text(name).len() > 0,
        parse_name(s, i) == Some((name, i + segment_text(name).len())),
{
    let w = segment_text(name);
    if is_simple(name) {
        assert(s[i + 0] == name[0]);
        assert(is_simple_char(name[0]));
        lemma_simple_end(s, i, name, 0);
        assert(s.subrange(i, i + name.len()) =~= name);
    } else {
        let n = name.len() as int;
        assert(w == seq!['`'] + quoted_name(name, n) + seq!['`']);
        assert(w.len() == quoted_name(name, n).len() + 2);
        assert(w[0] == '`');
        assert(s[i + 0] == w[0]);
        lemma_parse_quoted_prefix(s, i, name, n);
        assert(name.take(n) =~= name);
        assert(w[w.len() - 1] == '`');
        assert(s[i + (w.len() - 1)] == w[w.len() - 1]);
    }
}

/// Where, in the path of the first names, the `m`-th name starts.
pub open spec fn segment_start(names: Seq<Seq<char>>, m: int) -> int {
    path_text(names, m).len() + if m > 0 {
        1int
    } else {
        0int
    }
}

/// The path of the first `n` names holds the `m`-th name where it starts,
/// and a dot behind it unless it is the last.
pub proof fn lemma_path_layout(names: Seq<Seq<char>>, n: int, m: int)
    requires
        0 <= m < n <= names.len(),
    ensures
        segment_start(names, m) + segment_text(names[m]).len() == path_text(names, m + 1).len(),
        path_text(names, m + 1).len() <= path_text(names, n).len(),
        holds(path_text(names, n), segment_start(names, m), segment_text(names[m])),
        m < n - 1 ==> path_text(names, m + 1).len() < path_text(names, n).len() && path_text(
            names,
            n,
        )[path_text(names, m + 1).len() as int] == '.',
        m == n - 1 ==> path_text(names, m + 1).len() == path_text(names, n).len(),
    decreases n - m,
{
    let t = segment_text(names[m]);
    let start = segment_start(names, m);
    if n > m + 1 {
        lemma_path_layout(names, n - 1, m);
        let before = path_text(names, n - 1);
        assert(path_text(names, n) == before + seq!['.'] + segment_text(names[n - 1]));
        assert forall|x: int| 0 <= x < t.len() implies path_text(names, n)[start + x] == #[trigger] t[x] by {
            assert(path_text(names, n)[start + x] == before[start + x]);
        }
        if m < n - 2 {
            let done = path_text(names, m + 1).len() as int;
            assert(path_text(names, n)[done] == before[done]);
        } else {
            assert(path_text(names, n)[before.len() as int] == '.');
        }
    } else {
        if m > 0 {
            let before = path_text(names, m);
            assert(path_text(names, n) == before + seq!['.'] + t);
            assert forall|x: int| 0 <= x < t.len() implies path_text(names, n)[start + x] == #[trigger] t[x] by {
                assert((before + seq!['.'] + t)[before.len() + 1 + x] == t[x]);
            }
        }
    }
}

/// Round trip for the names of a path, from the `m`-th on.
pub proof fn lemma_parse_names(names: Seq<Seq<char>>, m: int)
    requires
        0 <= m < names.len(),
    ensures
        parse_names(
            path_text(names, names.len() as int),
            segment_start(names, m),
            names.take(m),
        ) == Some(names),
    decreases names.len() - m,
{
    let n = names.len() as int;
    let s = path_text(names, n);
    let i = segment_start(names, m);
    lemma_path_layout(names, n, m);
    lemma_parse_segment(s, i, names[m]);
    if m == n - 1 {
        assert(names.take(m).push(names[m]) =~= names);
    } else {
        lemma_parse_names(names, m + 1);
        assert(names.take(m).push(names[m]) =~= names.take(m + 1));
    }
}

/// Round trip for paths: the names that a path was written from are read
/// back from it.
pub proof fn lemma_path_round_trip(names: Seq<Seq<char>>)
    requires
        names.len() >= 1,
    ensures
        parse_path(path_text(names, names.len() as int)) == Some(names),
{
    lemma_parse_names(names, 0);
    assert(names.take(0) =~= Seq::<Seq<char>>::empty());
}

impl Default for FieldReference {
    /// The reference without a path.
    fn default() -> (r: FieldReference)
        ensures
            r@ == (FieldReferenceView { field_path: None }),
    {
        FieldReference {
            field_path: None,
        }
    }
}

impl Default for FieldFilter {
    /// The filter that sets nothing.
    fn default() -> (r: FieldFilter)
        ensures
            r@ == (FieldFilterView { field: None, value: None, op: None }),
    {
        FieldFilter {
            field: None,
            value: None,
            op: None,
        }
    }
}

} // verus!
