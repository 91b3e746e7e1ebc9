//! Reading the text of JSON: from characters to a tree.

use vstd::prelude::*;
use crate::json::{
    bool_tree, elements_text, escape_char, escaped, hex_digit, i32_tree, jsons_view, members_text,
    members_view, quoted, single, string_tree, text, view_opt, with, Json, JsonView, Members,
};
use crate::number::{
    digits_end, is_digit, is_number_literal, lemma_decimal_is_literal, lemma_digits_end,
    number_scan, scan_number,
};
use crate::text::{from_chars, to_chars};

verus! {

/// `char::from_u32` of the standard library: the character with the given
/// code, where the code is that of a character, that is below 0xD800 or from
/// 0xE000 to 0x10FFFF; nothing otherwise.
pub assume_specification[ core::char::from_u32 ](code: u32) -> (r: Option<char>)
    ensures
        r == if is_scalar(code as int) {
            Some(code as char)
        } else {
            None::<char>
        },
;

/// The code of a character: not that of a surrogate, and within the range
/// of Unicode.
pub open spec fn is_scalar(code: int) -> bool {
    0 <= code < 0xD800 || 0xE000 <= code <= 0x10FFFF
}

/// White space between the parts of a text.
pub open spec fn is_space(c: char) -> bool {
    c == ' ' || c == '\n' || c == '\r' || c == '\t'
}

/// The first position from `i` on that holds no white space.
pub open spec fn skip_space(s: Seq<char>, i: int) -> int
    decreases s.len() - i,
{
    if 0 <= i < s.len() && is_space(s[i]) {
        skip_space(s, i + 1)
    } else {
        i
    }
}

/// The number that a digit of base 16 stands for.
pub open spec fn hex_value(c: char) -> Option<int> {
    if is_digit(c) {
        Some(c as int - 48)
    } else if 97 <= c as int <= 102 {
        Some(c as int - 87)
    } else if 65 <= c as int <= 70 {
        Some(c as int - 55)
    } else {
        None
    }
}

/// The number that the four digits of base 16 from `i` on stand for.
pub open spec fn code_unit(s: Seq<char>, i: int) -> Option<int> {
    if 0 <= i && i + 4 <= s.len() && hex_value(s[i]) is Some && hex_value(s[i + 1]) is Some
        && hex_value(s[i + 2]) is Some && hex_value(s[i + 3]) is Some {
        Some(
            ((hex_value(s[i])->Some_0 * 16 + hex_value(s[i + 1])->Some_0) * 16 + hex_value(
                s[i + 2],
            )->Some_0) * 16 + hex_value(s[i + 3])->Some_0,
        )
    } else {
        None
    }
}

/// The character that the escape stands for whose backslash stands just
/// before `i`, and the position after the escape. `\u` and four digits give
/// the character of that code; the two halves of a surrogate pair, each
/// written so, give one character.
pub open spec fn parse_escape(s: Seq<char>, i: int) -> Option<(char, int)> {
    if i < 0 || i >= s.len() {
        None
    } else if s[i] == '"' || s[i] == '\\' || s[i] == '/' {
        Some((s[i], i + 1))
    } else if s[i] == 'b' {
        Some((8 as char, i + 1))
    } else if s[i] == 'f' {
        Some((12 as char, i + 1))
    } else if s[i] == 'n' {
        Some(('\n', i + 1))
    } else if s[i] == 'r' {
        Some(('\r', i + 1))
    } else if s[i] == 't' {
        Some(('\t', i + 1))
    } else if s[i] == 'u' {
        match code_unit(s, i + 1) {
            None => None,
            Some(high) => if is_scalar(high) {
                Some((high as char, i + 5))
            } else if high < 0xDC00 && i + 6 < s.len() && s[i + 5] == '\\' && s[i + 6] == 'u' {
                match code_unit(s, i + 7) {
                    None => None,
                    Some(low) => if 0xDC00 <= low < 0xE000 {
                        Some(
                            ((0x10000 + (high - 0xD800) * 0x400 + (low - 0xDC00)) as char, i + 11),
                        )
                    } else {
                        None
                    },
                }
            } else {
                None
            },
        }
    } else {
        None
    }
}

/// The characters of a string from `i` on, behind those of `before`, up to
/// the closing quote, and the position after the quote. A control character
/// that is not escaped ends the reading without a result.
pub open spec fn parse_chars(s: Seq<char>, i: int, before: Seq<char>) -> Option<(Seq<char>, int)>
    decreases s.len() - i,
{
    if i < 0 || i >= s.len() {
        None
    } else if s[i] == '"' {
        Some((before, i + 1))
    } else if s[i] == '\\' {
        match parse_escape(s, i + 1) {
            None => None,
            Some((c, j)) => if j > i {
                parse_chars(s, j, before.push(c))
            } else {
                None
            },
        }
    } else if (s[i] as int) < 32 {
        None
    } else {
        parse_chars(s, i + 1, before.push(s[i]))
    }
}

/// The text holds `word` at `i`.
pub open spec fn word_at(s: Seq<char>, i: int, word: Seq<char>) -> bool {
    0 <= i && i + word.len() <= s.len() && s.subrange(i, i + word.len()) == word
}

/// The value that starts at `i`, and the position after it.
pub open spec fn parse_value(s: Seq<char>, i: int) -> Option<(JsonView, int)>
    decreases s.len() - i, 0int,
{
    if i < 0 || i >= s.len() {
        None
    } else if s[i] == '{' {
        let k = skip_space(s, i + 1);
        if k <= i || k > s.len() {
            None
        } else if k < s.len() && s[k] == '}' {
            Some((JsonView::Object(Seq::empty()), k + 1))
        } else {
            match parse_members(s, k, Seq::empty()) {
                Some((m, j)) => Some((JsonView::Object(m), j)),
                None => None,
            }
        }
    } else if s[i] == '[' {
        let k = skip_space(s, i + 1);
        if k <= i || k > s.len() {
            None
        } else if k < s.len() && s[k] == ']' {
            Some((JsonView::Array(Seq::empty()), k + 1))
        } else {
            match parse_elements(s, k, Seq::empty()) {
                Some((a, j)) => Some((JsonView::Array(a), j)),
                None => None,
            }
        }
    } else if s[i] == '"' {
        match parse_chars(s, i + 1, Seq::empty()) {
            Some((t, j)) => Some((JsonView::String(t), j)),
            None => None,
        }
    } else if word_at(s, i, seq!['t', 'r', 'u', 'e']) {
        Some((JsonView::Bool(true), i + 4))
    } else if word_at(s, i, seq!['f', 'a', 'l', 's', 'e']) {
        Some((JsonView::Bool(false), i + 5))
    } else if word_at(s, i, seq!['n', 'u', 'l', 'l']) {
        Some((JsonView::Null, i + 4))
    } else {
        match number_scan(s, i) {
            Some(e) => if i < e <= s.len() {
                Some((JsonView::Number(s.subrange(i, e)), e))
            } else {
                None
            },
            None => None,
        }
    }
}

/// The elements of an array from the one that starts at `i` on, behind those
/// of `before`, and the position after the closing bracket.
pub open spec fn parse_elements(s: Seq<char>, i: int, before: Seq<JsonView>) -> Option<
    (Seq<JsonView>, int),
>
    decreases s.len() - i, 1int,
{
    match parse_value(s, i) {
        None => None,
        Some((v, j)) => {
            let k = skip_space(s, j);
            let next = skip_space(s, k + 1);
            if j <= i || k < j || k >= s.len() {
                None
            } else if s[k] == ']' {
                Some((before.push(v), k + 1))
            } else if s[k] == ',' && k < next <= s.len() {
                parse_elements(s, next, before.push(v))
            } else {
                None
            }
        },
    }
}

/// The members of an object from the one whose name starts at `i` on, behind
/// those of `before`, and the position after the closing brace.
pub open spec fn parse_members(s: Seq<char>, i: int, before: Members) -> Option<(Members, int)>
    decreases s.len() - i, 1int,
{
    if i < 0 || i >= s.len() || s[i] != '"' {
        None
    } else {
        match parse_chars(s, i + 1, Seq::empty()) {
            None => None,
            Some((name, j)) => {
                let k = skip_space(s, j);
                let start = skip_space(s, k + 1);
                if j <= i || k < j || k >= s.len() || s[k] != ':' || start <= k || start > s.len() {
                    None
                } else {
                    match parse_value(s, start) {
                        None => None,
                        Some((v, after)) => {
                            let end = skip_space(s, after);
                            let next = skip_space(s, end + 1);
                            if after <= start || end < after || end >= s.len() {
                                None
                            } else if s[end] == '}' {
                                Some((before.push((name, v)), end + 1))
                            } else if s[end] == ',' && end < next <= s.len() {
                                parse_members(s, next, before.push((name, v)))
                            } else {
                                None
                            }
                        },
                    }
                }
            },
        }
    }
}

/// The tree that a text stands for: one value, with white space, if any,
/// before and after it and between its parts.
pub open spec fn parse_text(s: Seq<char>) -> Option<JsonView> {
    match parse_value(s, skip_space(s, 0)) {
        Some((v, j)) => if skip_space(s, j) == s.len() {
            Some(v)
        } else {
            None
        },
        None => None,
    }
}

fn pass_space(c: &Vec<char>, from: usize) -> (to: usize)
    requires
        from <= c.len(),
    ensures
        to == skip_space(c@, from as int),
        from <= to <= c.len(),
{
    let mut i: usize = from;
    while i < c.len() && (c[i] == ' ' || c[i] == '\n' || c[i] == '\r' || c[i] == '\t')
        invariant
            from <= i <= c.len(),
            skip_space(c@, from as int) == skip_space(c@, i as int),
        decreases c.len() - i,
    {
        i = i + 1;
    }
    i
}

fn hex_of(x: char) -> (r: Option<u32>)
    ensures
        match r {
            Some(v) => hex_value(x) == Some(v as int) && v < 16,
            None => hex_value(x) is None,
        },
{
    let code: u32 = x as u32;
    if x >= '0' && x <= '9' {
        Some(code - 48)
    } else if x >= 'a' && x <= 'f' {
        Some(code - 87)
    } else if x >= 'A' && x <= 'F' {
        Some(code - 55)
    } else {
        None
    }
}

fn read_code_unit(c: &Vec<char>, i: usize) -> (r: Option<u32>)
    requires
        i <= c.len(),
    ensures
        match r {
            Some(v) => code_unit(c@, i as int) == Some(v as int) && v < 0x10000 && i + 4 <= c.len(),
            None => code_unit(c@, i as int) is None,
        },
{
    if c.len() - i < 4 {
        return None;
    }
    let a = match hex_of(c[i]) {
        Some(v) => v,
        None => {
            return None;
        },
    };
    let b = match hex_of(c[i + 1]) {
        Some(v) => v,
        None => {
            return None;
        },
    };
    let d = match hex_of(c[i + 2]) {
        Some(v) => v,
        None => {
            return None;
        },
    };
    let e = match hex_of(c[i + 3]) {
        Some(v) => v,
        None => {
            return None;
        },
    };
    Some(((a * 16 + b) * 16 + d) * 16 + e)
}

fn read_escape(c: &Vec<char>, i: usize) -> (r: Option<(char, usize)>)
    requires
        i <= c.len(),
    ensures
        match r {
            Some((x, j)) => parse_escape(c@, i as int) == Some((x, j as int)) && i < j <= c.len(),
            None => parse_escape(c@, i as int) is None,
        },
{
    if i >= c.len() {
        return None;
    }
    let x = c[i];
    if x == '"' || x == '\\' || x == '/' {
        Some((x, i + 1))
    } else if x == 'b' {
        Some(('\u{8}', i + 1))
    } else if x == 'f' {
        Some(('\u{c}', i + 1))
    } else if x == 'n' {
        Some(('\n', i + 1))
    } else if x == 'r' {
        Some(('\r', i + 1))
    } else if x == 't' {
        Some(('\t', i + 1))
    } else if x == 'u' {
        let high = match read_code_unit(c, i + 1) {
            Some(v) => v,
            None => {
                return None;
            },
        };
        match core::char::from_u32(high) {
            Some(ch) => Some((ch, i + 5)),
            None => {
                if high < 0xDC00 && c.len() - i > 6 && c[i + 5] == '\\' && c[i + 6] == 'u' {
                    let low = match read_code_unit(c, i + 7) {
                        Some(v) => v,
                        None => {
                            return None;
                        },
                    };
                    if 0xDC00 <= low && low < 0xE000 {
                        let code: u32 = 0x10000 + (high - 0xD800) * 0x400 + (low - 0xDC00);
                        match core::char::from_u32(code) {
                            Some(ch) => Some((ch, i + 11)),
                            None => None,
                        }
                    } else {
                        None
                    }
                } else {
                    None
                }
            },
        }
    } else {
        None
    }
}

fn read_chars(c: &Vec<char>, start: usize) -> (r: Option<(String, usize)>)
    requires
        start <= c.len(),
    ensures
        match r {
            Some((t, j)) => parse_chars(c@, start as int, Seq::empty()) == Some((t@, j as int))
                && start < j <= c.len(),
            None => parse_chars(c@, start as int, Seq::empty()) is None,
        },
{
    let mut out: Vec<char> = Vec::new();
    let mut i: usize = start;
    while i < c.len()
        invariant
            start <= i <= c.len(),
            parse_chars(c@, start as int, Seq::empty()) == parse_chars(c@, i as int, out@),
        decreases c.len() - i,
    {
        let x = c[i];

        if x == '"' {
            return Some((from_chars(&out), i + 1));
        } else if x == '\\' {
            match read_escape(c, i + 1) {
                Some((ch, j)) => {
                    out.push(ch);
                    i = j;
                },
                None => {
                    return None;
                },
            }
        } else if ' ' > x {
            return None;
        } else {
            out.push(x);
            i = i + 1;
        }
    }
    None
}

fn at_word(c: &Vec<char>, i: usize, word: &Vec<char>) -> (r: bool)
    requires
        i <= c.len(),
    ensures
        r == word_at(c@, i as int, word@),
{
    if c.len() - i < word.len() {
        return false;
    }
    let mut k: usize = 0;
    while k < word.len()
        invariant
            k <= word.len(),
            i + word.len() <= c.len(),
            forall|x: int| 0 <= x < k ==> c@[i + x] == word@[x],
        decreases word.len() - k,
    {
        if c[i + k] != word[k] {
            assert(c@.subrange(i as int, i + word.len())[k as int] != word@[k as int]);
            return false;
        }
        k = k + 1;
    }
    assert(c@.subrange(i as int, i + word.len()) =~= word@);
    true
}

fn sub_text(c: &Vec<char>, from: usize, to: usize) -> (s: String)
    requires
        from <= to <= c.len(),
    ensures
        s@ == c@.subrange(from as int, to as int),
{
    let mut out: Vec<char> = Vec::new();
    let mut i: usize = from;
    while i < to
        invariant
            from <= i <= to,
            to <= c.len(),
            out@ == c@.subrange(from as int, i as int),
        decreases to - i,
    {
        out.push(c[i]);
        assert(c@.subrange(from as int, i + 1) =~= c@.subrange(from as int, i as int).push(
            c@[i as int],
        ));
        i = i + 1;
    }
    from_chars(&out)
}

fn read_value(c: &Vec<char>, i: usize) -> (r: Option<(Json, usize)>)
    requires
        i <= c.len(),
    ensures
        match r {
            Some((v, j)) => parse_value(c@, i as int) == Some((v@, j as int)) && i < j <= c.len(),
            None => parse_value(c@, i as int) is None,
        },
    decreases c.len() - i, 0int,
{
    if i >= c.len() {
        return None;
    }
    let x = c[i];
    if x == '{' {
        let k = pass_space(c, i + 1);
        if k < c.len() && c[k] == '}' {
            let m: Vec<(String, Json)> = Vec::new();
            assert(members_view(m@) =~= Seq::<(Seq<char>, JsonView)>::empty());
            Some((Json::Object(m), k + 1))
        } else {
            let m: Vec<(String, Json)> = Vec::new();
            assert(members_view(m@) =~= Seq::<(Seq<char>, JsonView)>::empty());
            match read_members(c, k, m) {
                Some((m, j)) => Some((Json::Object(m), j)),
                None => None,
            }
        }
    } else if x == '[' {
        let k = pass_space(c, i + 1);
        if k < c.len() && c[k] == ']' {
            let a: Vec<Json> = Vec::new();
            assert(jsons_view(a@) =~= Seq::<JsonView>::empty());
            Some((Json::Array(a), k + 1))
        } else {
            let a: Vec<Json> = Vec::new();
            assert(jsons_view(a@) =~= Seq::<JsonView>::empty());
            match read_elements(c, k, a) {
                Some((a, j)) => Some((Json::Array(a), j)),
                None => None,
            }
        }
    } else if x == '"' {
        match read_chars(c, i + 1) {
            Some((t, j)) => Some((Json::String(t), j)),
            None => None,
        }
    } else if at_word(c, i, &vec!['t', 'r', 'u', 'e']) {
        Some((Json::Bool(true), i + 4))
    } else if at_word(c, i, &vec!['f', 'a', 'l', 's', 'e']) {
        Some((Json::Bool(false), i + 5))
    } else if at_word(c, i, &vec!['n', 'u', 'l', 'l']) {
        Some((Json::Null, i + 4))
    } else {
        match scan_number(c, i) {
            Some(e) => Some((Json::Number(sub_text(c, i, e)), e)),
            None => None,
        }
    }
}

fn read_elements(c: &Vec<char>, i: usize, before: Vec<Json>) -> (r: Option<(Vec<Json>, usize)>)
    requires
        i <= c.len(),
    ensures
        match r {
            Some((a, j)) => parse_elements(c@, i as int, jsons_view(before@)) == Some(
                (jsons_view(a@), j as int),
            ) && i < j <= c.len(),
            None => parse_elements(c@, i as int, jsons_view(before@)) is None,
        },
    decreases c.len() - i, 1int,
{
    let ghost whole = parse_elements(c@, i as int, jsons_view(before@));
    let mut list = before;
    let mut at: usize = i;
    while at <= c.len()
        invariant
            i <= at <= c.len(),
            whole == parse_elements(c@, i as int, jsons_view(before@)),
            whole == parse_elements(c@, at as int, jsons_view(list@)),
        decreases c.len() - at,
    {
        match read_value(c, at) {
            None => {
                return None;
            },
            Some((v, j)) => {
                let k = pass_space(c, j);
                if k >= c.len() {
                    return None;
                }
                let ghost old_view = jsons_view(list@);
                list.push(v);
                assert(jsons_view(list@) =~= old_view.push(v@));
                if c[k] == ']' {
                    return Some((list, k + 1));
                } else if c[k] == ',' {
                    at = pass_space(c, k + 1);
                } else {
                    return None;
                }
            },
        }
    }
    None
}

#[verifier::rlimit(40)]
fn read_members(c: &Vec<char>, i: usize, before: Vec<(String, Json)>) -> (r: Option<
    (Vec<(String, Json)>, usize),
>)
    requires
        i <= c.len(),
    ensures
        match r {
            Some((m, j)) => parse_members(c@, i as int, members_view(before@)) == Some(
                (members_view(m@), j as int),
            ) && i < j <= c.len(),
            None => parse_members(c@, i as int, members_view(before@)) is None,
        },
    decreases c.len() - i, 1int,
{
    let ghost whole = parse_members(c@, i as int, members_view(before@));
    let mut list = before;
    let mut at: usize = i;
    while at <= c.len()
        invariant
            i <= at <= c.len(),
            whole == parse_members(c@, i as int, members_view(before@)),
            whole == parse_members(c@, at as int, members_view(list@)),
        decreases c.len() - at,
    {
        if at >= c.len() || c[at] != '"' {
            return None;
        }
        match read_chars(c, at + 1) {
            None => {
                return None;
            },
            Some((name, j)) => {
                let k = pass_space(c, j);
                if k >= c.len() || c[k] != ':' {
                    return None;
                }
                let start = pass_space(c, k + 1);
                match read_value(c, start) {
                    None => {
                        return None;
                    },
                    Some((v, after)) => {
                        let end = pass_space(c, after);
                        if end >= c.len() {
                            return None;
                        }
                        let ghost old_view = members_view(list@);
                        list.push((name, v));
                        assert(members_view(list@) =~= old_view.push((name@, v@)));
                        if c[end] == '}' {
                            return Some((list, end + 1));
                        } else if c[end] == ',' {
                            at = pass_space(c, end + 1);
                        } else {
                            return None;
                        }
                    },
                }
            },
        }
    }
    None
}

impl Json {
    /// The tree that a text stands for, or nothing where the text is no
    /// JSON. The numbers of the tree hold number literals.
    pub fn parse(text: &str) -> (r: Option<Json>)
        ensures
            view_opt(r) == parse_text(text@),
            r is Some ==> well_formed(r->Some_0@),
    {
        proof {
            if parse_text(text@) is Some {
                lemma_parse_well_formed(text@);
            }
        }
        let c = to_chars(text);
        let start = pass_space(&c, 0);
        match read_value(&c, start) {
            Some((v, j)) => {
                if pass_space(&c, j) == c.len() {
                    Some(v)
                } else {
                    None
                }
            },
            None => None,
        }
    }
}

/// The text `s` holds the characters of `w` from `i` on.
pub open spec fn holds(s: Seq<char>, i: int, w: Seq<char>) -> bool {
    &&& 0 <= i
    &&& i + w.len() <= s.len()
    &&& forall|k: int| 0 <= k < w.len() ==> s[i + k] == #[trigger] w[k]
}

/// A text that holds two parts in a row holds each of them.
pub proof fn lemma_holds_split(s: Seq<char>, i: int, x: Seq<char>, y: Seq<char>)
    requires
        holds(s, i, x + y),
    ensures
        holds(s, i, x),
        holds(s, i + x.len(), y),
{
    assert forall|k: int| 0 <= k < x.len() implies s[i + k] == #[trigger] x[k] by {
        assert((x + y)[k] == x[k]);
    }
    assert forall|k: int| 0 <= k < y.len() implies s[i + x.len() + k] == #[trigger] y[k] by {
        assert((x + y)[x.len() + k] == y[k]);
    }
}

/// Reading one character of a string that was written as inside quotes
/// gives that character.
pub proof fn lemma_parse_one_char(s: Seq<char>, p: int, c: char, before: Seq<char>)
    requires
        holds(s, p, escape_char(c)),
    ensures
        parse_chars(s, p, before) == parse_chars(s, p + escape_char(c).len(), before.push(c)),
{
    let e = escape_char(c);
    assert(e.len() >= 1);
    assert(s[p + 0] == e[0]);
    if c == '"' || c == '\\' || c == '\n' || c == '\r' || c == '\t' || c as int == 8 || c as int
        == 12 {
        assert(e.len() == 2 && e[0] == '\\');
        assert(s[p + 1] == e[1]);
    } else if (c as int) < 32 {
        assert(e.len() == 6 && e[0] == '\\' && e[1] == 'u' && e[2] == '0' && e[3] == '0');
        assert(s[p + 1] == e[1]);
        assert(s[p + 2] == e[2]);
        assert(s[p + 3] == e[3]);
        assert(s[p + 4] == e[4]);
        assert(s[p + 5] == e[5]);
        let high = c as int / 16;
        let low = c as int % 16;
        assert(hex_value(hex_digit(high)) == Some(high));
        assert(hex_value(hex_digit(low)) == Some(low));
        assert(code_unit(s, p + 2) == Some(c as int));
    } else {
        assert(e.len() == 1 && e[0] == c);
    }
}

/// What is written of the first characters of a string stands at the start
/// of what is written of more of them.
pub proof fn lemma_escaped_prefix(t: Seq<char>, m: int, n: int)
    requires
        0 <= m <= n <= t.len(),
    ensures
        escaped(t, m).len() <= escaped(t, n).len(),
        forall|x: int| 0 <= x < escaped(t, m).len() ==> escaped(t, n)[x] == escaped(t, m)[x],
    decreases n - m,
{
    if m < n {
        lemma_escaped_prefix(t, m, n - 1);
    }
}

/// Reading a string that was written between quotes, up to its `m`-th
/// character.
pub proof fn lemma_parse_chars_prefix(s: Seq<char>, i: int, t: Seq<char>, m: int)
    requires
        holds(s, i, quoted(t)),
        0 <= m <= t.len(),
    ensures
        parse_chars(s, i + 1, Seq::empty()) == parse_chars(
            s,
            i + 1 + escaped(t, m).len(),
            t.take(m),
        ),
    decreases m,
{
    if m == 0 {
        assert(t.take(0) =~= Seq::<char>::empty());
    } else {
        lemma_parse_chars_prefix(s, i, t, m - 1);
        let n = t.len() as int;
        let p = i + 1 + escaped(t, m - 1).len();
        let e = escape_char(t[m - 1]);
        lemma_escaped_prefix(t, m, n);
        assert(escaped(t, m) == escaped(t, m - 1) + e);
        assert forall|k: int| 0 <= k < e.len() implies s[p + k] == #[trigger] e[k] by {
            let x = escaped(t, m - 1).len() + k;
            assert(escaped(t, m)[x] == e[k]);
            assert(escaped(t, n)[x] == escaped(t, m)[x]);
            assert(quoted(t)[1 + x] == escaped(t, n)[x]);
            assert(s[i + (1 + x)] == quoted(t)[1 + x]);
        }
        assert(quoted(t).len() == escaped(t, n).len() + 2);
        lemma_parse_one_char(s, p, t[m - 1], t.take(m - 1));
        assert(t.take(m - 1).push(t[m - 1]) =~= t.take(m));
    }
}

/// Round trip for strings: reading a string that was written between quotes
/// gives the string, and ends behind the closing quote.
pub proof fn lemma_parse_quoted(s: Seq<char>, i: int, t: Seq<char>)
    requires
        holds(s, i, quoted(t)),
    ensures
        s[i] == '"',
        parse_chars(s, i + 1, Seq::empty()) == Some((t, i + quoted(t).len())),
{
    let n = t.len() as int;
    lemma_parse_chars_prefix(s, i, t, n);
    assert(t.take(n) =~= t);
    let q = quoted(t);
    assert(q.len() == escaped(t, n).len() + 2);
    assert(q[0] == '"');
    assert(s[i + 0] == q[0]);
    assert(q[q.len() - 1] == '"');
    assert(s[i + (q.len() - 1)] == q[q.len() - 1]);
}

/// A tree whose numbers hold number literals.
pub open spec fn well_formed(j: JsonView) -> bool
    decreases j,
{
    match j {
        JsonView::Number(l) => is_number_literal(l),
        JsonView::Array(a) => elements_well_formed(a),
        JsonView::Object(m) => members_well_formed(m),
        _ => true,
    }
}

/// The elements of an array are well-formed.
pub open spec fn elements_well_formed(a: Seq<JsonView>) -> bool
    decreases a,
{
    forall|i: int| 0 <= i < a.len() ==> well_formed(#[trigger] a[i])
}

/// The values of the members of an object are well-formed.
pub open spec fn members_well_formed(m: Members) -> bool
    decreases m,
{
    forall|i: int| 0 <= i < m.len() ==> well_formed((#[trigger] m[i]).1)
}

/// A value ends at `k`: the text ends there, or a comma, a closing bracket
/// or a closing brace stands there.
pub open spec fn stops(s: Seq<char>, k: int) -> bool {
    k == s.len() || (0 <= k < s.len() && (s[k] == ',' || s[k] == ']' || s[k] == '}'))
}

/// A character that a value can start with: no white space and no
/// punctuation that stands between values or after them.
pub open spec fn opens_value(c: char) -> bool {
    !is_space(c) && c != ',' && c != ']' && c != '}' && c != ':'
}

/// A run of digits inside a literal that the text holds ends where it ends in
/// the literal.
pub proof fn lemma_digits_end_shift(s: Seq<char>, i: int, l: Seq<char>, x: int)
    requires
        holds(s, i, l),
        0 <= x <= l.len(),
        stops(s, i + l.len()),
    ensures
        digits_end(s, i + x) == i + digits_end(l, x),
    decreases l.len() - x,
{
    if x < l.len() {
        assert(s[i + x] == l[x]);
        if is_digit(l[x]) {
            lemma_digits_end_shift(s, i, l, x + 1);
        }
    }
}

/// Round trip for numbers: a number literal that the text holds, with the
/// end of a value behind it, is found as it is.
pub proof fn lemma_number_at(s: Seq<char>, i: int, l: Seq<char>)
    requires
        is_number_literal(l),
        holds(s, i, l),
        stops(s, i + l.len()),
    ensures
        number_scan(s, i) == Some(i + l.len()),
        l.len() > 0,
        l[0] == '-' || is_digit(l[0]),
{
    let n = l.len() as int;
    let a = if l.len() > 0 && l[0] == '-' { 1int } else { 0int };
    lemma_digits_end(l, 0);
    if n > 0 {
        assert(s[i + 0] == l[0]);
        lemma_digits_end(l, a);
        let b = digits_end(l, a);
        lemma_digits_end_shift(s, i, l, a);
        assert(s[i + a] == l[a]);
        if b < n {
            assert(s[i + b] == l[b]);
            lemma_digits_end(l, b + 1);
            lemma_digits_end_shift(s, i, l, b + 1);
        }
        let c = if b < n && l[b] == '.' { digits_end(l, b + 1) } else { b };
        if c < n {
            assert(s[i + c] == l[c]);
            if c + 1 < n {
                assert(s[i + (c + 1)] == l[c + 1]);
            }
        }
        let d = if c < n && (l[c] == 'e' || l[c] == 'E') {
            if c + 1 < n && (l[c + 1] == '+' || l[c + 1] == '-') {
                c + 2
            } else {
                c + 1
            }
        } else {
            c
        };
        if d > c {
            lemma_digits_end(l, d);
            lemma_digits_end_shift(s, i, l, d);
        }
    }
}

/// The text of a tree starts with a character that opens a value.
pub proof fn lemma_text_start(j: JsonView)
    requires
        well_formed(j),
    ensures
        text(j).len() > 0,
        opens_value(text(j)[0]),
{
    match j {
        JsonView::Number(l) => {
            lemma_digits_end(l, 0);
            let a = if l.len() > 0 && l[0] == '-' { 1int } else { 0int };
            if l.len() > 0 {
                lemma_digits_end(l, a);
            }
        },
        JsonView::String(t) => {
            assert(quoted(t)[0] == '"');
        },
        _ => {},
    }
}

/// Where, in the text of the first elements of an array, the `m`-th element
/// starts.
pub open spec fn element_start(a: Seq<JsonView>, m: int) -> int {
    elements_text(a, m).len() + if m > 0 {
        1int
    } else {
        0int
    }
}

/// The text of the first `n` elements holds the text of the `m`-th where it
/// starts, and a comma behind it unless it is the last.
pub proof fn lemma_elements_layout(a: Seq<JsonView>, n: int, m: int)
    requires
        0 <= m < n <= a.len(),
    ensures
        element_start(a, m) + text(a[m]).len() == elements_text(a, m + 1).len(),
        elements_text(a, m + 1).len() <= elements_text(a, n).len(),
        forall|x: int|
            0 <= x < text(a[m]).len() ==> elements_text(a, n)[element_start(a, m) + x] == #[trigger] text(
                a[m],
            )[x],
        m < n - 1 ==> elements_text(a, m + 1).len() < elements_text(a, n).len() && elements_text(
            a,
            n,
        )[elements_text(a, m + 1).len() as int] == ',',
        m == n - 1 ==> elements_text(a, m + 1).len() == elements_text(a, n).len(),
    decreases n - m,
{
    if n > m + 1 {
        lemma_elements_layout(a, n - 1, m);
        let before = elements_text(a, n - 1);
        assert(elements_text(a, n) == before + seq![','] + text(a[n - 1]));
        assert forall|x: int| 0 <= x < text(a[m]).len() implies elements_text(a, n)[element_start(
            a,
            m,
        ) + x] == #[trigger] text(a[m])[x] by {
            assert(elements_text(a, n)[element_start(a, m) + x] == before[element_start(a, m) + x]);
        }
        if m < n - 2 {
            assert(elements_text(a, n)[elements_text(a, m + 1).len() as int] == before[elements_text(
                a,
                m + 1,
            ).len() as int]);
        } else {
            assert(elements_text(a, n)[before.len() as int] == ',');
        }
    } else {
        if m > 0 {
            let before = elements_text(a, m);
            assert(elements_text(a, n) == before + seq![','] + text(a[m]));
            assert forall|x: int| 0 <= x < text(a[m]).len() implies elements_text(a, n)[
                element_start(a, m) + x
            ] == #[trigger] text(a[m])[x] by {
                assert((before + seq![','] + text(a[m]))[before.len() + 1 + x] == text(a[m])[x]);
            }
        }
    }
}

/// The text of one member: its name between quotes, a colon, its value.
pub open spec fn member_text(m: Members, k: int) -> Seq<char> {
    quoted(m[k].0) + seq![':'] + text(m[k].1)
}

/// Where, in the text of the first members of an object, the `k`-th member
/// starts.
pub open spec fn member_start(m: Members, k: int) -> int {
    members_text(m, k).len() + if k > 0 {
        1int
    } else {
        0int
    }
}

/// The text of the first `n` members holds the text of the `k`-th where it
/// starts, and a comma behind it unless it is the last.
pub proof fn lemma_members_layout(m: Members, n: int, k: int)
    requires
        0 <= k < n <= m.len(),
    ensures
        member_start(m, k) + member_text(m, k).len() == members_text(m, k + 1).len(),
        members_text(m, k + 1).len() <= members_text(m, n).len(),
        forall|x: int|
            0 <= x < member_text(m, k).len() ==> members_text(m, n)[member_start(m, k) + x]
                == #[trigger] member_text(m, k)[x],
        k < n - 1 ==> members_text(m, k + 1).len() < members_text(m, n).len() && members_text(
            m,
            n,
        )[members_text(m, k + 1).len() as int] == ',',
        k == n - 1 ==> members_text(m, k + 1).len() == members_text(m, n).len(),
    decreases n - k,
{
    if n > k + 1 {
        lemma_members_layout(m, n - 1, k);
        let before = members_text(m, n - 1);
        assert(members_text(m, n) == before + seq![','] + quoted(m[n - 1].0) + seq![':'] + text(
            m[n - 1].1,
        ));
        assert forall|x: int| 0 <= x < member_text(m, k).len() implies members_text(m, n)[
            member_start(m, k) + x
        ] == #[trigger] member_text(m, k)[x] by {
            assert(members_text(m, n)[member_start(m, k) + x] == before[member_start(m, k) + x]);
        }
        if k < n - 2 {
            assert(members_text(m, n)[members_text(m, k + 1).len() as int] == before[members_text(
                m,
                k + 1,
            ).len() as int]);
        } else {
            assert(members_text(m, n)[before.len() as int] == ',');
        }
    } else {
        if k > 0 {
            let before = members_text(m, k);
            assert(members_text(m, n) == before + seq![','] + quoted(m[k].0) + seq![':'] + text(
                m[k].1,
            ));
            assert(members_text(m, n) =~= before + seq![','] + member_text(m, k));
            assert forall|x: int| 0 <= x < member_text(m, k).len() implies members_text(m, n)[
                member_start(m, k) + x
            ] == #[trigger] member_text(m, k)[x] by {
                assert((before + seq![','] + member_text(m, k))[before.len() + 1 + x]
                    == member_text(m, k)[x]);
            }
        } else {
            assert(members_text(m, n) =~= member_text(m, k));
        }
    }
}

/// A text that does not hold the first character of a word does not hold
/// the word.
pub proof fn lemma_word_mismatch(s: Seq<char>, i: int, word: Seq<char>)
    requires
        word.len() > 0,
        0 <= i < s.len(),
        s[i] != word[0],
    ensures
        !word_at(s, i, word),
{
    if i + word.len() <= s.len() {
        assert(s.subrange(i, i + word.len())[0] == s[i]);
    }
}

/// A text that holds the characters of a word holds the word.
pub proof fn lemma_word_match(s: Seq<char>, i: int, word: Seq<char>)
    requires
        holds(s, i, word),
    ensures
        word_at(s, i, word),
{
    assert(s.subrange(i, i + word.len()) =~= word);
}

/// White space is not skipped where none stands.
pub proof fn lemma_no_space(s: Seq<char>, i: int)
    requires
        0 <= i <= s.len(),
        i < s.len() ==> !is_space(s[i]),
    ensures
        skip_space(s, i) == i,
{
}

/// Round trip at a position: where the text holds the text of a tree, with
/// the end of a value behind it, reading a value gives the tree and ends
/// behind it.
pub proof fn lemma_parse_value(s: Seq<char>, i: int, j: JsonView)
    requires
        well_formed(j),
        holds(s, i, text(j)),
        stops(s, i + text(j).len()),
    ensures
        parse_value(s, i) == Some((j, i + text(j).len())),
    decreases j, 0int,
{
    let w = text(j);
    lemma_text_start(j);
    assert(s[i + 0] == w[0]);
    let yes = seq!['t', 'r', 'u', 'e'];
    let no = seq!['f', 'a', 'l', 's', 'e'];
    let null = seq!['n', 'u', 'l', 'l'];
    match j {
        JsonView::Null => {
            lemma_word_mismatch(s, i, yes);
            lemma_word_mismatch(s, i, no);
            lemma_word_match(s, i, null);
        },
        JsonView::Bool(b) => {
            if b {
                lemma_word_match(s, i, yes);
            } else {
                lemma_word_mismatch(s, i, yes);
                lemma_word_match(s, i, no);
            }
        },
        JsonView::Number(l) => {
            lemma_number_at(s, i, l);
            lemma_word_mismatch(s, i, yes);
            lemma_word_mismatch(s, i, no);
            lemma_word_mismatch(s, i, null);
            assert(s.subrange(i, i + l.len()) =~= l);
        },
        JsonView::String(t) => {
            lemma_parse_quoted(s, i, t);
        },
        JsonView::Array(a) => {
            let n = a.len() as int;
            let e = elements_text(a, n);
            assert(w == seq!['['] + e + seq![']']);
            assert(w[0] == '[');
            if n == 0 {
                assert(w[1] == ']');
                assert(s[i + 1] == w[1]);
                lemma_no_space(s, i + 1);
                assert(a =~= Seq::<JsonView>::empty());
            } else {
                lemma_elements_layout(a, n, 0);
                lemma_text_start(a[0]);
                assert(e[0int + 0] == text(a[0])[0]);
                assert(w[1] == e[0]);
                assert(s[i + 1] == w[1]);
                lemma_no_space(s, i + 1);
                lemma_parse_elements(s, i, a, 0);
                assert(a.take(0) =~= Seq::<JsonView>::empty());
            }
        },
        JsonView::Object(m) => {
            let n = m.len() as int;
            let e = members_text(m, n);
            assert(w == seq!['{'] + e + seq!['}']);
            assert(w[0] == '{');
            if n == 0 {
                assert(w[1] == '}');
                assert(s[i + 1] == w[1]);
                lemma_no_space(s, i + 1);
                assert(m =~= Seq::<(Seq<char>, JsonView)>::empty());
            } else {
                lemma_members_layout(m, n, 0);
                assert(member_text(m, 0)[0] == '"');
                assert(e[0int + 0] == member_text(m, 0)[0]);
                assert(w[1] == e[0]);
                assert(s[i + 1] == w[1]);
                lemma_no_space(s, i + 1);
                lemma_parse_members(s, i, m, 0);
                assert(m.take(0) =~= Seq::<(Seq<char>, JsonView)>::empty());
            }
        },
    }
}

/// Round trip for the elements of an array, from the `m`-th on.
#[verifier::rlimit(40)]
pub proof fn lemma_parse_elements(s: Seq<char>, i: int, a: Seq<JsonView>, m: int)
    requires
        well_formed(JsonView::Array(a)),
        holds(s, i, text(JsonView::Array(a))),
        0 <= m < a.len(),
    ensures
        parse_elements(s, i + 1 + element_start(a, m), a.take(m)) == Some(
            (a, i + text(JsonView::Array(a)).len()),
        ),
    decreases a, a.len() - m,
{
    let n = a.len() as int;
    let w = text(JsonView::Array(a));
    let e = elements_text(a, n);
    assert(w == seq!['['] + e + seq![']']);
    let p = i + 1 + element_start(a, m);
    let t = text(a[m]);
    lemma_elements_layout(a, n, m);
    assert forall|x: int| 0 <= x < t.len() implies s[p + x] == #[trigger] t[x] by {
        assert(e[element_start(a, m) + x] == t[x]);
        assert(w[1 + element_start(a, m) + x] == e[element_start(a, m) + x]);
        assert(s[i + (1 + element_start(a, m) + x)] == w[1 + element_start(a, m) + x]);
    }
    let q = p + t.len();
    assert(q == i + 1 + elements_text(a, m + 1).len());
    let done = elements_text(a, m + 1).len() as int;
    if m < n - 1 {
        assert(w[1 + done] == e[done]);
        assert(s[i + (1 + done)] == w[1 + done]);
        assert(s[q] == ',');
    } else {
        assert(w[1 + done] == ']');
        assert(s[i + (1 + done)] == w[1 + done]);
        assert(s[q] == ']');
    }
    lemma_parse_value(s, p, a[m]);
    lemma_no_space(s, q);
    if m == n - 1 {
        assert(a.take(m).push(a[m]) =~= a);
    } else {
        lemma_elements_layout(a, n, m + 1);
        lemma_text_start(a[m + 1]);
        let next = text(a[m + 1]);
        assert(e[element_start(a, m + 1) + 0] == next[0]);
        assert(w[1 + element_start(a, m + 1)] == e[element_start(a, m + 1)]);
        assert(s[i + (1 + element_start(a, m + 1))] == w[1 + element_start(a, m + 1)]);
        assert(q + 1 == i + 1 + element_start(a, m + 1));
        lemma_no_space(s, q + 1);
        lemma_parse_elements(s, i, a, m + 1);
        assert(a.take(m).push(a[m]) =~= a.take(m + 1));
    }
}

/// Round trip for the members of an object, from the `k`-th on.
#[verifier::rlimit(40)]
pub proof fn lemma_parse_members(s: Seq<char>, i: int, m: Members, k: int)
    requires
        well_formed(JsonView::Object(m)),
        holds(s, i, text(JsonView::Object(m))),
        0 <= k < m.len(),
    ensures
        parse_members(s, i + 1 + member_start(m, k), m.take(k)) == Some(
            (m, i + text(JsonView::Object(m)).len()),
        ),
    decreases m, m.len() - k,
{
    let n = m.len() as int;
    let w = text(JsonView::Object(m));
    let e = members_text(m, n);
    assert(w == seq!['{'] + e + seq!['}']);
    let p = i + 1 + member_start(m, k);
    let t = member_text(m, k);
    let name = quoted(m[k].0);
    let value = text(m[k].1);
    lemma_members_layout(m, n, k);
    assert forall|x: int| 0 <= x < t.len() implies s[p + x] == #[trigger] t[x] by {
        assert(e[member_start(m, k) + x] == t[x]);
        assert(w[1 + member_start(m, k) + x] == e[member_start(m, k) + x]);
        assert(s[i + (1 + member_start(m, k) + x)] == w[1 + member_start(m, k) + x]);
    }
    assert(t == name + (seq![':'] + value)) by {
        assert(t =~= name + (seq![':'] + value));
    }
    lemma_holds_split(s, p, name, seq![':'] + value);
    lemma_holds_split(s, p + name.len(), seq![':'], value);
    lemma_parse_quoted(s, p, m[k].0);
    let colon = p + name.len();
    assert(s[colon + 0] == seq![':'][0]);
    lemma_no_space(s, colon);
    let start = colon + 1;
    lemma_text_start(m[k].1);
    assert(s[start + 0] == value[0]);
    lemma_no_space(s, start);
    let q = start + value.len();
    assert(q == p + t.len());
    assert(q == i + 1 + members_text(m, k + 1).len());
    let done = members_text(m, k + 1).len() as int;
    if k < n - 1 {
        assert(w[1 + done] == e[done]);
        assert(s[i + (1 + done)] == w[1 + done]);
        assert(s[q] == ',');
    } else {
        assert(w[1 + done] == '}');
        assert(s[i + (1 + done)] == w[1 + done]);
        assert(s[q] == '}');
    }
    lemma_parse_value(s, start, m[k].1);
    lemma_no_space(s, q);
    if k == n - 1 {
        assert(m.take(k).push(m[k]) =~= m);
    } else {
        lemma_members_layout(m, n, k + 1);
        assert(member_text(m, k + 1)[0] == '"');
        assert(e[member_start(m, k + 1) + 0] == member_text(m, k + 1)[0]);
        assert(w[1 + member_start(m, k + 1)] == e[member_start(m, k + 1)]);
        assert(s[i + (1 + member_start(m, k + 1))] == w[1 + member_start(m, k + 1)]);
        assert(q + 1 == i + 1 + member_start(m, k + 1));
        lemma_no_space(s, q + 1);
        lemma_parse_members(s, i, m, k + 1);
        assert(m.take(k).push(m[k]) =~= m.take(k + 1));
    }
}

/// Round trip for text: the compact text of a tree whose numbers hold number
/// literals is read back as that tree.
pub proof fn lemma_text_round_trip(j: JsonView)
    requires
        well_formed(j),
    ensures
        parse_text(text(j)) == Some(j),
{
    let s = text(j);
    lemma_text_start(j);
    lemma_no_space(s, 0);
    lemma_parse_value(s, 0, j);
    lemma_no_space(s, s.len() as int);
}

/// A member added to a well-formed object leaves it well-formed.
pub proof fn lemma_with_well_formed(m: Members, key: Seq<char>, v: Option<JsonView>)
    requires
        well_formed(JsonView::Object(m)),
        v is Some ==> well_formed(v->Some_0),
    ensures
        well_formed(JsonView::Object(with(m, key, v))),
{
    let r = with(m, key, v);
    assert forall|i: int| 0 <= i < r.len() implies well_formed((#[trigger] r[i]).1) by {
        if i < m.len() {
            assert(r[i] == m[i]);
            assert(well_formed(m[i].1));
        } else {
            assert(r[i] == (key, v->Some_0));
        }
    }
}

/// The trees that objects are built from keep numbers well-formed: a member
/// added to a well-formed object, one member alone, and the trees of strings,
/// truth values and integers.
pub proof fn lemma_trees_well_formed()
    ensures
        well_formed(JsonView::Object(Seq::empty())),
        forall|m: Members, key: Seq<char>, v: Option<JsonView>|
            well_formed(JsonView::Object(m)) && (v is Some ==> well_formed(v->Some_0))
                ==> well_formed(JsonView::Object(#[trigger] with(m, key, v))),
        forall|key: Seq<char>, v: JsonView|
            well_formed(v) ==> well_formed(#[trigger] single(key, v)),
        forall|s: Option<Seq<char>>|
            #[trigger] string_tree(s) is Some ==> well_formed(string_tree(s)->Some_0),
        forall|b: Option<bool>| #[trigger] bool_tree(b) is Some ==> well_formed(bool_tree(b)->Some_0),
        forall|i: Option<i32>| #[trigger] i32_tree(i) is Some ==> well_formed(i32_tree(i)->Some_0),
{
    assert forall|m: Members, key: Seq<char>, v: Option<JsonView>|
        well_formed(JsonView::Object(m)) && (v is Some ==> well_formed(
            v->Some_0,
        )) implies well_formed(JsonView::Object(#[trigger] with(m, key, v))) by {
        lemma_with_well_formed(m, key, v);
    }
    assert forall|i: Option<i32>| #[trigger] i32_tree(i) is Some implies well_formed(
        i32_tree(i)->Some_0,
    ) by {
        lemma_decimal_is_literal(i->Some_0 as int);
    }
}

/// A run of digits inside a part of the text ends where it ends in the text,
/// as long as it ends inside the part.
pub proof fn lemma_digits_end_part(s: Seq<char>, i: int, e: int, x: int)
    requires
        0 <= i <= i + x <= e <= s.len(),
        digits_end(s, i + x) <= e,
    ensures
        digits_end(s.subrange(i, e), x) == digits_end(s, i + x) - i,
    decreases e - (i + x),
{
    let l = s.subrange(i, e);
    if i + x < e {
        assert(l[x] == s[i + x]);
        if is_digit(s[i + x]) {
            lemma_digits_end_part(s, i, e, x + 1);
        }
    } else {
        lemma_digits_end(s, i + x);
    }
}

/// The token that is found where a number literal starts is a number
/// literal.
pub proof fn lemma_number_token(s: Seq<char>, i: int, e: int)
    requires
        0 <= i <= s.len(),
        number_scan(s, i) == Some(e),
    ensures
        i < e <= s.len(),
        is_number_literal(s.subrange(i, e)),
{
    let n = s.len() as int;
    let a = if 0 <= i < s.len() && s[i] == '-' { i + 1 } else { i };
    lemma_digits_end(s, a);
    let b = digits_end(s, a);
    if b < n {
        lemma_digits_end(s, b + 1);
    }
    let c = if b < s.len() && s[b] == '.' { digits_end(s, b + 1) } else { b };
    let d = if c < s.len() && (s[c] == 'e' || s[c] == 'E') {
        if c + 1 < s.len() && (s[c + 1] == '+' || s[c + 1] == '-') {
            c + 2
        } else {
            c + 1
        }
    } else {
        c
    };
    if d > c {
        lemma_digits_end(s, d);
    }
    let l = s.subrange(i, e);
    assert(l.len() == e - i);
    assert(l[0] == s[i]);
    assert(l[a - i] == s[a]);
    lemma_digits_end_part(s, i, e, a - i);
    if b < e {
        assert(l[b - i] == s[b]);
        if c > b {
            lemma_digits_end_part(s, i, e, b + 1 - i);
        }
    }
    if c < e {
        assert(l[c - i] == s[c]);
        if c + 1 < e {
            assert(l[c + 1 - i] == s[c + 1]);
        }
        if d > c {
            lemma_digits_end_part(s, i, e, d - i);
        }
    }
}

/// The value that is read at a place is well-formed.
pub proof fn lemma_parse_value_well_formed(s: Seq<char>, i: int)
    requires
        parse_value(s, i) is Some,
    ensures
        well_formed(parse_value(s, i)->Some_0.0),
    decreases s.len() - i, 0int,
{
    if s[i] == '{' {
        let k = skip_space(s, i + 1);
        if !(k < s.len() && s[k] == '}') {
            lemma_parse_members_well_formed(s, k, Seq::empty());
        }
    } else if s[i] == '[' {
        let k = skip_space(s, i + 1);
        if !(k < s.len() && s[k] == ']') {
            lemma_parse_elements_well_formed(s, k, Seq::empty());
        }
    } else if s[i] == '"' {
    } else if word_at(s, i, seq!['t', 'r', 'u', 'e']) {
    } else if word_at(s, i, seq!['f', 'a', 'l', 's', 'e']) {
    } else if word_at(s, i, seq!['n', 'u', 'l', 'l']) {
    } else {
        lemma_number_token(s, i, number_scan(s, i)->Some_0);
    }
}

/// The elements that are read behind well-formed ones are well-formed.
pub proof fn lemma_parse_elements_well_formed(s: Seq<char>, i: int, before: Seq<JsonView>)
    requires
        elements_well_formed(before),
        parse_elements(s, i, before) is Some,
    ensures
        elements_well_formed(parse_elements(s, i, before)->Some_0.0),
    decreases s.len() - i, 1int,
{
    lemma_parse_value_well_formed(s, i);
    let (v, j) = parse_value(s, i)->Some_0;
    let k = skip_space(s, j);
    let all = before.push(v);
    assert forall|x: int| 0 <= x < all.len() implies well_formed(#[trigger] all[x]) by {
        if x < before.len() {
            assert(all[x] == before[x]);
        }
    }
    if s[k] == ',' {
        lemma_parse_elements_well_formed(s, skip_space(s, k + 1), all);
    }
}

/// The members that are read behind well-formed ones are well-formed.
pub proof fn lemma_parse_members_well_formed(s: Seq<char>, i: int, before: Members)
    requires
        members_well_formed(before),
        parse_members(s, i, before) is Some,
    ensures
        members_well_formed(parse_members(s, i, before)->Some_0.0),
    decreases s.len() - i, 1int,
{
    let (name, j) = parse_chars(s, i + 1, Seq::empty())->Some_0;
    let k = skip_space(s, j);
    let start = skip_space(s, k + 1);
    lemma_parse_value_well_formed(s, start);
    let (v, after) = parse_value(s, start)->Some_0;
    let end = skip_space(s, after);
    let all = before.push((name, v));
    assert forall|x: int| 0 <= x < all.len() implies well_formed((#[trigger] all[x]).1) by {
        if x < before.len() {
            assert(all[x] == before[x]);
        }
    }
    if s[end] == ',' {
        lemma_parse_members_well_formed(s, skip_space(s, end + 1), all);
    }
}

/// What is read can be written: the tree that a text stands for is
/// well-formed.
pub proof fn lemma_parse_well_formed(s: Seq<char>)
    requires
        parse_text(s) is Some,
    ensures
        well_formed(parse_text(s)->Some_0),
{
    lemma_parse_value_well_formed(s, skip_space(s, 0));
}

} // verus!
