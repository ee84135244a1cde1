//! Design tokens from DTCG-style JSON.
//!
//! A document is a tree of groups. A group's `$type` is inherited by its
//! descendants; an object with a `$value` is a token. Every problem found is
//! reported, each at the JSON path where it was found.
use crate::diagnostic::{joined, Diagnostic, Errors};
use crate::primitives::{
    canonical_bits, color_outcome, finite_bits, Color, ColorView, Dimension, DimensionUnit, Number,
};
use crate::source::SourceId;
use crate::text::{decimal, owned, push_decimal, text_eq};
use crate::token_model::{
    TokenDefinition, TokenDocument, TokenExpression, TokenKind, TokenValue,
};
use crate::token_path::{text_path_outcome, TokenPath};
use vstd::prelude::*;

verus! {

/// A JSON value as the token reader sees it.
///
/// A number is held by the bit pattern of its nearest binary64 value and by
/// the decimal rendering of that value. An object holds its members in the
/// order in which they are visited.
#[derive(Debug, PartialEq, Eq)]
pub enum JsonValue {
    Null,
    Bool(bool),
    Number(u64, String),
    String(String),
    Array(Vec<JsonValue>),
    Object(Vec<(String, JsonValue)>),
}

/// A JSON value by its contents: a number by the bit pattern of its nearest
/// binary64 value and the decimal rendering of that value, an object by its
/// members in the order in which they are visited.
pub enum JsonTree {
    Null,
    Bool(bool),
    Number(u64, Seq<char>),
    String(Seq<char>),
    Array(Seq<JsonTree>),
    Object(Seq<(Seq<char>, JsonTree)>),
}

/// The contents of a value.
pub open spec fn json_view(v: JsonValue) -> JsonTree
    decreases v, 0int,
{
    match v {
        JsonValue::Null => JsonTree::Null,
        JsonValue::Bool(b) => JsonTree::Bool(b),
        JsonValue::Number(bits, text) => JsonTree::Number(bits, text@),
        JsonValue::String(s) => JsonTree::String(s@),
        JsonValue::Array(items) => {
            proof {
                assert(decreases_to!(v => items));
                assert(decreases_to!(items => items@));
            }
            JsonTree::Array(items_view(items@, items@.len() as int))
        },
        JsonValue::Object(members) => {
            proof {
                assert(decreases_to!(v => members));
                assert(decreases_to!(members => members@));
            }
            JsonTree::Object(members_view(members@, members@.len() as int))
        },
    }
}

/// The contents of the first `k` items.
pub open spec fn items_view(items: Seq<JsonValue>, k: int) -> Seq<JsonTree>
    decreases items, k,
{
    if k <= 0 || k > items.len() {
        Seq::empty()
    } else {
        proof {
            assert(decreases_to!(items => items[k - 1]));
        }
        items_view(items, k - 1).push(json_view(items[k - 1]))
    }
}

/// The names and contents of the first `k` members.
pub open spec fn members_view(members: Seq<(String, JsonValue)>, k: int) -> Seq<(Seq<char>, JsonTree)>
    decreases members, k,
{
    if k <= 0 || k > members.len() {
        Seq::empty()
    } else {
        proof {
            let m = members[k - 1];
            assert(decreases_to!(members => m));
            assert(decreases_to!(m => m.1));
        }
        members_view(members, k - 1).push((members[k - 1].0@, json_view(members[k - 1].1)))
    }
}

/// The contents of every item, in order.
pub open spec fn trees_of(items: Seq<JsonValue>) -> Seq<JsonTree> {
    Seq::new(items.len(), |i: int| json_view(items[i]))
}

/// The names and contents of every member, in order.
pub open spec fn entries_view(members: Seq<(String, JsonValue)>) -> Seq<(Seq<char>, JsonTree)> {
    Seq::new(members.len(), |i: int| (members[i].0@, json_view(members[i].1)))
}

proof fn lemma_items_view(items: Seq<JsonValue>, k: int)
    requires
        0 <= k <= items.len(),
    ensures
        items_view(items, k) == trees_of(items.take(k)),
    decreases k,
{
    if k > 0 {
        lemma_items_view(items, k - 1);
        assert(items_view(items, k) =~= trees_of(items.take(k)));
    } else {
        assert(items_view(items, k) =~= trees_of(items.take(k)));
    }
}

proof fn lemma_members_view(members: Seq<(String, JsonValue)>, k: int)
    requires
        0 <= k <= members.len(),
    ensures
        members_view(members, k) == entries_view(members.take(k)),
    decreases k,
{
    if k > 0 {
        lemma_members_view(members, k - 1);
        assert(members_view(members, k) =~= entries_view(members.take(k)));
    } else {
        assert(members_view(members, k) =~= entries_view(members.take(k)));
    }
}

/// An array's contents are those of its items; an object's, the names and
/// contents of its members.
pub proof fn lemma_json_view(v: JsonValue)
    ensures
        v matches JsonValue::Array(items) ==> json_view(v) == JsonTree::Array(trees_of(items@)),
        v matches JsonValue::Object(members) ==> json_view(v) == JsonTree::Object(entries_view(members@)),
{
    match v {
        JsonValue::Array(items) => {
            lemma_items_view(items@, items@.len() as int);
            assert(items@.take(items@.len() as int) =~= items@);
        },
        JsonValue::Object(members) => {
            lemma_members_view(members@, members@.len() as int);
            assert(members@.take(members@.len() as int) =~= members@);
        },
        _ => {},
    }
}

/// `t` is nested at most `depth` levels deep.
pub open spec fn tree_within(t: JsonTree, depth: nat) -> bool
    decreases t, depth,
{
    depth > 0 && match t {
        JsonTree::Array(items) => forall|i: int|
            0 <= i < items.len() ==> tree_within(#[trigger] items[i], (depth - 1) as nat),
        JsonTree::Object(members) => forall|i: int|
            0 <= i < members.len() ==> tree_within(#[trigger] members[i].1, (depth - 1) as nat),
        _ => true,
    }
}

/// The first member of `entries` named `key`.
pub open spec fn json_get(entries: Seq<(String, JsonValue)>, key: Seq<char>) -> Option<JsonValue>
    decreases entries.len(),
{
    if entries.len() == 0 {
        None
    } else if entries[0].0@ == key {
        Some(entries[0].1)
    } else {
        json_get(entries.drop_first(), key)
    }
}

/// A literal token value, by its observable contents.
pub enum LiteralView {
    Boolean(bool),
    Number(u64),
    String(Seq<char>),
    Color(ColorView),
    Dimension(u64, DimensionUnit),
}

/// A token expression, by its observable contents.
pub enum ExpressionView {
    Literal(LiteralView),
    Alias(Seq<Seq<char>>),
}

/// A declared token: its path, type and expression.
pub struct TokenView {
    pub path: Seq<Seq<char>>,
    pub kind: TokenKind,
    pub expression: ExpressionView,
}

/// A problem and the JSON path where it was found.
pub struct Issue {
    pub location: Seq<char>,
    pub message: Seq<char>,
}

pub open spec fn literal_view(v: TokenValue) -> LiteralView {
    match v {
        TokenValue::Boolean(b) => LiteralView::Boolean(b),
        TokenValue::Number(n) => LiteralView::Number(n@),
        TokenValue::String(s) => LiteralView::String(s@),
        TokenValue::Color(c) => LiteralView::Color(c@),
        TokenValue::Dimension(d) => LiteralView::Dimension(d.magnitude(), d.unit_of()),
    }
}

pub open spec fn expression_view(e: TokenExpression) -> ExpressionView {
    match e {
        TokenExpression::Literal(v) => ExpressionView::Literal(literal_view(v)),
        TokenExpression::Alias(p) => ExpressionView::Alias(p@),
    }
}

pub open spec fn token_view(d: TokenDefinition) -> TokenView {
    TokenView { path: d.path_of()@, kind: d.kind_of(), expression: expression_view(d.expression_of()) }
}

/// The JSON path of a group or token: `$`, or `$.` and the dotted names.
pub open spec fn location(path: Seq<Seq<char>>) -> Seq<char> {
    if path.len() == 0 {
        "$"@
    } else {
        "$."@ + joined(path, "."@)
    }
}

/// `LOCATION.NAME`
pub open spec fn member(location: Seq<char>, name: Seq<char>) -> Seq<char> {
    location + "."@ + name
}

pub open spec fn issue(location: Seq<char>, message: Seq<char>) -> Issue {
    Issue { location, message }
}

/// `expected WHAT` at `location`.
pub open spec fn expected(location: Seq<char>, what: Seq<char>) -> Issue {
    issue(location, "expected "@ + what)
}

/// Names of groups and tokens: non-empty, without `.`, `{` or `}`.
pub open spec fn usable_name(name: Seq<char>) -> bool {
    name.len() > 0 && !name.contains('.') && !name.contains('{') && !name.contains('}')
}

/// Whether a member name is reserved: it starts with `$`.
pub open spec fn reserved(name: Seq<char>) -> bool {
    name.len() > 0 && name[0] == '$'
}

/// Reserved members allowed in groups, and `$value` in tokens.
pub open spec fn allowed_reserved(name: Seq<char>, token: bool) -> bool {
    name == "$type"@ || name == "$description"@ || name == "$extensions"@ || name
        == "$deprecated"@ || (token && name == "$value"@)
}

/// Problems with the reserved members of an object.
pub open spec fn reserved_issues(
    entries: Seq<(String, JsonValue)>,
    location: Seq<char>,
    token: bool,
) -> Seq<Issue>
    decreases entries.len(),
{
    if entries.len() == 0 {
        Seq::empty()
    } else {
        let earlier = reserved_issues(entries.drop_last(), location, token);
        let name = entries.last().0@;
        if reserved(name) && !allowed_reserved(name, token) {
            earlier.push(
                issue(member(location, name), "unsupported reserved property '"@ + name + "'"@),
            )
        } else {
            earlier
        }
    }
}

/// A token type by its name.
pub open spec fn kind_named(name: Seq<char>) -> Option<TokenKind> {
    if name == "boolean"@ {
        Some(TokenKind::Boolean)
    } else if name == "color"@ {
        Some(TokenKind::Color)
    } else if name == "dimension"@ {
        Some(TokenKind::Dimension)
    } else if name == "number"@ {
        Some(TokenKind::Number)
    } else if name == "string"@ {
        Some(TokenKind::String)
    } else {
        None
    }
}

/// The type a `$type` member declares, and its problems.
pub open spec fn read_kind(value: JsonValue, location: Seq<char>) -> (Option<TokenKind>, Seq<Issue>) {
    match value {
        JsonValue::String(s) => match kind_named(s@) {
            Some(k) => (Some(k), Seq::empty()),
            None => (None, seq![issue(location, "unsupported token type '"@ + s@ + "'"@)]),
        },
        _ => (None, seq![issue(location, "$type must be a string"@)]),
    }
}

/// The type declared by an object's `$type` member, if any, and its problems.
pub open spec fn declared_kind(entries: Seq<(String, JsonValue)>, location: Seq<char>) -> (
    Option<TokenKind>,
    Seq<Issue>,
) {
    match json_get(entries, "$type"@) {
        Some(t) => read_kind(t, member(location, "$type"@)),
        None => (None, Seq::empty()),
    }
}

/// The alias target written as `{PATH}`, if the text is one.
pub open spec fn alias_text(s: Seq<char>) -> Option<Seq<char>> {
    if s.len() >= 2 && s[0] == '{' && s.last() == '}' {
        Some(s.subrange(1, s.len() - 1))
    } else {
        None
    }
}

/// A number member.
pub open spec fn read_number(value: JsonValue, location: Seq<char>) -> (Option<u64>, Seq<Issue>) {
    match value {
        JsonValue::Number(bits, _) => if finite_bits(bits) {
            (Some(canonical_bits(bits)), Seq::empty())
        } else {
            (None, seq![issue(location, "number must be finite"@)])
        },
        _ => (None, seq![expected(location, "a number"@)]),
    }
}

/// Members of `entries` not in `names`, then names missing from `entries`.
pub open spec fn unexpected_members(
    entries: Seq<(String, JsonValue)>,
    location: Seq<char>,
    names: Seq<Seq<char>>,
) -> Seq<Issue>
    decreases entries.len(),
{
    if entries.len() == 0 {
        Seq::empty()
    } else {
        let earlier = unexpected_members(entries.drop_last(), location, names);
        let name = entries.last().0@;
        if names.contains(name) {
            earlier
        } else {
            earlier.push(issue(member(location, name), "unexpected property '"@ + name + "'"@))
        }
    }
}

pub open spec fn missing_members(
    entries: Seq<(String, JsonValue)>,
    location: Seq<char>,
    names: Seq<Seq<char>>,
) -> Seq<Issue>
    decreases names.len(),
{
    if names.len() == 0 {
        Seq::empty()
    } else {
        let earlier = missing_members(entries, location, names.drop_last());
        let name = names.last();
        if json_get(entries, name) is Some {
            earlier
        } else {
            earlier.push(issue(member(location, name), "missing property '"@ + name + "'"@))
        }
    }
}

/// Problems with the member names of an object that must have exactly `names`.
pub open spec fn shape_issues(
    entries: Seq<(String, JsonValue)>,
    location: Seq<char>,
    names: Seq<Seq<char>>,
) -> Seq<Issue> {
    unexpected_members(entries, location, names) + missing_members(entries, location, names)
}

/// A component of a color: `(bits, text)` of a number.
pub open spec fn component(value: JsonValue) -> Option<(u64, Seq<char>)> {
    match value {
        JsonValue::Number(bits, text) => Some((bits, text@)),
        _ => None,
    }
}

/// Text of the value of the component named `name`.
pub open spec fn component_text(
    name: Seq<char>,
    parts: Seq<(u64, Seq<char>)>,
) -> Seq<char> {
    if name == "red"@ {
        parts[0].1
    } else if name == "green"@ {
        parts[1].1
    } else if name == "blue"@ {
        parts[2].1
    } else {
        parts[3].1
    }
}

/// A color object.
pub open spec fn read_color(value: JsonValue, location: Seq<char>) -> (Option<ColorView>, Seq<Issue>) {
    match value {
        JsonValue::Object(entries) => {
            let names = seq!["colorSpace"@, "components"@, "alpha"@];
            let shape = shape_issues(entries@, location, names);
            if shape.len() > 0 {
                (None, shape)
            } else {
                let space = json_get(entries@, "colorSpace"@);
                let space_location = member(location, "colorSpace"@);
                if !(space matches Some(JsonValue::String(s)) && s@ == "srgb"@) {
                    match space {
                        Some(JsonValue::String(s)) => (
                            None,
                            seq![issue(space_location, "unsupported color space '"@ + s@ + "'"@)],
                        ),
                        _ => (None, seq![expected(space_location, "the string 'srgb'"@)]),
                    }
                } else {
                    let list_location = member(location, "components"@);
                    match json_get(entries@, "components"@) {
                        Some(JsonValue::Array(items)) => {
                            if items@.len() != 3 {
                                (None, seq![expected(list_location, "an array of three numbers"@)])
                            } else if component(items@[0]) is None {
                                (None, seq![expected(list_location + "[0]"@, "a number"@)])
                            } else if component(items@[1]) is None {
                                (None, seq![expected(list_location + "[1]"@, "a number"@)])
                            } else if component(items@[2]) is None {
                                (None, seq![expected(list_location + "[2]"@, "a number"@)])
                            } else {
                                match json_get(entries@, "alpha"@) {
                                    Some(a) => if component(a) is None {
                                        (None, seq![expected(member(location, "alpha"@), "a number"@)])
                                    } else {
                                        let parts = seq![
                                            component(items@[0])->0,
                                            component(items@[1])->0,
                                            component(items@[2])->0,
                                            component(a)->0,
                                        ];
                                        match color_outcome(
                                            [parts[0].0, parts[1].0, parts[2].0],
                                            parts[3].0,
                                        ) {
                                            Ok(c) => (Some(c), Seq::empty()),
                                            Err((name, _)) => (
                                                None,
                                                seq![
                                                    issue(
                                                        location,
                                                        "color component "@ + name
                                                            + " must be finite and between 0 and 1, got "@
                                                            + component_text(name, parts),
                                                    ),
                                                ],
                                            ),
                                        }
                                    },
                                    None => (None, seq![expected(member(location, "alpha"@), "a number"@)]),
                                }
                            }
                        },
                        _ => (None, seq![expected(list_location, "an array of three numbers"@)]),
                    }
                }
            }
        },
        _ => (None, seq![expected(location, "a color object"@)]),
    }
}

/// A dimension that reads carries the number its `value` member holds and
/// the unit its `unit` member names: `px` gives pixels and `rem` gives rems.
pub proof fn lemma_dimension_unit_named(value: JsonValue, location: Seq<char>)
    ensures
        read_dimension(value, location).0 matches Some((_, unit)) ==> (value matches JsonValue::Object(
            entries,
        ) && json_get(entries@, "unit"@) matches Some(JsonValue::String(u)) && ((u@ == "px"@ && unit
            == DimensionUnit::Pixel) || (u@ == "rem"@ && unit == DimensionUnit::Rem))),
        read_dimension(value, location).0 matches Some((bits, _)) ==> (value matches JsonValue::Object(
            entries,
        ) && json_get(entries@, "value"@) matches Some(v) && read_number(v, member(location, "value"@)).0
            == Some(bits)),
{
    reveal_strlit("px");
    reveal_strlit("rem");
}

/// A well-formed dimension object with a finite magnitude and the unit
/// `px` or `rem` reads.
pub proof fn lemma_dimension_units_read(entries: Vec<(String, JsonValue)>, location: Seq<char>, u: String)
    requires
        shape_issues(entries@, location, seq!["value"@, "unit"@]).len() == 0,
        json_get(entries@, "value"@) matches Some(v) && read_number(v, member(location, "value"@)).0 is Some,
        json_get(entries@, "unit"@) == Some(JsonValue::String(u)),
        u@ == "px"@ || u@ == "rem"@,
    ensures
        read_dimension(JsonValue::Object(entries), location).0 is Some,
{
}

/// A group that names its own `$type` reads the same whatever type an
/// enclosing group gives: its members get its own type.
pub proof fn lemma_group_own_type(
    entries: Seq<(String, JsonValue)>,
    path: Seq<Seq<char>>,
    t: String,
    a: Option<TokenKind>,
    b: Option<TokenKind>,
)
    requires
        json_get(entries, "$type"@) == Some(JsonValue::String(t)),
        kind_named(t@) is Some,
    ensures
        read_group(entries, path, a) == read_group(entries, path, b),
        read_group(entries, path, a) == read_group(entries, path, kind_named(t@)),
{
}

/// A token that names its own `$type` reads the same whatever type its
/// group gives.
pub proof fn lemma_token_own_type(
    entries: Seq<(String, JsonValue)>,
    path: Seq<Seq<char>>,
    t: String,
    a: Option<TokenKind>,
    b: Option<TokenKind>,
)
    requires
        json_get(entries, "$type"@) == Some(JsonValue::String(t)),
        kind_named(t@) is Some,
    ensures
        read_token(entries, path, a) == read_token(entries, path, b),
{
}

/// A dimension object.
pub open spec fn read_dimension(value: JsonValue, location: Seq<char>) -> (
    Option<(u64, DimensionUnit)>,
    Seq<Issue>,
) {
    match value {
        JsonValue::Object(entries) => {
            let names = seq!["value"@, "unit"@];
            let shape = shape_issues(entries@, location, names);
            if shape.len() > 0 {
                (None, shape)
            } else {
                let magnitude = match json_get(entries@, "value"@) {
                    Some(v) => read_number(v, member(location, "value"@)),
                    None => read_number(JsonValue::Null, member(location, "value"@)),
                };
                match magnitude.0 {
                    None => (None, magnitude.1),
                    Some(bits) => {
                        let unit_location = member(location, "unit"@);
                        match json_get(entries@, "unit"@) {
                            Some(JsonValue::String(u)) => if u@ == "px"@ {
                                (Some((bits, DimensionUnit::Pixel)), Seq::empty())
                            } else if u@ == "rem"@ {
                                (Some((bits, DimensionUnit::Rem)), Seq::empty())
                            } else {
                                (
                                    None,
                                    seq![issue(unit_location, "unsupported dimension unit '"@ + u@ + "'"@)],
                                )
                            },
                            _ => (None, seq![expected(unit_location, "'px' or 'rem'"@)]),
                        }
                    },
                }
            }
        },
        _ => (None, seq![expected(location, "a dimension object"@)]),
    }
}

/// The expression of a token of type `kind` whose `$value` is `value`.
pub open spec fn read_expression(kind: TokenKind, value: JsonValue, location: Seq<char>) -> (
    Option<ExpressionView>,
    Seq<Issue>,
) {
    if value matches JsonValue::String(s) && alias_text(s@) is Some {
        let target = alias_text(value->String_0@)->0;
        match text_path_outcome(target) {
            Ok(p) => (Some(ExpressionView::Alias(p)), Seq::empty()),
            Err(e) => (None, seq![issue(location, "invalid token alias: "@ + e.message_text())]),
        }
    } else {
        match kind {
            TokenKind::Boolean => match value {
                JsonValue::Bool(b) => (Some(ExpressionView::Literal(LiteralView::Boolean(b))), Seq::empty()),
                _ => (None, seq![expected(location, "a boolean"@)]),
            },
            TokenKind::Number => match read_number(value, location) {
                (Some(bits), _) => (Some(ExpressionView::Literal(LiteralView::Number(bits))), Seq::empty()),
                (None, problems) => (None, problems),
            },
            TokenKind::String => match value {
                JsonValue::String(s) => (Some(ExpressionView::Literal(LiteralView::String(s@))), Seq::empty()),
                _ => (None, seq![expected(location, "a string"@)]),
            },
            TokenKind::Color => match read_color(value, location) {
                (Some(c), _) => (Some(ExpressionView::Literal(LiteralView::Color(c))), Seq::empty()),
                (None, problems) => (None, problems),
            },
            TokenKind::Dimension => match read_dimension(value, location) {
                (Some((bits, unit)), _) => (
                    Some(ExpressionView::Literal(LiteralView::Dimension(bits, unit))),
                    Seq::empty(),
                ),
                (None, problems) => (None, problems),
            },
        }
    }
}

/// Problems with non-reserved members of a token.
pub open spec fn token_child_issues(entries: Seq<(String, JsonValue)>, location: Seq<char>) -> Seq<Issue>
    decreases entries.len(),
{
    if entries.len() == 0 {
        Seq::empty()
    } else {
        let earlier = token_child_issues(entries.drop_last(), location);
        let name = entries.last().0@;
        if reserved(name) {
            earlier
        } else {
            earlier.push(issue(member(location, name), "tokens cannot contain child groups or tokens"@))
        }
    }
}

/// The token an object with a `$value` declares at `path`, and its problems.
pub open spec fn read_token(
    entries: Seq<(String, JsonValue)>,
    path: Seq<Seq<char>>,
    inherited: Option<TokenKind>,
) -> (Seq<TokenView>, Seq<Issue>) {
    let here = location(path);
    let (local, kind_issues) = declared_kind(entries, here);
    let head = reserved_issues(entries, here, true) + token_child_issues(entries, here) + kind_issues;
    let kind = match local {
        Some(k) => Some(k),
        None => inherited,
    };
    match kind {
        None => (Seq::empty(), head.push(issue(here, "token has no $type and does not inherit one"@))),
        Some(k) => match json_get(entries, "$value"@) {
            None => (Seq::empty(), head.push(issue(member(here, "$value"@), "token is missing $value"@))),
            Some(v) => match read_expression(k, v, member(here, "$value"@)) {
                (Some(e), _) => (seq![TokenView { path, kind: k, expression: e }], head),
                (None, problems) => (Seq::empty(), head + problems),
            },
        },
    }
}

/// The tokens and problems of a group at `path` with inherited type `kind`.
pub open spec fn read_group(
    entries: Seq<(String, JsonValue)>,
    path: Seq<Seq<char>>,
    inherited: Option<TokenKind>,
) -> (Seq<TokenView>, Seq<Issue>)
    decreases entries, entries.len() + 1,
{
    let here = location(path);
    let (local, kind_issues) = declared_kind(entries, here);
    let kind = match local {
        Some(k) => Some(k),
        None => inherited,
    };
    let members = read_members(entries, entries.len() as int, path, kind);
    (members.0, reserved_issues(entries, here, false) + kind_issues + members.1)
}

/// The tokens and problems of the first `k` members of a group.
pub open spec fn read_members(
    entries: Seq<(String, JsonValue)>,
    k: int,
    path: Seq<Seq<char>>,
    kind: Option<TokenKind>,
) -> (Seq<TokenView>, Seq<Issue>)
    decreases entries, k,
{
    if k <= 0 || k > entries.len() {
        (Seq::empty(), Seq::empty())
    } else {
        let earlier = read_members(entries, k - 1, path, kind);
        let name = entries[k - 1].0@;
        let here = member(location(path), name);
        if reserved(name) {
            earlier
        } else if !usable_name(name) {
            (
                earlier.0,
                earlier.1.push(
                    issue(here, "names must be non-empty and cannot contain '.', '{', or '}'"@),
                ),
            )
        } else {
            match entries[k - 1].1 {
                JsonValue::Object(child) => {
                    proof {
                        let e = entries[k - 1];
                        assert(decreases_to!(entries => e));
                        assert(decreases_to!(e => e.1));
                        let c = e.1->Object_0;
                        assert(decreases_to!(e.1 => c));
                        assert(decreases_to!(c => c@));
                    }
                    let found = if json_get(child@, "$value"@) is Some {
                        read_token(child@, path.push(name), kind)
                    } else {
                        read_group(child@, path.push(name), kind)
                    };
                    (earlier.0 + found.0, earlier.1 + found.1)
                },
                _ => (earlier.0, earlier.1.push(issue(here, "group entries must be objects"@))),
            }
        }
    }
}

/// One syntax or structural token-document error.
#[derive(Clone, Debug, PartialEq, Eq)]
pub struct ParseError {
    path: String,
    line: Option<usize>,
    column: Option<usize>,
    message: String,
}

/// All errors found while decoding one token document.
pub type ParseErrors = Errors<ParseError>;

impl ParseError {
    pub closed spec fn path_of(&self) -> Seq<char> {
        self.path@
    }

    pub closed spec fn line_of(&self) -> Option<usize> {
        self.line
    }

    pub closed spec fn column_of(&self) -> Option<usize> {
        self.column
    }

    pub closed spec fn message_of(&self) -> Seq<char> {
        self.message@
    }

    /// The problem this error reports.
    pub open spec fn issue_of(&self) -> Issue {
        Issue { location: self.path_of(), message: self.message_of() }
    }

    /// A structural error at a JSON path.
    pub fn at(path: String, message: String) -> (r: ParseError)
        ensures
            r.path_of() == path@ && r.message_of() == message@ && r.line_of() is None
                && r.column_of() is None,
    {
        ParseError { path, line: None, column: None, message }
    }

    /// A JSON syntax error at a one-based line and column.
    pub fn syntax(line: usize, column: usize, message: String) -> (r: ParseError)
        ensures
            r.path_of() == "$"@ && r.message_of() == message@ && r.line_of() == Some(line)
                && r.column_of() == Some(column),
    {
        ParseError { path: owned("$"), line: Some(line), column: Some(column), message }
    }

    /// Returns the JSON path associated with the error.
    pub fn path(&self) -> (r: &str)
        ensures
            r@ == self.path_of(),
    {
        self.path.as_str()
    }

    /// Returns the one-based line for a JSON syntax error.
    pub fn line(&self) -> (r: Option<usize>)
        ensures
            r == self.line_of(),
    {
        self.line
    }

    /// Returns the one-based column for a JSON syntax error.
    pub fn column(&self) -> (r: Option<usize>)
        ensures
            r == self.column_of(),
    {
        self.column
    }

    /// Returns the error message without location decoration.
    pub fn message(&self) -> (r: &str)
        ensures
            r@ == self.message_of(),
    {
        self.message.as_str()
    }
}

impl Diagnostic for ParseError {
    open spec fn code_text(&self) -> Seq<char> {
        if self.line_of() is Some {
            "TMS1101"@
        } else {
            "TMS1102"@
        }
    }

    open spec fn message_text(&self) -> Seq<char> {
        match (self.line_of(), self.column_of()) {
            (Some(l), Some(c)) => self.message_of() + " at line "@ + decimal(l as nat)
                + ", column "@ + decimal(c as nat),
            _ => self.path_of() + ": "@ + self.message_of(),
        }
    }

    fn code(&self) -> (r: String) {
        if self.line.is_some() {
            owned("TMS1101")
        } else {
            owned("TMS1102")
        }
    }

    fn to_string(&self) -> (r: String) {
        match (self.line, self.column) {
            (Some(l), Some(c)) => {
                let mut r = self.message.clone();
                r.append(" at line ");
                push_decimal(&mut r, l);
                r.append(", column ");
                push_decimal(&mut r, c);
                r
            },
            _ => {
                let mut r = self.path.clone();
                r.append(": ");
                r.append(self.message.as_str());
                r
            },
        }
    }
}

/// Every error is structural: it has no line.
pub open spec fn structural(errors: Seq<ParseError>) -> bool {
    forall|i: int| 0 <= i < errors.len() ==> (#[trigger] errors[i]).line_of() is None
}

/// The problems reported by a list of errors.
pub open spec fn issues_of(errors: Seq<ParseError>) -> Seq<Issue> {
    errors.map_values(|e: ParseError| e.issue_of())
}

/// The tokens described by a list of declarations.
pub open spec fn views_of(tokens: Seq<TokenDefinition>) -> Seq<TokenView> {
    tokens.map_values(|d: TokenDefinition| token_view(d))
}

fn report(errors: &mut Vec<ParseError>, location: String, message: String)
    ensures
        structural(old(errors)@) ==> structural(final(errors)@),
        issues_of(final(errors)@) == issues_of(old(errors)@).push(issue(location@, message@)),
{
    errors.push(ParseError::at(location, message));
    assert(issues_of(errors@) =~= issues_of(old(errors)@).push(issue(location@, message@)));
}

fn report_expected(errors: &mut Vec<ParseError>, location: &str, what: &str)
    ensures
        structural(old(errors)@) ==> structural(final(errors)@),
        issues_of(final(errors)@) == issues_of(old(errors)@).push(expected(location@, what@)),
{
    let mut message = owned("expected ");
    message.append(what);
    report(errors, owned(location), message);
}

/// `LOCATION.NAME`
fn member_text(location: &str, name: &str) -> (r: String)
    ensures
        r@ == member(location@, name@),
{
    let mut r = owned(location);
    r.append(".");
    r.append(name);
    r
}

/// `BEFORE'NAME'AFTER`
fn quoted_message(before: &str, name: &str) -> (r: String)
    ensures
        r@ == before@ + name@ + "'"@,
{
    let mut r = owned(before);
    r.append(name);
    r.append("'");
    r
}

/// The JSON path of a group or token.
pub fn json_path(path: &Vec<String>) -> (r: String)
    ensures
        r@ == location(crate::text::texts(path@)),
{
    if path.len() == 0 {
        owned("$")
    } else {
        let mut r = owned("$.");
        let dotted = crate::diagnostic::join_texts(path, ".");
        r.append(dotted.as_str());
        r
    }
}

/// Returns whether a group or token name is usable.
pub fn valid_name(name: &str) -> (r: bool)
    ensures
        r == usable_name(name@),
{
    name.unicode_len() > 0 && !crate::text::text_contains_char(name, '.')
        && !crate::text::text_contains_char(name, '{') && !crate::text::text_contains_char(name, '}')
}

/// Returns the target of an alias written as `{PATH}`.
pub fn alias_path(value: &str) -> (r: Option<String>)
    ensures
        match (r, alias_text(value@)) {
            (Some(a), Some(b)) => a@ == b,
            (None, None) => true,
            _ => false,
        },
{
    let n = value.unicode_len();
    if n >= 2 && value.get_char(0) == '{' && value.get_char(n - 1) == '}' {
        let inner = value.substring_char(1, n - 1);
        Some(owned(inner))
    } else {
        None
    }
}

fn is_reserved(name: &str) -> (r: bool)
    ensures
        r == reserved(name@),
{
    name.unicode_len() > 0 && name.get_char(0) == '$'
}

/// Returns the first member named `key`.
pub(crate) fn get<'a>(entries: &'a Vec<(String, JsonValue)>, key: &str) -> (r: Option<&'a JsonValue>)
    ensures
        match r {
            Some(v) => json_get(entries@, key@) == Some(*v),
            None => json_get(entries@, key@) is None,
        },
{
    let mut i: usize = 0;
    assert(entries@.skip(0) =~= entries@);
    while i < entries.len()
        invariant
            i <= entries@.len(),
            json_get(entries@, key@) == json_get(entries@.skip(i as int), key@),
        decreases entries@.len() - i,
    {
        assert(entries@.skip(i as int).drop_first() =~= entries@.skip(i + 1));
        if text_eq(entries[i].0.as_str(), key) {
            return Some(&entries[i].1);
        }
        i = i + 1;
    }
    None
}

fn validate_reserved_properties(
    entries: &Vec<(String, JsonValue)>,
    location: &str,
    token: bool,
    errors: &mut Vec<ParseError>,
)
    ensures
        structural(old(errors)@) ==> structural(final(errors)@),
        issues_of(final(errors)@) == issues_of(old(errors)@) + reserved_issues(entries@, location@, token),
{
    let mut i: usize = 0;
    assert(issues_of(errors@) =~= issues_of(old(errors)@) + reserved_issues(entries@.take(0), location@, token));
    while i < entries.len()
        invariant
            structural(old(errors)@) ==> structural(errors@),
            i <= entries@.len(),
            issues_of(errors@) == issues_of(old(errors)@) + reserved_issues(entries@.take(i as int), location@, token),
        decreases entries@.len() - i,
    {
        let name = entries[i].0.as_str();
        assert(entries@.take(i + 1).drop_last() =~= entries@.take(i as int));
        let allowed = text_eq(name, "$type") || text_eq(name, "$description") || text_eq(name, "$extensions")
            || text_eq(name, "$deprecated") || (token && text_eq(name, "$value"));
        if is_reserved(name) && !allowed {
            report(errors, member_text(location, name), quoted_message("unsupported reserved property '", name));
        }
        i = i + 1;
    }
    assert(entries@.take(entries@.len() as int) =~= entries@);
}

fn parse_kind(value: &JsonValue, location: &str, errors: &mut Vec<ParseError>) -> (r: Option<TokenKind>)
    ensures
        structural(old(errors)@) ==> structural(final(errors)@),
        r == read_kind(*value, location@).0,
        issues_of(final(errors)@) == issues_of(old(errors)@) + read_kind(*value, location@).1,
{
    match value {
        JsonValue::String(name) => {
            let n = name.as_str();
            if text_eq(n, "boolean") {
                Some(TokenKind::Boolean)
            } else if text_eq(n, "color") {
                Some(TokenKind::Color)
            } else if text_eq(n, "dimension") {
                Some(TokenKind::Dimension)
            } else if text_eq(n, "number") {
                Some(TokenKind::Number)
            } else if text_eq(n, "string") {
                Some(TokenKind::String)
            } else {
                report(errors, owned(location), quoted_message("unsupported token type '", n));
                None
            }
        },
        _ => {
            report(errors, owned(location), owned("$type must be a string"));
            None
        },
    }
}

fn local_kind(entries: &Vec<(String, JsonValue)>, location: &str, errors: &mut Vec<ParseError>) -> (r: Option<TokenKind>)
    ensures
        structural(old(errors)@) ==> structural(final(errors)@),
        r == declared_kind(entries@, location@).0,
        issues_of(final(errors)@) == issues_of(old(errors)@) + declared_kind(entries@, location@).1,
{
    match get(entries, "$type") {
        Some(t) => {
            let here = member_text(location, "$type");
            parse_kind(t, here.as_str(), errors)
        },
        None => {
            assert(issues_of(errors@) =~= issues_of(old(errors)@) + Seq::<Issue>::empty());
            None
        },
    }
}

fn parse_number(value: &JsonValue, location: &str, errors: &mut Vec<ParseError>) -> (r: Option<Number>)
    ensures
        structural(old(errors)@) ==> structural(final(errors)@),
        match (r, read_number(*value, location@).0) {
            (Some(n), Some(bits)) => n@ == bits,
            (None, None) => true,
            _ => false,
        },
        issues_of(final(errors)@) == issues_of(old(errors)@) + read_number(*value, location@).1,
{
    match value {
        JsonValue::Number(bits, _) => match Number::new(*bits) {
            Ok(n) => {
                assert(issues_of(errors@) =~= issues_of(old(errors)@) + Seq::<Issue>::empty());
                Some(n)
            },
            Err(e) => {
                report(errors, owned(location), e.to_string());
                None
            },
        },
        _ => {
            report_expected(errors, location, "a number");
            None
        },
    }
}

/// Returns whether one of `names` is `name`.
fn names_contain(names: &[&str], name: &str) -> (r: bool)
    ensures
        r == names@.map_values(|n: &str| n@).contains(name@),
{
    let ghost views = names@.map_values(|n: &str| n@);
    let mut i: usize = 0;
    while i < names.len()
        invariant
            views == names@.map_values(|n: &str| n@),
            i <= names@.len(),
            forall|j: int| 0 <= j < i ==> views[j] != name@,
        decreases names@.len() - i,
    {
        if text_eq(names[i], name) {
            assert(views[i as int] == name@);
            return true;
        }
        i = i + 1;
    }
    false
}

/// Reports members outside `names` and members of `names` that are missing.
fn validate_object_keys(
    entries: &Vec<(String, JsonValue)>,
    location: &str,
    names: &[&str],
    errors: &mut Vec<ParseError>,
) -> (r: bool)
    ensures
        structural(old(errors)@) ==> structural(final(errors)@),
        issues_of(final(errors)@) == issues_of(old(errors)@) + shape_issues(
            entries@,
            location@,
            names@.map_values(|n: &str| n@),
        ),
        r == (shape_issues(entries@, location@, names@.map_values(|n: &str| n@)).len() == 0),
{
    let ghost views = names@.map_values(|n: &str| n@);
    let start_len = errors.len();
    let mut i: usize = 0;
    assert(issues_of(errors@) =~= issues_of(old(errors)@) + unexpected_members(entries@.take(0), location@, views));
    while i < entries.len()
        invariant
            structural(old(errors)@) ==> structural(errors@),
            views == names@.map_values(|n: &str| n@),
            i <= entries@.len(),
            issues_of(errors@) == issues_of(old(errors)@) + unexpected_members(entries@.take(i as int), location@, views),
        decreases entries@.len() - i,
    {
        let key = entries[i].0.as_str();
        assert(entries@.take(i + 1).drop_last() =~= entries@.take(i as int));
        if !names_contain(names, key) {
            report(errors, member_text(location, key), quoted_message("unexpected property '", key));
        }
        i = i + 1;
    }
    assert(entries@.take(entries@.len() as int) =~= entries@);
    let mut k: usize = 0;
    assert(views.take(0) =~= Seq::<Seq<char>>::empty());
    assert(issues_of(errors@) =~= issues_of(old(errors)@) + unexpected_members(entries@, location@, views)
        + missing_members(entries@, location@, views.take(0)));
    while k < names.len()
        invariant
            structural(old(errors)@) ==> structural(errors@),
            views == names@.map_values(|n: &str| n@),
            k <= names@.len(),
            issues_of(errors@) == issues_of(old(errors)@) + unexpected_members(entries@, location@, views)
                + missing_members(entries@, location@, views.take(k as int)),
        decreases names@.len() - k,
    {
        assert(views.take(k + 1).drop_last() =~= views.take(k as int));
        assert(views.take(k + 1).last() == names@[k as int]@);
        if get(entries, names[k]).is_none() {
            report(errors, member_text(location, names[k]), quoted_message("missing property '", names[k]));
            assert(issues_of(errors@) =~= issues_of(old(errors)@) + unexpected_members(entries@, location@, views)
                + missing_members(entries@, location@, views.take(k + 1)));
        }
        k = k + 1;
    }
    assert(views.take(names@.len() as int) =~= views);
    errors.len() == start_len
}

fn parse_color(value: &JsonValue, location: &str, errors: &mut Vec<ParseError>) -> (r: Option<Color>)
    ensures
        structural(old(errors)@) ==> structural(final(errors)@),
        match (r, read_color(*value, location@).0) {
            (Some(c), Some(v)) => c@ == v,
            (None, None) => true,
            _ => false,
        },
        issues_of(final(errors)@) == issues_of(old(errors)@) + read_color(*value, location@).1,
{
    let entries = match value {
        JsonValue::Object(entries) => entries,
        _ => {
            report_expected(errors, location, "a color object");
            return None;
        },
    };
    let names: [&str; 3] = ["colorSpace", "components", "alpha"];
    assert(names@.map_values(|n: &str| n@) =~= seq!["colorSpace"@, "components"@, "alpha"@]);
    let ghost before = errors@;
    if !validate_object_keys(entries, location, &names, errors) {
        return None;
    }
    assert(issues_of(errors@) =~= issues_of(before));
    let space_location = member_text(location, "colorSpace");
    match get(entries, "colorSpace") {
        Some(JsonValue::String(space)) => {
            if !text_eq(space.as_str(), "srgb") {
                report(errors, space_location, quoted_message("unsupported color space '", space.as_str()));
                return None;
            }
        },
        _ => {
            report_expected(errors, space_location.as_str(), "the string 'srgb'");
            return None;
        },
    }
    let list_location = member_text(location, "components");
    let items = match get(entries, "components") {
        Some(JsonValue::Array(items)) => items,
        _ => {
            report_expected(errors, list_location.as_str(), "an array of three numbers");
            return None;
        },
    };
    if items.len() != 3 {
        report_expected(errors, list_location.as_str(), "an array of three numbers");
        return None;
    }
    let red = match &items[0] {
        JsonValue::Number(bits, text) => (*bits, text),
        _ => {
            let mut here = list_location.clone();
            here.append("[0]");
            report_expected(errors, here.as_str(), "a number");
            return None;
        },
    };
    let green = match &items[1] {
        JsonValue::Number(bits, text) => (*bits, text),
        _ => {
            let mut here = list_location.clone();
            here.append("[1]");
            report_expected(errors, here.as_str(), "a number");
            return None;
        },
    };
    let blue = match &items[2] {
        JsonValue::Number(bits, text) => (*bits, text),
        _ => {
            let mut here = list_location.clone();
            here.append("[2]");
            report_expected(errors, here.as_str(), "a number");
            return None;
        },
    };
    let alpha = match get(entries, "alpha") {
        Some(JsonValue::Number(bits, text)) => (*bits, text),
        _ => {
            let here = member_text(location, "alpha");
            report_expected(errors, here.as_str(), "a number");
            return None;
        },
    };
    match Color::new([red.0, green.0, blue.0], alpha.0) {
        Ok(color) => Some(color),
        Err(e) => {
            let name = e.component();
            let text = if text_eq(name, "red") {
                red.1
            } else if text_eq(name, "green") {
                green.1
            } else if text_eq(name, "blue") {
                blue.1
            } else {
                alpha.1
            };
            report(errors, owned(location), e.to_string(text.as_str()));
            None
        },
    }
}

fn parse_dimension(value: &JsonValue, location: &str, errors: &mut Vec<ParseError>) -> (r: Option<Dimension>)
    ensures
        structural(old(errors)@) ==> structural(final(errors)@),
        match (r, read_dimension(*value, location@).0) {
            (Some(d), Some((bits, unit))) => d.magnitude() == bits && d.unit_of() == unit,
            (None, None) => true,
            _ => false,
        },
        issues_of(final(errors)@) == issues_of(old(errors)@) + read_dimension(*value, location@).1,
{
    let entries = match value {
        JsonValue::Object(entries) => entries,
        _ => {
            report_expected(errors, location, "a dimension object");
            return None;
        },
    };
    let names: [&str; 2] = ["value", "unit"];
    assert(names@.map_values(|n: &str| n@) =~= seq!["value"@, "unit"@]);
    let ghost before = errors@;
    if !validate_object_keys(entries, location, &names, errors) {
        return None;
    }
    assert(issues_of(errors@) =~= issues_of(before));
    let value_location = member_text(location, "value");
    let magnitude = match get(entries, "value") {
        Some(v) => parse_number(v, value_location.as_str(), errors),
        None => parse_number(&JsonValue::Null, value_location.as_str(), errors),
    };
    let magnitude = match magnitude {
        Some(n) => n,
        None => {
            return None;
        },
    };
    let unit_location = member_text(location, "unit");
    let unit = match get(entries, "unit") {
        Some(JsonValue::String(unit)) => {
            if text_eq(unit.as_str(), "px") {
                DimensionUnit::Pixel
            } else if text_eq(unit.as_str(), "rem") {
                DimensionUnit::Rem
            } else {
                report(errors, unit_location, quoted_message("unsupported dimension unit '", unit.as_str()));
                return None;
            }
        },
        _ => {
            report_expected(errors, unit_location.as_str(), "'px' or 'rem'");
            return None;
        },
    };
    magnitude.check_valid();
    match Dimension::new(magnitude.get(), unit) {
        Ok(d) => Some(d),
        Err(_) => {
            proof {
                assert(false);
            }
            None
        },
    }
}

fn parse_expression(
    kind: TokenKind,
    value: &JsonValue,
    location: &str,
    errors: &mut Vec<ParseError>,
) -> (r: Option<TokenExpression>)
    ensures
        structural(old(errors)@) ==> structural(final(errors)@),
        match (r, read_expression(kind, *value, location@).0) {
            (Some(e), Some(v)) => expression_view(e) == v && crate::token_model::consistent(kind, e),
            (None, None) => true,
            _ => false,
        },
        issues_of(final(errors)@) == issues_of(old(errors)@) + read_expression(kind, *value, location@).1,
{
    if let JsonValue::String(text) = value {
        if let Some(target) = alias_path(text.as_str()) {
            return match TokenPath::from_text(target.as_str()) {
                Ok(path) => {
                    assert(issues_of(errors@) =~= issues_of(old(errors)@) + Seq::<Issue>::empty());
                    Some(TokenExpression::Alias(path))
                },
                Err(e) => {
                    let mut message = owned("invalid token alias: ");
                    let detail = e.to_string();
                    message.append(detail.as_str());
                    report(errors, owned(location), message);
                    None
                },
            };
        }
    }
    let literal = match kind {
        TokenKind::Boolean => match value {
            JsonValue::Bool(b) => TokenValue::Boolean(*b),
            _ => {
                report_expected(errors, location, "a boolean");
                return None;
            },
        },
        TokenKind::Number => match parse_number(value, location, errors) {
            Some(n) => TokenValue::Number(n),
            None => {
                return None;
            },
        },
        TokenKind::String => match value {
            JsonValue::String(s) => TokenValue::String(s.clone()),
            _ => {
                report_expected(errors, location, "a string");
                return None;
            },
        },
        TokenKind::Color => match parse_color(value, location, errors) {
            Some(c) => TokenValue::Color(c),
            None => {
                return None;
            },
        },
        TokenKind::Dimension => match parse_dimension(value, location, errors) {
            Some(d) => TokenValue::Dimension(d),
            None => {
                return None;
            },
        },
    };
    assert(issues_of(errors@) =~= issues_of(old(errors)@) + Seq::<Issue>::empty());
    Some(TokenExpression::Literal(literal))
}

/// Every segment of a path being walked is a usable name.
pub open spec fn usable_path(path: Seq<String>) -> bool {
    forall|i: int| 0 <= i < path.len() ==> usable_name(#[trigger] path[i]@)
}

#[verifier::spinoff_prover]
#[verifier::rlimit(40)]
fn visit_token(
    entries: &Vec<(String, JsonValue)>,
    path: &Vec<String>,
    inherited: Option<TokenKind>,
    tokens: &mut Vec<TokenDefinition>,
    errors: &mut Vec<ParseError>,
)
    requires
        path@.len() > 0,
        usable_path(path@),
    ensures
        structural(old(errors)@) ==> structural(final(errors)@),
        views_of(final(tokens)@) == views_of(old(tokens)@) + read_token(
            entries@,
            crate::text::texts(path@),
            inherited,
        ).0,
        issues_of(final(errors)@) == issues_of(old(errors)@) + read_token(
            entries@,
            crate::text::texts(path@),
            inherited,
        ).1,
{
    let ghost p = crate::text::texts(path@);
    let here = json_path(path);
    validate_reserved_properties(entries, here.as_str(), true, errors);
    let mut i: usize = 0;
    let ghost after_reserved = issues_of(errors@);
    assert(issues_of(errors@) =~= after_reserved + token_child_issues(entries@.take(0), here@));
    while i < entries.len()
        invariant
            structural(old(errors)@) ==> structural(errors@),
            i <= entries@.len(),
            issues_of(errors@) == after_reserved + token_child_issues(entries@.take(i as int), here@),
        decreases entries@.len() - i,
    {
        let name = entries[i].0.as_str();
        assert(entries@.take(i + 1).drop_last() =~= entries@.take(i as int));
        if !is_reserved(name) {
            report(errors, member_text(here.as_str(), name), owned("tokens cannot contain child groups or tokens"));
        }
        i = i + 1;
    }
    assert(entries@.take(entries@.len() as int) =~= entries@);
    let local = local_kind(entries, here.as_str(), errors);
    let kind = match local {
        Some(k) => k,
        None => match inherited {
            Some(k) => k,
            None => {
                report(errors, here.clone(), owned("token has no $type and does not inherit one"));
                assert(views_of(tokens@) =~= views_of(old(tokens)@) + Seq::<TokenView>::empty());
                return;
            },
        },
    };
    let value_location = member_text(here.as_str(), "$value");
    let value = match get(entries, "$value") {
        Some(v) => v,
        None => {
            report(errors, value_location, owned("token is missing $value"));
            assert(views_of(tokens@) =~= views_of(old(tokens)@) + Seq::<TokenView>::empty());
            return;
        },
    };
    let expression = match parse_expression(kind, value, value_location.as_str(), errors) {
        Some(e) => e,
        None => {
            assert(views_of(tokens@) =~= views_of(old(tokens)@) + Seq::<TokenView>::empty());
            return;
        },
    };
    let segments = crate::text::copy_texts(path);
    proof {
        assert(crate::token_path::valid_path(crate::text::texts(segments@))) by {
            assert forall|i: int| 0 <= i < crate::text::texts(segments@).len() implies #[trigger] crate::text::texts(segments@)[i].len() > 0 by {
                assert(usable_name(path@[i]@));
            }
        }
        if let Some(k) = crate::token_path::first_empty(crate::text::texts(segments@)) {
            assert(crate::text::texts(segments@)[k].len() == 0);
        }
    }
    let token_path = match TokenPath::new(segments) {
        Ok(tp) => tp,
        Err(_) => {
            proof {
                assert(false);
            }
            return;
        },
    };
    let definition = match TokenDefinition::new(token_path, kind, expression) {
        Ok(d) => d,
        Err(_) => {
            proof {
                assert(false);
            }
            return;
        },
    };
    tokens.push(definition);
    proof {
        assert(views_of(tokens@) =~= views_of(old(tokens)@) + read_token(entries@, p, inherited).0);
        assert(issues_of(errors@) =~= issues_of(old(errors)@) + read_token(entries@, p, inherited).1);
    }
}

#[verifier::rlimit(40)]
fn visit_group(
    entries: &Vec<(String, JsonValue)>,
    path: &mut Vec<String>,
    inherited: Option<TokenKind>,
    tokens: &mut Vec<TokenDefinition>,
    errors: &mut Vec<ParseError>,
)
    requires
        usable_path(old(path)@),
    ensures
        structural(old(errors)@) ==> structural(final(errors)@),
        final(path)@ == old(path)@,
        views_of(final(tokens)@) == views_of(old(tokens)@) + read_group(
            entries@,
            crate::text::texts(old(path)@),
            inherited,
        ).0,
        issues_of(final(errors)@) == issues_of(old(errors)@) + read_group(
            entries@,
            crate::text::texts(old(path)@),
            inherited,
        ).1,
    decreases entries@,
{
    let ghost p = crate::text::texts(path@);
    let here = json_path(path);
    validate_reserved_properties(entries, here.as_str(), false, errors);
    let local = local_kind(entries, here.as_str(), errors);
    let kind = match local {
        Some(k) => Some(k),
        None => inherited,
    };
    let ghost start_tokens = views_of(tokens@);
    let ghost start_issues = issues_of(errors@);
    let mut k: usize = 0;
    assert(views_of(tokens@) =~= start_tokens + read_members(entries@, 0, p, kind).0);
    assert(issues_of(errors@) =~= start_issues + read_members(entries@, 0, p, kind).1);
    while k < entries.len()
        invariant
            structural(old(errors)@) ==> structural(errors@),
            k <= entries@.len(),
            path@ == old(path)@,
            p == crate::text::texts(path@),
            usable_path(path@),
            here@ == location(p),
            views_of(tokens@) == start_tokens + read_members(entries@, k as int, p, kind).0,
            issues_of(errors@) == start_issues + read_members(entries@, k as int, p, kind).1,
        decreases entries@.len() - k,
    {
        let name = &entries[k].0;
        let ghost earlier = read_members(entries@, k as int, p, kind);
        if is_reserved(name.as_str()) {
        } else if !valid_name(name.as_str()) {
            report(
                errors,
                member_text(here.as_str(), name.as_str()),
                owned("names must be non-empty and cannot contain '.', '{', or '}'"),
            );
        } else {
            match &entries[k].1 {
                JsonValue::Object(child) => {
                    proof {
                        let e = entries@[k as int];
                        assert(decreases_to!(entries@ => e));
                        assert(decreases_to!(e => e.1));
                        let c = e.1->Object_0;
                        assert(decreases_to!(e.1 => c));
                        assert(decreases_to!(c => c@));
                    }
                    path.push(name.clone());
                    proof {
                        assert(crate::text::texts(path@) =~= p.push(name@));
                        assert forall|i: int| 0 <= i < path@.len() implies usable_name(#[trigger] path@[i]@) by {
                            if i < old(path)@.len() {
                                assert(path@[i] == old(path)@[i]);
                            }
                        }
                    }
                    if get(child, "$value").is_some() {
                        visit_token(child, path, kind, tokens, errors);
                    } else {
                        visit_group(child, path, kind, tokens, errors);
                    }
                    path.pop();
                    proof {
                        assert(path@ =~= old(path)@);
                    }
                },
                _ => {
                    report(errors, member_text(here.as_str(), name.as_str()), owned("group entries must be objects"));
                },
            }
        }
        proof {
            let now = read_members(entries@, k + 1, p, kind);
            assert(views_of(tokens@) =~= start_tokens + now.0);
            assert(issues_of(errors@) =~= start_issues + now.1);
        }
        k = k + 1;
    }
    proof {
        assert(views_of(tokens@) =~= views_of(old(tokens)@) + read_group(entries@, p, inherited).0);
        assert(issues_of(errors@) =~= issues_of(old(errors)@) + read_group(entries@, p, inherited).1);
    }
}

/// The tokens and problems of a whole document.
pub open spec fn document_reading(root: JsonValue) -> (Seq<TokenView>, Seq<Issue>) {
    match root {
        JsonValue::Object(entries) => read_group(entries@, Seq::empty(), None),
        _ => (Seq::empty(), seq![issue("$"@, "token document root must be an object"@)]),
    }
}

/// `r` is what reading `root` as the document of `source` gives: the
/// document of the tokens found, in path order, when nothing is wrong;
/// otherwise every problem found, in order.
pub open spec fn reads_as(source: SourceId, root: JsonValue, r: Result<TokenDocument, ParseErrors>) -> bool {
    let (found, problems) = document_reading(root);
    &&& r is Ok <==> problems.len() == 0
    &&& r matches Ok(doc) ==> {
        &&& doc.source_of() == source
        &&& crate::token_model::sorted_by_path(doc.tokens_of())
        &&& exists|declared: Seq<TokenDefinition>|
            views_of(declared) == found && #[trigger] doc.tokens_of().to_multiset()
                == declared.to_multiset()
    }
    &&& r matches Err(e) ==> issues_of(e.items()) == problems && forall|i: int|
        0 <= i < e.items().len() ==> (#[trigger] e.items()[i]).line_of() is None
}

/// The contents of an optional value.
pub open spec fn opt_view(v: Option<JsonValue>) -> Option<JsonTree> {
    match v {
        Some(x) => Some(json_view(x)),
        None => None,
    }
}

/// Members with the same names and contents agree index by index.
proof fn lemma_entries_index(a: Seq<(String, JsonValue)>, b: Seq<(String, JsonValue)>)
    requires
        entries_view(a) == entries_view(b),
    ensures
        a.len() == b.len(),
        forall|i: int| 0 <= i < a.len() ==> #[trigger] a[i].0@ == b[i].0@ && json_view(a[i].1) == json_view(b[i].1),
{
    assert(entries_view(a).len() == a.len());
    assert forall|i: int| 0 <= i < a.len() implies #[trigger] a[i].0@ == b[i].0@ && json_view(a[i].1) == json_view(
        b[i].1,
    ) by {
        assert(entries_view(a)[i] == entries_view(b)[i]);
    }
}

/// Shortening members with the same contents keeps them the same.
proof fn lemma_entries_shorter(a: Seq<(String, JsonValue)>, b: Seq<(String, JsonValue)>)
    requires
        entries_view(a) == entries_view(b),
        a.len() > 0,
    ensures
        entries_view(a.drop_last()) == entries_view(b.drop_last()),
        entries_view(a.drop_first()) == entries_view(b.drop_first()),
        a.last().0@ == b.last().0@,
        json_view(a.last().1) == json_view(b.last().1),
        a[0].0@ == b[0].0@,
        json_view(a[0].1) == json_view(b[0].1),
{
    lemma_entries_index(a, b);
    assert(entries_view(a.drop_last()) =~= entries_view(b.drop_last()));
    assert(entries_view(a.drop_first()) =~= entries_view(b.drop_first())) by {
        assert forall|i: int| 0 <= i < a.len() - 1 implies entries_view(a.drop_first())[i] == entries_view(
            b.drop_first(),
        )[i] by {
            assert(a.drop_first()[i] == a[i + 1]);
            assert(b.drop_first()[i] == b[i + 1]);
        }
    }
    assert(a.last() == a[a.len() - 1]);
    assert(b.last() == b[b.len() - 1]);
}

proof fn lemma_get_view(a: Seq<(String, JsonValue)>, b: Seq<(String, JsonValue)>, key: Seq<char>)
    requires
        entries_view(a) == entries_view(b),
    ensures
        opt_view(json_get(a, key)) == opt_view(json_get(b, key)),
    decreases a.len(),
{
    lemma_entries_index(a, b);
    if a.len() > 0 {
        lemma_entries_shorter(a, b);
        lemma_get_view(a.drop_first(), b.drop_first(), key);
    }
}

proof fn lemma_reserved_view(a: Seq<(String, JsonValue)>, b: Seq<(String, JsonValue)>, location: Seq<char>, token: bool)
    requires
        entries_view(a) == entries_view(b),
    ensures
        reserved_issues(a, location, token) == reserved_issues(b, location, token),
        token_child_issues(a, location) == token_child_issues(b, location),
    decreases a.len(),
{
    lemma_entries_index(a, b);
    if a.len() > 0 {
        lemma_entries_shorter(a, b);
        lemma_reserved_view(a.drop_last(), b.drop_last(), location, token);
    }
}

proof fn lemma_unexpected_view(a: Seq<(String, JsonValue)>, b: Seq<(String, JsonValue)>, location: Seq<char>, names: Seq<Seq<char>>)
    requires
        entries_view(a) == entries_view(b),
    ensures
        unexpected_members(a, location, names) == unexpected_members(b, location, names),
    decreases a.len(),
{
    lemma_entries_index(a, b);
    if a.len() > 0 {
        lemma_entries_shorter(a, b);
        lemma_unexpected_view(a.drop_last(), b.drop_last(), location, names);
    }
}

proof fn lemma_missing_view(a: Seq<(String, JsonValue)>, b: Seq<(String, JsonValue)>, location: Seq<char>, names: Seq<Seq<char>>)
    requires
        entries_view(a) == entries_view(b),
    ensures
        missing_members(a, location, names) == missing_members(b, location, names),
        shape_issues(a, location, names) == shape_issues(b, location, names),
    decreases names.len(),
{
    lemma_unexpected_view(a, b, location, names);
    if names.len() > 0 {
        lemma_missing_view(a, b, location, names.drop_last());
        lemma_get_view(a, b, names.last());
    }
}

/// Values with the same contents: the same variant, with the same parts.
proof fn lemma_same_view(x: JsonValue, y: JsonValue)
    requires
        json_view(x) == json_view(y),
    ensures
        x is Null <==> y is Null,
        x is Bool <==> y is Bool,
        x is Bool ==> x->Bool_0 == y->Bool_0,
        x is Number <==> y is Number,
        x is Number ==> x->Number_0 == y->Number_0 && x->Number_1@ == y->Number_1@,
        x is String <==> y is String,
        x is String ==> x->String_0@ == y->String_0@,
        x is Array <==> y is Array,
        x is Array ==> trees_of(x->Array_0@) == trees_of(y->Array_0@),
        x is Object <==> y is Object,
        x is Object ==> entries_view(x->Object_0@) == entries_view(y->Object_0@),
{
    lemma_json_view(x);
    lemma_json_view(y);
}

proof fn lemma_scalars_view(x: JsonValue, y: JsonValue, location: Seq<char>)
    requires
        json_view(x) == json_view(y),
    ensures
        read_kind(x, location) == read_kind(y, location),
        read_number(x, location) == read_number(y, location),
        component(x) == component(y),
{
    lemma_same_view(x, y);
}

proof fn lemma_items_index(a: Seq<JsonValue>, b: Seq<JsonValue>)
    requires
        trees_of(a) == trees_of(b),
    ensures
        a.len() == b.len(),
        forall|i: int| 0 <= i < a.len() ==> json_view(#[trigger] a[i]) == json_view(b[i]),
{
    assert(trees_of(a).len() == a.len());
    assert forall|i: int| 0 <= i < a.len() implies json_view(#[trigger] a[i]) == json_view(b[i]) by {
        assert(trees_of(a)[i] == trees_of(b)[i]);
        assert(trees_of(a)[i] == json_view(a[i]));
        assert(trees_of(b)[i] == json_view(b[i]));
    }
}

proof fn lemma_declared_kind_view(a: Seq<(String, JsonValue)>, b: Seq<(String, JsonValue)>, location: Seq<char>)
    requires
        entries_view(a) == entries_view(b),
    ensures
        declared_kind(a, location) == declared_kind(b, location),
{
    lemma_get_view(a, b, "$type"@);
    match (json_get(a, "$type"@), json_get(b, "$type"@)) {
        (Some(x), Some(y)) => lemma_scalars_view(x, y, member(location, "$type"@)),
        _ => {},
    }
}

#[verifier::spinoff_prover]
#[verifier::rlimit(40)]
proof fn lemma_color_view(x: JsonValue, y: JsonValue, location: Seq<char>)
    requires
        json_view(x) == json_view(y),
    ensures
        read_color(x, location) == read_color(y, location),
{
    lemma_same_view(x, y);
    match (x, y) {
        (JsonValue::Object(ea), JsonValue::Object(eb)) => {
            let names = seq!["colorSpace"@, "components"@, "alpha"@];
            lemma_missing_view(ea@, eb@, location, names);
            lemma_get_view(ea@, eb@, "colorSpace"@);
            lemma_get_view(ea@, eb@, "components"@);
            lemma_get_view(ea@, eb@, "alpha"@);
            match (json_get(ea@, "colorSpace"@), json_get(eb@, "colorSpace"@)) {
                (Some(s), Some(t)) => lemma_same_view(s, t),
                _ => {},
            }
            match (json_get(ea@, "alpha"@), json_get(eb@, "alpha"@)) {
                (Some(s), Some(t)) => lemma_scalars_view(s, t, location),
                _ => {},
            }
            match (json_get(ea@, "components"@), json_get(eb@, "components"@)) {
                (Some(s), Some(t)) => {
                    lemma_same_view(s, t);
                    match (s, t) {
                        (JsonValue::Array(ia), JsonValue::Array(ib)) => {
                            lemma_items_index(ia@, ib@);
                            if ia@.len() == 3 {
                                lemma_scalars_view(ia@[0], ib@[0], location);
                                lemma_scalars_view(ia@[1], ib@[1], location);
                                lemma_scalars_view(ia@[2], ib@[2], location);
                            }
                        },
                        _ => {},
                    }
                },
                _ => {},
            }
        },
        _ => {},
    }
}

proof fn lemma_dimension_view(x: JsonValue, y: JsonValue, location: Seq<char>)
    requires
        json_view(x) == json_view(y),
    ensures
        read_dimension(x, location) == read_dimension(y, location),
{
    lemma_same_view(x, y);
    match (x, y) {
        (JsonValue::Object(ea), JsonValue::Object(eb)) => {
            let names = seq!["value"@, "unit"@];
            lemma_missing_view(ea@, eb@, location, names);
            lemma_get_view(ea@, eb@, "value"@);
            lemma_get_view(ea@, eb@, "unit"@);
            match (json_get(ea@, "value"@), json_get(eb@, "value"@)) {
                (Some(s), Some(t)) => lemma_scalars_view(s, t, member(location, "value"@)),
                _ => {},
            }
            match (json_get(ea@, "unit"@), json_get(eb@, "unit"@)) {
                (Some(s), Some(t)) => lemma_same_view(s, t),
                _ => {},
            }
        },
        _ => {},
    }
}

proof fn lemma_expression_view(kind: TokenKind, x: JsonValue, y: JsonValue, location: Seq<char>)
    requires
        json_view(x) == json_view(y),
    ensures
        read_expression(kind, x, location) == read_expression(kind, y, location),
{
    lemma_same_view(x, y);
    lemma_scalars_view(x, y, location);
    lemma_color_view(x, y, location);
    lemma_dimension_view(x, y, location);
}

proof fn lemma_token_view(
    a: Seq<(String, JsonValue)>,
    b: Seq<(String, JsonValue)>,
    path: Seq<Seq<char>>,
    inherited: Option<TokenKind>,
)
    requires
        entries_view(a) == entries_view(b),
    ensures
        read_token(a, path, inherited) == read_token(b, path, inherited),
{
    let here = location(path);
    lemma_declared_kind_view(a, b, here);
    lemma_reserved_view(a, b, here, true);
    lemma_get_view(a, b, "$value"@);
    match (json_get(a, "$value"@), json_get(b, "$value"@)) {
        (Some(x), Some(y)) => {
            let kind = match declared_kind(a, here).0 {
                Some(k) => Some(k),
                None => inherited,
            };
            match kind {
                Some(k) => lemma_expression_view(k, x, y, member(here, "$value"@)),
                None => {},
            }
        },
        _ => {},
    }
}

proof fn lemma_group_view(
    a: Seq<(String, JsonValue)>,
    b: Seq<(String, JsonValue)>,
    path: Seq<Seq<char>>,
    inherited: Option<TokenKind>,
)
    requires
        entries_view(a) == entries_view(b),
    ensures
        read_group(a, path, inherited) == read_group(b, path, inherited),
    decreases a, a.len() + 1,
{
    let here = location(path);
    lemma_entries_index(a, b);
    lemma_declared_kind_view(a, b, here);
    lemma_reserved_view(a, b, here, false);
    let kind = match declared_kind(a, here).0 {
        Some(k) => Some(k),
        None => inherited,
    };
    lemma_members_view_equal(a, b, a.len() as int, path, kind);
}

proof fn lemma_members_view_equal(
    a: Seq<(String, JsonValue)>,
    b: Seq<(String, JsonValue)>,
    k: int,
    path: Seq<Seq<char>>,
    kind: Option<TokenKind>,
)
    requires
        entries_view(a) == entries_view(b),
    ensures
        read_members(a, k, path, kind) == read_members(b, k, path, kind),
    decreases a, k,
{
    lemma_entries_index(a, b);
    if 0 < k <= a.len() {
        lemma_members_view_equal(a, b, k - 1, path, kind);
        let name = a[k - 1].0@;
        lemma_same_view(a[k - 1].1, b[k - 1].1);
        match (a[k - 1].1, b[k - 1].1) {
            (JsonValue::Object(ca), JsonValue::Object(cb)) => {
                let e = a[k - 1];
                assert(decreases_to!(a => e));
                assert(decreases_to!(e => e.1));
                assert(decreases_to!(e.1 => ca));
                assert(decreases_to!(ca => ca@));
                lemma_get_view(ca@, cb@, "$value"@);
                if usable_name(name) && !reserved(name) {
                    if json_get(ca@, "$value"@) is Some {
                        lemma_token_view(ca@, cb@, path.push(name), kind);
                    } else {
                        lemma_group_view(ca@, cb@, path.push(name), kind);
                    }
                }
            },
            _ => {},
        }
    }
}

/// The reading of a document depends on its contents alone.
pub proof fn lemma_reading_by_contents(x: JsonValue, y: JsonValue)
    requires
        json_view(x) == json_view(y),
    ensures
        document_reading(x) == document_reading(y),
{
    lemma_same_view(x, y);
    match (x, y) {
        (JsonValue::Object(ea), JsonValue::Object(eb)) => lemma_group_view(ea@, eb@, Seq::empty(), None),
        _ => {},
    }
}

/// `r` is what reading a document with contents `doc` as the document of
/// `source` gives (see [`reads_as`]).
pub open spec fn reads_contents(source: SourceId, doc: JsonTree, r: Result<TokenDocument, ParseErrors>) -> bool {
    exists|root: JsonValue| json_view(root) == doc && #[trigger] reads_as(source, root, r)
}

/// What [`reads_contents`] says holds of every value with those contents.
pub proof fn lemma_reads_contents(source: SourceId, doc: JsonTree, root: JsonValue, r: Result<TokenDocument, ParseErrors>)
    requires
        reads_contents(source, doc, r),
        json_view(root) == doc,
    ensures
        reads_as(source, root, r),
{
    let other = choose|other: JsonValue| json_view(other) == doc && #[trigger] reads_as(source, other, r);
    lemma_reading_by_contents(other, root);
}

/// Reads the tokens of a JSON document.
pub fn parse_value(source: SourceId, root: &JsonValue) -> (r: Result<TokenDocument, ParseErrors>)
    ensures
        reads_as(source, *root, r),
{
    match root {
        JsonValue::Object(entries) => {
            let mut tokens: Vec<TokenDefinition> = Vec::new();
            let mut errors: Vec<ParseError> = Vec::new();
            let mut path: Vec<String> = Vec::new();
            visit_group(entries, &mut path, None, &mut tokens, &mut errors);
            proof {
                assert(crate::text::texts(Seq::<String>::empty()) =~= Seq::<Seq<char>>::empty());
                assert(views_of(tokens@) =~= document_reading(*root).0);
                assert(issues_of(errors@) =~= document_reading(*root).1);
            }
            assert(structural(Seq::<ParseError>::empty()));
            if errors.len() == 0 {
                let document = TokenDocument::new(source, tokens);
                Ok(document)
            } else {
                Err(Errors::new(errors))
            }
        },
        _ => {
            let e = ParseError::at(owned("$"), owned("token document root must be an object"));
            let r = Errors::one(e);
            assert(issues_of(r.items()) =~= document_reading(*root).1);
            Err(r)
        },
    }
}

/// A parsed `serde_json` value.
#[verifier::external_type_specification]
#[verifier::external_body]
pub struct ExJsonValue(serde_json::Value);

/// The variant of a `serde_json` value, with a boolean or string as it is.
pub enum JsonKind {
    Null,
    Bool(bool),
    Number,
    String(String),
    Array,
    Object,
}

/// What `serde_json::from_str` gives for `text`: the contents of the
/// document it parses the text to, or, where it refuses the text, the
/// one-based line and the column of its error with the error's rendering.
pub uninterp spec fn json_document(text: Seq<char>) -> Result<JsonTree, (usize, usize, Seq<char>)>;

/// What a `serde_json::Value` holds: its variant with a boolean or string as
/// it is, a number by its binary64 value (`as_f64`, `to_bits`, `to_string`),
/// and the items of an array or the members of an object in iteration order.
pub uninterp spec fn json_contents(value: serde_json::Value) -> JsonTree;

/// Parses JSON text with `serde_json::from_str`, which depends on the text
/// alone: its result is what [`json_document`] names, the value holding the
/// document, and an error given by its line, column and rendering
/// (`serde_json::Error::line`, `column` and `Display`). Its parser refuses
/// containers nested 128 deep (the crate's recursion limit, with
/// `unbounded_depth` off), so a parsed document is nested at most
/// [`JSON_DEPTH`] levels deep, and no array or object of it fills the
/// address space.
#[verifier::external_body]
fn json_from_text(input: &str) -> (r: Result<serde_json::Value, (usize, usize, String)>)
    ensures
        match r {
            Ok(v) => json_document(input@) == Ok::<JsonTree, (usize, usize, Seq<char>)>(json_contents(v)),
            Err(f) => json_document(input@) == Err::<JsonTree, (usize, usize, Seq<char>)>((f.0, f.1, f.2@)),
        },
        r matches Ok(v) ==> tree_within(json_contents(v), JSON_DEPTH as nat),
        r matches Ok(v) ==> tree_held(json_contents(v)),
{
    match serde_json::from_str(input) {
        Ok(value) => Ok(value),
        Err(error) => Err((error.line(), error.column(), error.to_string())),
    }
}

/// The variant of a value (a `match` on `serde_json::Value`).
#[verifier::external_body]
fn json_kind(value: &serde_json::Value) -> (r: JsonKind)
    ensures
        match (r, json_contents(*value)) {
            (JsonKind::Null, JsonTree::Null) => true,
            (JsonKind::Bool(b), JsonTree::Bool(c)) => b == c,
            (JsonKind::Number, JsonTree::Number(_, _)) => true,
            (JsonKind::String(s), JsonTree::String(t)) => s@ == t,
            (JsonKind::Array, JsonTree::Array(_)) => true,
            (JsonKind::Object, JsonTree::Object(_)) => true,
            _ => false,
        },
{
    match value {
        serde_json::Value::Null => JsonKind::Null,
        serde_json::Value::Bool(b) => JsonKind::Bool(*b),
        serde_json::Value::Number(_) => JsonKind::Number,
        serde_json::Value::String(s) => JsonKind::String(s.clone()),
        serde_json::Value::Array(_) => JsonKind::Array,
        serde_json::Value::Object(_) => JsonKind::Object,
    }
}

/// The bit pattern and the decimal rendering of a number's binary64 value
/// (`serde_json::Value::as_f64`, `to_bits` and `to_string`), as the value
/// holds it: `as_f64` returns `Some` for every number unless the crate's
/// `arbitrary_precision` feature is enabled, which it is not here.
#[verifier::external_body]
fn json_number(value: &serde_json::Value) -> (r: Option<(u64, String)>)
    ensures
        json_contents(*value) is Number ==> r is Some && (r->0).0 == json_contents(*value)->Number_0
            && (r->0).1@ == json_contents(*value)->Number_1,
{
    value.as_f64().map(|x| (x.to_bits(), x.to_string()))
}

/// The item of an array at `index` (`Vec::get` on the array's items).
#[verifier::external_body]
fn json_array_item(value: &serde_json::Value, index: usize) -> (r: Option<&serde_json::Value>)
    ensures
        json_contents(*value) is Array ==> (r is Some <==> index < json_contents(*value)->Array_0.len()),
        json_contents(*value) is Array && r is Some ==> json_contents(*r->0) == json_contents(
            *value,
        )->Array_0[index as int],
{
    match value {
        serde_json::Value::Array(items) => items.get(index),
        _ => None,
    }
}

/// The member of an object at `index` in the map's iteration order, which
/// is the order of the member names (`Iterator::nth` on `serde_json::Map::iter`).
#[verifier::external_body]
fn json_object_member(value: &serde_json::Value, index: usize) -> (r: Option<(String, &serde_json::Value)>)
    ensures
        json_contents(*value) is Object ==> (r is Some <==> index < json_contents(*value)->Object_0.len()),
        json_contents(*value) is Object && r is Some ==> (r->0).0@ == json_contents(*value)->Object_0[index as int].0
            && json_contents(*(r->0).1) == json_contents(*value)->Object_0[index as int].1,
{
    match value {
        serde_json::Value::Object(map) => map.iter().nth(index).map(|(k, v)| (k.clone(), v)),
        _ => None,
    }
}

/// `v` is nested at most `depth` levels deep.
pub open spec fn nested_within(v: JsonValue, depth: nat) -> bool
    decreases depth,
{
    depth > 0 && match v {
        JsonValue::Array(items) => forall|i: int|
            0 <= i < items@.len() ==> nested_within(#[trigger] items@[i], (depth - 1) as nat),
        JsonValue::Object(members) => forall|i: int|
            0 <= i < members@.len() ==> nested_within(#[trigger] members@[i].1, (depth - 1) as nat),
        _ => true,
    }
}

/// Every array and object in `t` has fewer than `usize::MAX` entries.
pub open spec fn tree_held(t: JsonTree) -> bool
    decreases t,
{
    match t {
        JsonTree::Array(items) => items.len() < usize::MAX && forall|i: int|
            0 <= i < items.len() ==> tree_held(#[trigger] items[i]),
        JsonTree::Object(members) => members.len() < usize::MAX && forall|i: int|
            0 <= i < members.len() ==> tree_held(#[trigger] members[i].1),
        _ => true,
    }
}

/// Builds the library's view of a parsed value, at most `depth` levels deep.
fn json_tree(value: &serde_json::Value, depth: usize) -> (r: Option<JsonValue>)
    requires
        tree_held(json_contents(*value)),
    ensures
        r is Some <==> tree_within(json_contents(*value), depth as nat),
        r matches Some(t) ==> json_view(t) == json_contents(*value) && nested_within(t, depth as nat),
    decreases depth,
{
    let ghost contents = json_contents(*value);
    if depth == 0 {
        return None;
    }
    match json_kind(value) {
        JsonKind::Null => Some(JsonValue::Null),
        JsonKind::Bool(b) => Some(JsonValue::Bool(b)),
        JsonKind::Number => match json_number(value) {
            Some((bits, text)) => Some(JsonValue::Number(bits, text)),
            None => {
                proof {
                    assert(false);
                }
                None
            },
        },
        JsonKind::String(s) => Some(JsonValue::String(s)),
        JsonKind::Array => {
            let ghost all = contents->Array_0;
            let mut items: Vec<JsonValue> = Vec::new();
            let mut index: usize = 0;
            let mut more = true;
            while more
                invariant
                    depth > 0,
                    contents == json_contents(*value),
                    contents == JsonTree::Array(all),
                    tree_held(contents),
                    index <= all.len(),
                    items@.len() == index,
                    !more ==> index == all.len(),
                    trees_of(items@) == all.take(index as int),
                    forall|i: int| 0 <= i < index ==> tree_within(#[trigger] all[i], (depth - 1) as nat),
                    forall|i: int| 0 <= i < items@.len() ==> nested_within(#[trigger] items@[i], (depth - 1) as nat),
                decreases all.len() - index + if more { 1int } else { 0int },
            {
                match json_array_item(value, index) {
                    Some(item) => {
                        proof {
                            assert(tree_held(all[index as int]));
                        }
                        match json_tree(item, depth - 1) {
                            Some(t) => {
                                items.push(t);
                                proof {
                                    assert(trees_of(items@) =~= all.take(index + 1));
                                }
                            },
                            None => {
                                return None;
                            },
                        }
                        index = index + 1;
                    },
                    None => {
                        more = false;
                    },
                }
            }
            let r = JsonValue::Array(items);
            proof {
                lemma_json_view(r);
                assert(all.take(index as int) =~= all);
            }
            Some(r)
        },
        JsonKind::Object => {
            let ghost all = contents->Object_0;
            let mut members: Vec<(String, JsonValue)> = Vec::new();
            let mut index: usize = 0;
            let mut more = true;
            while more
                invariant
                    depth > 0,
                    contents == json_contents(*value),
                    contents == JsonTree::Object(all),
                    tree_held(contents),
                    index <= all.len(),
                    members@.len() == index,
                    !more ==> index == all.len(),
                    entries_view(members@) == all.take(index as int),
                    forall|i: int| 0 <= i < index ==> tree_within(#[trigger] all[i].1, (depth - 1) as nat),
                    forall|i: int| 0 <= i < members@.len() ==> nested_within(#[trigger] members@[i].1, (depth - 1) as nat),
                decreases all.len() - index + if more { 1int } else { 0int },
            {
                match json_object_member(value, index) {
                    Some((name, member)) => {
                        proof {
                            assert(tree_held(all[index as int].1));
                        }
                        match json_tree(member, depth - 1) {
                            Some(t) => {
                                members.push((name, t));
                                proof {
                                    assert(entries_view(members@) =~= all.take(index + 1));
                                }
                            },
                            None => {
                                return None;
                            },
                        }
                        index = index + 1;
                    },
                    None => {
                        more = false;
                    },
                }
            }
            let r = JsonValue::Object(members);
            proof {
                lemma_json_view(r);
                assert(all.take(index as int) =~= all);
            }
            Some(r)
        },
    }
}

/// Reads JSON text into the library's view of it: the document the text
/// parses to (see [`json_document`]), or the parser's rendering of its
/// syntax error.
pub fn read_json(input: &str) -> (r: Result<JsonValue, String>)
    ensures
        r is Ok <==> json_document(input@) is Ok,
        r matches Ok(v) ==> json_document(input@) == Ok::<JsonTree, (usize, usize, Seq<char>)>(json_view(v))
            && nested_within(v, JSON_DEPTH as nat),
        r matches Err(m) ==> (json_document(input@) matches Err(f) && m@ == f.2),
{
    match json_from_text(input) {
        Err(e) => Err(e.2),
        Ok(value) => match json_tree(&value, JSON_DEPTH) {
            Some(tree) => Ok(tree),
            None => Err(owned("document nests too deeply")),
        },
    }
}

/// Nesting levels read from a parsed document: `serde_json` refuses
/// documents nested more than 128 levels deep.
pub const JSON_DEPTH: usize = 129;

/// What reading JSON `text` gives: for text that does not parse, its one
/// syntax error, located at `$` by the parser's line and column and with
/// its rendering; otherwise the reading of
/// the document it parses to (see [`reads_contents`]).
pub open spec fn parse_outcome(source: SourceId, text: Seq<char>, r: Result<TokenDocument, ParseErrors>) -> bool {
    match json_document(text) {
        Err(f) => r matches Err(e) && e.items().len() == 1 && e.items()[0].line_of() == Some(f.0)
            && e.items()[0].column_of() == Some(f.1) && e.items()[0].message_of() == f.2
            && e.items()[0].path_of() == "$"@,
        Ok(doc) => reads_contents(source, doc, r),
    }
}

/// A parsed document carries the source identity it was parsed under.
pub proof fn lemma_parsed_source(source: SourceId, text: Seq<char>, doc: TokenDocument)
    requires
        parse_outcome(source, text, Ok(doc)),
    ensures
        doc.source_of() == source,
{
    let r = Ok::<TokenDocument, ParseErrors>(doc);
    let root = choose|root: JsonValue| json_view(root) == json_document(text)->Ok_0 && #[trigger] reads_as(source, root, r);
    assert(reads_as(source, root, r));
}

/// Parses one token JSON source into an unresolved token document.
pub fn parse(source: SourceId, input: &str) -> (r: Result<TokenDocument, ParseErrors>)
    ensures
        parse_outcome(source, input@, r),
{
    match json_from_text(input) {
        Err(e) => {
            let (line, column, message) = e;
            Err(Errors::one(ParseError::syntax(line, column, message)))
        },
        Ok(value) => match json_tree(&value, JSON_DEPTH) {
            Some(tree) => {
                let r = parse_value(source, &tree);
                assert(reads_as(source, tree, r));
                r
            },
            None => Err(Errors::one(ParseError::at(owned("$"), owned("document nests too deeply")))),
        },
    }
}

} // verus!
