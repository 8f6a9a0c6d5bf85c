//! The rows of the structured JSON view: what each node shows (label, path,
//! type, summary), how paths and pointers are formed, and which nodes are
//! visible for the expanded containers and the search query.

use vstd::prelude::*;
use crate::json::{JsonValue, height, items_height, members_height, lemma_items_height_ge, lemma_members_height_ge};
use crate::text::{
    concat, concat3, decimal, decimal_string, has_substring, owned, string_of, chars_of,
    truncate, truncated, unicode_lowercase, to_lowercase, contains_str, str_eq,
};

verus! {

broadcast use vstd::std_specs::vec::axiom_vec_index_decreases;

// ------------------------------------------------------------------------
// What a node shows
// ------------------------------------------------------------------------

/// The type name shown for a value.
pub open spec fn value_type_name(v: JsonValue) -> Seq<char> {
    match v {
        JsonValue::Null => "Null"@,
        JsonValue::Bool(_) => "Boolean"@,
        JsonValue::Number(_) => "Number"@,
        JsonValue::String(_) => "String"@,
        JsonValue::Array(_) => "Array"@,
        JsonValue::Object(_) => "Object"@,
    }
}

/// `n` followed by the singular or the plural noun.
pub open spec fn counted(n: nat, singular: Seq<char>, plural: Seq<char>) -> Seq<char> {
    decimal(n) + if n == 1 {
        singular
    } else {
        plural
    }
}

/// The text of a boolean.
pub open spec fn bool_text(b: bool) -> Seq<char> {
    if b {
        "true"@
    } else {
        "false"@
    }
}

/// The one-line summary shown beside a node.
pub open spec fn summary_text(v: JsonValue) -> Seq<char> {
    match v {
        JsonValue::Null => "null"@,
        JsonValue::Bool(b) => bool_text(b),
        JsonValue::Number(n) => n@,
        JsonValue::String(s) => truncated(s@, 96),
        JsonValue::Array(items) => counted(items@.len(), " item"@, " items"@),
        JsonValue::Object(members) => counted(members@.len(), " key"@, " keys"@),
    }
}

/// The value shown in the inspector for a node.
pub open spec fn inspector_text(v: JsonValue) -> Seq<char> {
    match v {
        JsonValue::Null => "null"@,
        JsonValue::Bool(b) => bool_text(b),
        JsonValue::Number(n) => n@,
        JsonValue::String(s) => truncated(s@, 180),
        JsonValue::Array(items) => "Array with "@ + counted(items@.len(), " item"@, " items"@),
        JsonValue::Object(members) => "Object with "@ + counted(
            members@.len(),
            " key"@,
            " keys"@,
        ),
    }
}

/// The number of direct children of a value.
pub open spec fn children_of(v: JsonValue) -> nat {
    match v {
        JsonValue::Array(items) => items@.len(),
        JsonValue::Object(members) => members@.len(),
        _ => 0,
    }
}

/// Whether a value has children (an array or an object).
pub open spec fn container(v: JsonValue) -> bool {
    v is Array || v is Object
}

/// The type name of a value.
pub fn value_type(value: &JsonValue) -> (r: String)
    ensures
        r@ == value_type_name(*value),
{
    match value {
        JsonValue::Null => owned("Null"),
        JsonValue::Bool(_) => owned("Boolean"),
        JsonValue::Number(_) => owned("Number"),
        JsonValue::String(_) => owned("String"),
        JsonValue::Array(_) => owned("Array"),
        JsonValue::Object(_) => owned("Object"),
    }
}

fn counted_text(n: usize, singular: &str, plural: &str) -> (r: String)
    ensures
        r@ == counted(n as nat, singular@, plural@),
{
    let digits = decimal_string(n);
    if n == 1 {
        concat(digits.as_str(), singular)
    } else {
        concat(digits.as_str(), plural)
    }
}

fn bool_string(b: bool) -> (r: String)
    ensures
        r@ == bool_text(b),
{
    if b {
        owned("true")
    } else {
        owned("false")
    }
}

/// The one-line summary of a value.
pub fn value_summary(value: &JsonValue) -> (r: String)
    ensures
        r@ == summary_text(*value),
{
    match value {
        JsonValue::Null => owned("null"),
        JsonValue::Bool(b) => bool_string(*b),
        JsonValue::Number(n) => owned(n.as_str()),
        JsonValue::String(s) => truncate(s.as_str(), 96),
        JsonValue::Array(items) => counted_text(items.len(), " item", " items"),
        JsonValue::Object(members) => counted_text(members.len(), " key", " keys"),
    }
}

/// The value of a node as the inspector shows it.
pub fn inspector_value(value: &JsonValue) -> (r: String)
    ensures
        r@ == inspector_text(*value),
{
    match value {
        JsonValue::Null => owned("null"),
        JsonValue::Bool(b) => bool_string(*b),
        JsonValue::Number(n) => owned(n.as_str()),
        JsonValue::String(s) => truncate(s.as_str(), 180),
        JsonValue::Array(items) => {
            let c = counted_text(items.len(), " item", " items");
            concat("Array with ", c.as_str())
        },
        JsonValue::Object(members) => {
            let c = counted_text(members.len(), " key", " keys");
            concat("Object with ", c.as_str())
        },
    }
}

/// What `serde_json::to_string_pretty` writes for a value: its JSON text
/// with two-space indentation, one item or member per line.
pub uninterp spec fn json_pretty(v: JsonValue) -> Seq<char>;

/// Turns a `JsonValue` back into a `serde_json::Value`, variant by variant:
/// a number's text is read as a `serde_json::Number` (a text that is not
/// one is kept as a string), members in their order. Integers come back
/// exactly; a float's text is read with serde_json's default parser, which
/// is not correctly rounded for every text, so a float with many digits and
/// a large exponent can come back one unit in the last place off.
#[verifier::external_body]
fn to_serde_value(value: &JsonValue) -> serde_json::Value {
    match value {
        JsonValue::Null => serde_json::Value::Null,
        JsonValue::Bool(b) => serde_json::Value::Bool(*b),
        JsonValue::Number(text) => text.parse::<serde_json::Number>().map(
            serde_json::Value::Number,
        ).unwrap_or_else(|_| serde_json::Value::String(text.clone())),
        JsonValue::String(s) => serde_json::Value::String(s.clone()),
        JsonValue::Array(items) => serde_json::Value::Array(items.iter().map(to_serde_value).collect()),
        JsonValue::Object(members) => serde_json::Value::Object(
            members.iter().map(|(key, child)| (key.clone(), to_serde_value(child))).collect(),
        ),
    }
}

/// `serde_json::to_string_pretty` of the value (its compact `Display` text
/// should the serializer fail). The result is the name `json_pretty` of the
/// value: the pretty-printer's layout is not restated.
#[verifier::external_body]
pub(crate) fn pretty_json(value: &JsonValue) -> (r: String)
    ensures
        r@ == json_pretty(*value),
{
    let v = to_serde_value(value);
    serde_json::to_string_pretty(&v).unwrap_or_else(|_| v.to_string())
}

/// The text copied for a value: a string as it is, an array or an object
/// pretty-printed with its descendants, any other value as its JSON text.
pub open spec fn copied_text(v: JsonValue) -> Seq<char> {
    match v {
        JsonValue::String(s) => s@,
        JsonValue::Array(_) => json_pretty(v),
        JsonValue::Object(_) => json_pretty(v),
        JsonValue::Null => "null"@,
        JsonValue::Bool(b) => bool_text(b),
        JsonValue::Number(n) => n@,
    }
}

/// The text put on the clipboard when a value is copied.
pub fn copyable_value(value: &JsonValue) -> (r: String)
    ensures
        r@ == copied_text(*value),
{
    match value {
        JsonValue::String(s) => owned(s.as_str()),
        JsonValue::Array(_) => pretty_json(value),
        JsonValue::Object(_) => pretty_json(value),
        JsonValue::Null => owned("null"),
        JsonValue::Bool(b) => bool_string(*b),
        JsonValue::Number(n) => owned(n.as_str()),
    }
}

/// The number of direct children of a value.
pub fn child_count(value: &JsonValue) -> (r: usize)
    ensures
        r == children_of(*value),
{
    match value {
        JsonValue::Array(items) => items.len(),
        JsonValue::Object(members) => members.len(),
        _ => 0,
    }
}

// ------------------------------------------------------------------------
// Paths and pointers
// ------------------------------------------------------------------------

pub open spec fn is_ascii_alpha(c: char) -> bool {
    ('a' <= c <= 'z') || ('A' <= c <= 'Z')
}

pub open spec fn is_ascii_alnum(c: char) -> bool {
    is_ascii_alpha(c) || ('0' <= c <= '9')
}

/// A key that a path can name after a dot: a letter or underscore, then
/// letters, digits and underscores.
pub open spec fn simple_identifier(s: Seq<char>) -> bool {
    &&& s.len() > 0
    &&& (s[0] == '_' || is_ascii_alpha(s[0]))
    &&& forall|i: int| 1 <= i < s.len() ==> (#[trigger] s[i] == '_' || is_ascii_alnum(s[i]))
}

/// Whether `value` is a simple identifier.
pub fn is_simple_identifier(value: &str) -> (r: bool)
    ensures
        r == simple_identifier(value@),
{
    let v = chars_of(value);
    if v.len() == 0 {
        return false;
    }
    let first = v[0];
    if !(first == '_' || ('a' <= first && first <= 'z') || ('A' <= first && first <= 'Z')) {
        return false;
    }
    let mut i: usize = 1;
    while i < v.len()
        invariant
            v@ == value@,
            1 <= i <= v.len(),
            forall|j: int| 1 <= j < i ==> (#[trigger] v@[j] == '_' || is_ascii_alnum(v@[j])),
        decreases v.len() - i,
    {
        let c = v[i];
        if !(c == '_' || ('a' <= c && c <= 'z') || ('A' <= c && c <= 'Z') || ('0' <= c && c
            <= '9')) {
            return false;
        }
        i = i + 1;
    }
    true
}

/// The lower-case hexadecimal digit for `d < 16`.
pub open spec fn hex_digit(d: nat) -> char {
    if d < 10 {
        (('0' as u32) + d) as char
    } else {
        (('a' as u32) + d - 10) as char
    }
}

/// How a character appears inside a JSON string literal: quote, backslash
/// and control characters are escaped, everything else is kept.
pub open spec fn json_escape(c: char) -> Seq<char> {
    if c == '"' {
        seq!['\\', '"']
    } else if c == '\\' {
        seq!['\\', '\\']
    } else if c == '\u{8}' {
        seq!['\\', 'b']
    } else if c == '\t' {
        seq!['\\', 't']
    } else if c == '\n' {
        seq!['\\', 'n']
    } else if c == '\u{c}' {
        seq!['\\', 'f']
    } else if c == '\r' {
        seq!['\\', 'r']
    } else if (c as u32) < 0x20 {
        seq!['\\', 'u', '0', '0', hex_digit((c as u32 / 16) as nat), hex_digit((c as u32 % 16) as nat)]
    } else {
        seq![c]
    }
}

/// The escaped characters of `s`.
pub open spec fn json_escaped(s: Seq<char>) -> Seq<char>
    decreases s.len(),
{
    if s.len() == 0 {
        Seq::empty()
    } else {
        json_escaped(s.drop_last()) + json_escape(s.last())
    }
}

/// `s` as a JSON string literal.
pub open spec fn json_quoted(s: Seq<char>) -> Seq<char> {
    seq!['"'] + json_escaped(s) + seq!['"']
}

/// `serde_json::to_string` of a string: the string as a JSON literal, in
/// double quotes, with `"`, `\` and the control characters below U+0020
/// escaped (`\b \t \n \f \r`, others as `\u00xx` in lower-case hex).
/// Serialising a `str` into memory does not fail: the writer is a `Vec`.
#[verifier::external_body]
fn json_string_literal(s: &str) -> (r: Option<String>)
    ensures
        r is Some,
        r.unwrap()@ == json_quoted(s@),
{
    serde_json::to_string(s).ok()
}

/// The display path of the member `key` of the value at `parent`: a dot for
/// simple identifiers, otherwise the key as a JSON string in brackets.
pub open spec fn member_path(parent: Seq<char>, key: Seq<char>) -> Seq<char> {
    if simple_identifier(key) {
        parent + "."@ + key
    } else {
        parent + "["@ + json_quoted(key) + "]"@
    }
}

/// The display path of a member of the value at `parent`.
pub fn json_path_for_key(parent: &str, key: &str) -> (r: String)
    ensures
        r@ == member_path(parent@, key@),
{
    if is_simple_identifier(key) {
        concat3(parent, ".", key)
    } else {
        let quoted = match json_string_literal(key) {
            Some(q) => q,
            None => concat3("\"", key, "\""),
        };
        let head = concat3(parent, "[", quoted.as_str());
        concat(head.as_str(), "]")
    }
}

/// How a character appears in a JSON pointer token: `~` as `~0`, `/` as
/// `~1`, everything else as itself.
pub open spec fn pointer_escape_char(c: char) -> Seq<char> {
    if c == '~' {
        seq!['~', '0']
    } else if c == '/' {
        seq!['~', '1']
    } else {
        seq![c]
    }
}

/// A key escaped as a JSON pointer token.
pub open spec fn pointer_escaped(s: Seq<char>) -> Seq<char>
    decreases s.len(),
{
    if s.len() == 0 {
        Seq::empty()
    } else {
        pointer_escaped(s.drop_last()) + pointer_escape_char(s.last())
    }
}

/// Escapes a key for use as a JSON pointer token.
pub fn pointer_escape(value: &str) -> (r: String)
    ensures
        r@ == pointer_escaped(value@),
{
    let v = chars_of(value);
    let mut out: Vec<char> = Vec::new();
    let mut i: usize = 0;
    while i < v.len()
        invariant
            v@ == value@,
            i <= v.len(),
            out@ == pointer_escaped(v@.take(i as int)),
        decreases v.len() - i,
    {
        assert(v@.take(i + 1).drop_last() =~= v@.take(i as int));
        let c = v[i];
        if c == '~' {
            out.push('~');
            out.push('0');
        } else if c == '/' {
            out.push('~');
            out.push('1');
        } else {
            out.push(c);
        }
        i = i + 1;
    }
    assert(v@.take(v.len() as int) =~= v@);
    string_of(&out)
}

// ------------------------------------------------------------------------
// Visible nodes
// ------------------------------------------------------------------------

/// One row of the structured view.
#[derive(Debug, Clone)]
pub struct VisibleNode {
    pub label: String,
    pub display_path: String,
    pub pointer: String,
    pub node_type: String,
    pub summary: String,
    pub child_count: usize,
    pub depth: usize,
    pub is_container: bool,
}

/// The content of a row, as text and numbers.
pub struct NodeView {
    pub label: Seq<char>,
    pub display_path: Seq<char>,
    pub pointer: Seq<char>,
    pub node_type: Seq<char>,
    pub summary: Seq<char>,
    pub child_count: nat,
    pub depth: nat,
    pub is_container: bool,
}

impl VisibleNode {
    pub open spec fn model(&self) -> NodeView {
        NodeView {
            label: self.label@,
            display_path: self.display_path@,
            pointer: self.pointer@,
            node_type: self.node_type@,
            summary: self.summary@,
            child_count: self.child_count as nat,
            depth: self.depth as nat,
            is_container: self.is_container,
        }
    }
}

/// The contents of a list of rows.
pub open spec fn models(s: Seq<VisibleNode>) -> Seq<NodeView> {
    s.map_values(|n: VisibleNode| n.model())
}

/// The row for the value `v` reached under `label`, `path` and `pointer`.
pub open spec fn node_view(
    label: Seq<char>,
    path: Seq<char>,
    pointer: Seq<char>,
    v: JsonValue,
    depth: nat,
) -> NodeView {
    NodeView {
        label,
        display_path: path,
        pointer,
        node_type: value_type_name(v),
        summary: summary_text(v),
        child_count: children_of(v),
        depth,
        is_container: container(v),
    }
}

/// Describes one node of the tree.
pub fn node_info(label: &str, display_path: &str, pointer: &str, value: &JsonValue, depth: usize) -> (r:
    VisibleNode)
    ensures
        r.model() == node_view(label@, display_path@, pointer@, *value, depth as nat),
{
    VisibleNode {
        label: owned(label),
        display_path: owned(display_path),
        pointer: owned(pointer),
        node_type: value_type(value),
        summary: value_summary(value),
        child_count: child_count(value),
        depth,
        is_container: match value {
            JsonValue::Array(_) | JsonValue::Object(_) => true,
            _ => false,
        },
    }
}

/// Whether a row is shown for the (lower-case) search `query`: always for
/// an empty query, otherwise when its label, path, type or summary contains
/// the query once lower-cased.
pub open spec fn node_matches(n: NodeView, query: Seq<char>) -> bool {
    ||| query.len() == 0
    ||| has_substring(unicode_lowercase(n.label), query)
    ||| has_substring(unicode_lowercase(n.display_path), query)
    ||| has_substring(unicode_lowercase(n.node_type), query)
    ||| has_substring(unicode_lowercase(n.summary), query)
}

/// What the search looks at: with a non-empty query a row is shown exactly
/// when its label, its display path, its type name or its summary,
/// lower-cased, contains the query; with an empty query every row is.
pub proof fn law_search_looks_at_every_field(n: NodeView, query: Seq<char>)
    ensures
        query.len() == 0 ==> node_matches(n, query),
        has_substring(unicode_lowercase(n.label), query) ==> node_matches(n, query),
        has_substring(unicode_lowercase(n.display_path), query) ==> node_matches(n, query),
        has_substring(unicode_lowercase(n.node_type), query) ==> node_matches(n, query),
        has_substring(unicode_lowercase(n.summary), query) ==> node_matches(n, query),
        node_matches(n, query) && query.len() > 0 ==> {
            ||| has_substring(unicode_lowercase(n.label), query)
            ||| has_substring(unicode_lowercase(n.display_path), query)
            ||| has_substring(unicode_lowercase(n.node_type), query)
            ||| has_substring(unicode_lowercase(n.summary), query)
        },
{
}

/// A value whose display path, lower-cased, contains the query heads its
/// own list of rows, expanded or not.
pub proof fn law_matching_path_is_listed(
    v: JsonValue,
    label: Seq<char>,
    path: Seq<char>,
    pointer: Seq<char>,
    depth: nat,
    expanded: Seq<Seq<char>>,
    query: Seq<char>,
)
    requires
        has_substring(unicode_lowercase(path), query),
    ensures
        visible_from(v, label, path, pointer, depth, expanded, query).len() > 0,
        visible_from(v, label, path, pointer, depth, expanded, query)[0] == node_view(
            label,
            path,
            pointer,
            v,
            depth,
        ),
{
}

/// While searching, every container is opened: its children's rows are
/// listed whether or not it is expanded.
pub proof fn law_search_opens_every_container(
    pointer: Seq<char>,
    expanded: Seq<Seq<char>>,
    query: Seq<char>,
)
    requires
        query.len() > 0,
    ensures
        descends(pointer, expanded, query),
{
}

/// The label of array element `i`.
pub open spec fn index_label(i: nat) -> Seq<char> {
    "["@ + decimal(i) + "]"@
}

/// The pointer of the child reached by `token` below `pointer`.
pub open spec fn child_pointer(pointer: Seq<char>, token: Seq<char>) -> Seq<char> {
    pointer + "/"@ + token
}

/// Whether the children of the node at `pointer` are listed: while
/// searching all are, otherwise those of expanded containers.
pub open spec fn descends(pointer: Seq<char>, expanded: Seq<Seq<char>>, query: Seq<char>) -> bool {
    query.len() > 0 || expanded.contains(pointer)
}

/// The rows shown for `v` and, where it is opened, its descendants, in
/// document order.
pub open spec fn visible_from(
    v: JsonValue,
    label: Seq<char>,
    path: Seq<char>,
    pointer: Seq<char>,
    depth: nat,
    expanded: Seq<Seq<char>>,
    query: Seq<char>,
) -> Seq<NodeView>
    decreases v,
{
    let node = node_view(label, path, pointer, v, depth);
    let own = if node_matches(node, query) {
        seq![node]
    } else {
        Seq::empty()
    };
    own + if descends(pointer, expanded, query) {
        match v {
            JsonValue::Array(items) => items_visible(
                items@,
                path,
                pointer,
                depth + 1,
                expanded,
                query,
            ),
            JsonValue::Object(members) => members_visible(
                members@,
                path,
                pointer,
                depth + 1,
                expanded,
                query,
            ),
            _ => Seq::empty(),
        }
    } else {
        Seq::empty()
    }
}

/// The rows of the array elements `items` (at `depth`) of the array at
/// `path` / `pointer`.
pub open spec fn items_visible(
    items: Seq<JsonValue>,
    path: Seq<char>,
    pointer: Seq<char>,
    depth: nat,
    expanded: Seq<Seq<char>>,
    query: Seq<char>,
) -> Seq<NodeView>
    decreases items,
{
    if items.len() == 0 {
        Seq::empty()
    } else {
        let i = (items.len() - 1) as nat;
        items_visible(items.drop_last(), path, pointer, depth, expanded, query) + visible_from(
            items.last(),
            index_label(i),
            path + index_label(i),
            child_pointer(pointer, decimal(i)),
            depth,
            expanded,
            query,
        )
    }
}

/// The rows of the object members `members` (at `depth`) of the object at
/// `path` / `pointer`.
pub open spec fn members_visible(
    members: Seq<(String, JsonValue)>,
    path: Seq<char>,
    pointer: Seq<char>,
    depth: nat,
    expanded: Seq<Seq<char>>,
    query: Seq<char>,
) -> Seq<NodeView>
    decreases members,
{
    if members.len() == 0 {
        Seq::empty()
    } else {
        let (key, value) = members.last();
        members_visible(members.drop_last(), path, pointer, depth, expanded, query) + visible_from(
            value,
            key@,
            member_path(path, key@),
            child_pointer(pointer, pointer_escaped(key@)),
            depth,
            expanded,
            query,
        )
    }
}

/// Whether `set` holds `key`.
fn holds_key(set: &[String], key: &str) -> (r: bool)
    ensures
        r == set.deep_view().contains(key@),
{
    let mut i: usize = 0;
    while i < set.len()
        invariant
            i <= set.len(),
            forall|j: int| 0 <= j < i ==> (#[trigger] set.deep_view()[j]) != key@,
        decreases set.len() - i,
    {
        assert(set.deep_view()[i as int] == set@[i as int]@);
        if str_eq(set[i].as_str(), key) {
            assert(set.deep_view()[i as int] == key@);
            return true;
        }
        i = i + 1;
    }
    false
}

fn field_matches(field: &str, query: &str) -> (r: bool)
    ensures
        r == has_substring(unicode_lowercase(field@), query@),
{
    let lowered = to_lowercase(field);
    contains_str(lowered.as_str(), query)
}

fn row_matches(node: &VisibleNode, query: &str) -> (r: bool)
    ensures
        r == node_matches(node.model(), query@),
{
    if query.unicode_len() == 0 {
        return true;
    }
    field_matches(node.label.as_str(), query) || field_matches(node.display_path.as_str(), query)
        || field_matches(node.node_type.as_str(), query) || field_matches(
        node.summary.as_str(),
        query,
    )
}

/// Appends to `out` the rows for `value` and its opened descendants.
pub fn collect_node(
    value: &JsonValue,
    label: String,
    display_path: String,
    pointer: String,
    depth: usize,
    expanded: &[String],
    query: &str,
    out: &mut Vec<VisibleNode>,
)
    requires
        depth + height(*value) <= usize::MAX,
    ensures
        models(final(out)@) == models(old(out)@) + visible_from(
            *value,
            label@,
            display_path@,
            pointer@,
            depth as nat,
            expanded.deep_view(),
            query@,
        ),
    decreases *value,
{
    let ghost start = models(out@);
    let node = node_info(label.as_str(), display_path.as_str(), pointer.as_str(), value, depth);
    let ghost nv = node.model();
    let matched = row_matches(&node, query);
    if matched {
        out.push(node);
    }
    let ghost own: Seq<NodeView> = if matched {
        seq![nv]
    } else {
        Seq::empty()
    };
    assert(models(out@) =~= start + own);
    let open = query.unicode_len() > 0 || holds_key(expanded, pointer.as_str());
    assert(open == descends(pointer@, expanded.deep_view(), query@));
    if !open {
        assert(models(out@) =~= start + visible_from(
            *value,
            label@,
            display_path@,
            pointer@,
            depth as nat,
            expanded.deep_view(),
            query@,
        ));
        return;
    }
    match value {
        JsonValue::Array(items) => {
            let mut i: usize = 0;
            while i < items.len()
                invariant
                    *value == JsonValue::Array(*items),
                    i <= items.len(),
                    items@.len() > 0 ==> depth + 1 + items_height(items@) <= usize::MAX,
                    models(out@) == start + own + items_visible(
                        items@.take(i as int),
                        display_path@,
                        pointer@,
                        (depth + 1) as nat,
                        expanded.deep_view(),
                        query@,
                    ),
                decreases items.len() - i,
            {
                proof {
                    lemma_items_height_ge(items@, i as int);
                    assert(items@.take(i + 1).drop_last() =~= items@.take(i as int));
                    assert(items@.take(i + 1).last() == items@[i as int]);
                    assert(value->Array_0 == *items);
                    assert(decreases_to!(*value => value->Array_0));
                    assert(decreases_to!(*items => items[i as int]));
                }
                let index = decimal_string(i);
                let child_label = concat3("[", index.as_str(), "]");
                let child_path = concat(display_path.as_str(), child_label.as_str());
                let child_pointer = concat3(pointer.as_str(), "/", index.as_str());
                let ghost before = models(out@);
                collect_node(
                    &items[i],
                    child_label,
                    child_path,
                    child_pointer,
                    depth + 1,
                    expanded,
                    query,
                    out,
                );
                assert(models(out@) =~= start + own + items_visible(
                    items@.take(i + 1),
                    display_path@,
                    pointer@,
                    (depth + 1) as nat,
                    expanded.deep_view(),
                    query@,
                ));
                i = i + 1;
            }
            assert(items@.take(items.len() as int) =~= items@);
        },
        JsonValue::Object(members) => {
            let mut i: usize = 0;
            while i < members.len()
                invariant
                    *value == JsonValue::Object(*members),
                    i <= members.len(),
                    members@.len() > 0 ==> depth + 1 + members_height(members@) <= usize::MAX,
                    models(out@) == start + own + members_visible(
                        members@.take(i as int),
                        display_path@,
                        pointer@,
                        (depth + 1) as nat,
                        expanded.deep_view(),
                        query@,
                    ),
                decreases members.len() - i,
            {
                proof {
                    lemma_members_height_ge(members@, i as int);
                    assert(members@.take(i + 1).drop_last() =~= members@.take(i as int));
                    assert(members@.take(i + 1).last() == members@[i as int]);
                    assert(value->Object_0 == *members);
                    assert(decreases_to!(*value => value->Object_0));
                    assert(decreases_to!(*members => members[i as int]));
                }
                let key = &members[i].0;
                let child_path = json_path_for_key(display_path.as_str(), key.as_str());
                let token = pointer_escape(key.as_str());
                let child_pointer = concat3(pointer.as_str(), "/", token.as_str());
                collect_node(
                    &members[i].1,
                    owned(key.as_str()),
                    child_path,
                    child_pointer,
                    depth + 1,
                    expanded,
                    query,
                    out,
                );
                assert(models(out@) =~= start + own + members_visible(
                    members@.take(i + 1),
                    display_path@,
                    pointer@,
                    (depth + 1) as nat,
                    expanded.deep_view(),
                    query@,
                ));
                i = i + 1;
            }
            assert(members@.take(members.len() as int) =~= members@);
        },
        _ => {},
    }
}

/// The rows of the structured view of `root` for the expanded pointers and
/// the (lower-case) search query: the root is labelled `Root` at path `$`
/// and pointer `""`.
pub fn collect_visible_nodes(root: &JsonValue, expanded: &[String], query: &str) -> (r: Vec<
    VisibleNode,
>)
    requires
        height(*root) <= usize::MAX,
    ensures
        models(r@) == visible_from(
            *root,
            "Root"@,
            "$"@,
            ""@,
            0,
            expanded.deep_view(),
            query@,
        ),
{
    let mut nodes: Vec<VisibleNode> = Vec::new();
    assert(models(nodes@) =~= Seq::empty());
    collect_node(root, owned("Root"), owned("$"), owned(""), 0, expanded, query, &mut nodes);
    assert(models(nodes@) =~= visible_from(
        *root,
        "Root"@,
        "$"@,
        ""@,
        0,
        expanded.deep_view(),
        query@,
    ));
    nodes
}

} // verus!
