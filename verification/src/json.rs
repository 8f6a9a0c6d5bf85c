//! The JSON document model: a parsed JSON value held as plain data, and the
//! overview metrics (node count and maximum depth) shown for a document.

use vstd::prelude::*;

verus! {

broadcast use vstd::std_specs::vec::axiom_vec_index_decreases;

/// A parsed JSON value.
///
/// Numbers are held as the text that the JSON reader prints for them, since
/// the inspector only ever shows numbers. Object members keep the order in
/// which the reader hands them out.
#[derive(Debug)]
pub enum JsonValue {
    Null,
    Bool(bool),
    Number(String),
    String(String),
    Array(Vec<JsonValue>),
    Object(Vec<(String, JsonValue)>),
}

/// The number of nodes of `v`, itself included.
pub open spec fn node_count(v: JsonValue) -> nat
    decreases v,
{
    match v {
        JsonValue::Array(items) => 1 + items_node_count(items@),
        JsonValue::Object(members) => 1 + members_node_count(members@),
        _ => 1,
    }
}

/// The number of nodes of all values in `s`.
pub open spec fn items_node_count(s: Seq<JsonValue>) -> nat
    decreases s,
{
    if s.len() == 0 {
        0
    } else {
        items_node_count(s.drop_last()) + node_count(s.last())
    }
}

/// The number of nodes of all member values in `s`.
pub open spec fn members_node_count(s: Seq<(String, JsonValue)>) -> nat
    decreases s,
{
    if s.len() == 0 {
        0
    } else {
        members_node_count(s.drop_last()) + node_count(s.last().1)
    }
}

/// The depth of the deepest node below `v`, counting `v` itself as depth 0.
pub open spec fn height(v: JsonValue) -> nat
    decreases v,
{
    match v {
        JsonValue::Array(items) => if items@.len() == 0 {
            0
        } else {
            1 + items_height(items@)
        },
        JsonValue::Object(members) => if members@.len() == 0 {
            0
        } else {
            1 + members_height(members@)
        },
        _ => 0,
    }
}

/// The greatest height among the values of `s` (0 when it is empty).
pub open spec fn items_height(s: Seq<JsonValue>) -> nat
    decreases s,
{
    if s.len() == 0 {
        0
    } else {
        let a = items_height(s.drop_last());
        let b = height(s.last());
        if a >= b {
            a
        } else {
            b
        }
    }
}

/// The greatest height among the member values of `s` (0 when it is empty).
pub open spec fn members_height(s: Seq<(String, JsonValue)>) -> nat
    decreases s,
{
    if s.len() == 0 {
        0
    } else {
        let a = members_height(s.drop_last());
        let b = height(s.last().1);
        if a >= b {
            a
        } else {
            b
        }
    }
}

/// A value always has more nodes than its height.
pub proof fn lemma_height_below_count(v: JsonValue)
    ensures
        height(v) < node_count(v),
    decreases v,
{
    match v {
        JsonValue::Array(items) => {
            lemma_items_height_below_count(items@);
        },
        JsonValue::Object(members) => {
            lemma_members_height_below_count(members@);
        },
        _ => {},
    }
}

proof fn lemma_items_height_below_count(s: Seq<JsonValue>)
    ensures
        items_height(s) <= items_node_count(s),
        s.len() > 0 ==> items_height(s) < items_node_count(s),
    decreases s,
{
    if s.len() > 0 {
        lemma_items_height_below_count(s.drop_last());
        lemma_height_below_count(s.last());
    }
}

proof fn lemma_members_height_below_count(s: Seq<(String, JsonValue)>)
    ensures
        members_height(s) <= members_node_count(s),
        s.len() > 0 ==> members_height(s) < members_node_count(s),
    decreases s,
{
    if s.len() > 0 {
        lemma_members_height_below_count(s.drop_last());
        lemma_height_below_count(s.last().1);
    }
}

/// Visits `value` at `depth`, adding its nodes to `nodes` and raising
/// `max_depth` to the depth of its deepest node.
fn walk(value: &JsonValue, depth: usize, nodes: &mut usize, max_depth: &mut usize)
    requires
        *old(nodes) + node_count(*value) <= usize::MAX,
        depth + height(*value) <= usize::MAX,
    ensures
        *final(nodes) == *old(nodes) + node_count(*value),
        *final(max_depth) == if *old(max_depth) >= depth + height(*value) {
            *old(max_depth) as int
        } else {
            depth + height(*value)
        },
    decreases *value,
{
    *nodes = *nodes + 1;
    if *max_depth < depth {
        *max_depth = depth;
    }
    match value {
        JsonValue::Array(items) => {
            let ghost start_nodes = *nodes;
            let ghost start_max = *max_depth;
            let mut i: usize = 0;
            while i < items.len()
                invariant
                    *value == JsonValue::Array(*items),
                    i <= items.len(),
                    *nodes == start_nodes + items_node_count(items@.take(i as int)),
                    start_nodes + items_node_count(items@) <= usize::MAX,
                    items@.len() > 0 ==> depth + 1 + items_height(items@) <= usize::MAX,
                    items@.len() > 0 ==> depth + height(*value) == depth + 1 + items_height(items@),
                    i == 0 ==> *max_depth == start_max,
                    i > 0 ==> *max_depth == if start_max >= depth + 1 + items_height(items@.take(i as int)) {
                        start_max as int
                    } else {
                        depth + 1 + items_height(items@.take(i as int))
                    },
                    start_max >= depth,
                decreases items.len() - i,
            {
                proof {
                    assert(items@.take(i + 1).drop_last() =~= items@.take(i as int));
                    assert(items@.take(i + 1).last() == items@[i as int]);
                    lemma_items_prefix(items@, i + 1);
                    assert(decreases_to!(*items => items[i as int]));
                }
                walk(&items[i], depth + 1, nodes, max_depth);
                i = i + 1;
            }
            assert(items@.take(items.len() as int) =~= items@);
        },
        JsonValue::Object(members) => {
            let ghost start_nodes = *nodes;
            let ghost start_max = *max_depth;
            let mut i: usize = 0;
            while i < members.len()
                invariant
                    *value == JsonValue::Object(*members),
                    i <= members.len(),
                    *nodes == start_nodes + members_node_count(members@.take(i as int)),
                    start_nodes + members_node_count(members@) <= usize::MAX,
                    members@.len() > 0 ==> depth + 1 + members_height(members@) <= usize::MAX,
                    members@.len() > 0 ==> depth + height(*value) == depth + 1 + members_height(members@),
                    i == 0 ==> *max_depth == start_max,
                    i > 0 ==> *max_depth == if start_max >= depth + 1 + members_height(members@.take(i as int)) {
                        start_max as int
                    } else {
                        depth + 1 + members_height(members@.take(i as int))
                    },
                    start_max >= depth,
                decreases members.len() - i,
            {
                proof {
                    assert(members@.take(i + 1).drop_last() =~= members@.take(i as int));
                    assert(members@.take(i + 1).last() == members@[i as int]);
                    lemma_members_prefix(members@, i + 1);
                    assert(decreases_to!(*members => members[i as int]));
                }
                walk(&members[i].1, depth + 1, nodes, max_depth);
                i = i + 1;
            }
            assert(members@.take(members.len() as int) =~= members@);
        },
        _ => {},
    }
}

/// Counts and heights of a prefix never exceed those of the whole sequence.
proof fn lemma_items_prefix(s: Seq<JsonValue>, k: int)
    requires
        0 <= k <= s.len(),
    ensures
        items_node_count(s.take(k)) <= items_node_count(s),
        items_height(s.take(k)) <= items_height(s),
    decreases s.len() - k,
{
    if k < s.len() {
        lemma_items_prefix(s, k + 1);
        assert(s.take(k + 1).drop_last() =~= s.take(k));
    } else {
        assert(s.take(k) =~= s);
    }
}

proof fn lemma_members_prefix(s: Seq<(String, JsonValue)>, k: int)
    requires
        0 <= k <= s.len(),
    ensures
        members_node_count(s.take(k)) <= members_node_count(s),
        members_height(s.take(k)) <= members_height(s),
    decreases s.len() - k,
{
    if k < s.len() {
        lemma_members_prefix(s, k + 1);
        assert(s.take(k + 1).drop_last() =~= s.take(k));
    } else {
        assert(s.take(k) =~= s);
    }
}

/// The node count and the maximum depth of a JSON document.
pub fn document_metrics(value: &JsonValue) -> (r: (usize, usize))
    requires
        node_count(*value) <= usize::MAX,
    ensures
        r.0 == node_count(*value),
        r.1 == height(*value),
{
    proof {
        lemma_height_below_count(*value);
    }
    let mut nodes: usize = 0;
    let mut max_depth: usize = 0;
    walk(value, 0, &mut nodes, &mut max_depth);
    (nodes, max_depth)
}

/// Each element of a sequence is at most as high as the sequence's highest.
pub proof fn lemma_items_height_ge(s: Seq<JsonValue>, i: int)
    requires
        0 <= i < s.len(),
    ensures
        height(s[i]) <= items_height(s),
    decreases s.len(),
{
    if i < s.len() - 1 {
        lemma_items_height_ge(s.drop_last(), i);
    }
}

/// Each member value is at most as high as the members' highest.
pub proof fn lemma_members_height_ge(s: Seq<(String, JsonValue)>, i: int)
    requires
        0 <= i < s.len(),
    ensures
        height(s[i].1) <= members_height(s),
    decreases s.len(),
{
    if i < s.len() - 1 {
        lemma_members_height_ge(s.drop_last(), i);
    }
}

} // verus!
