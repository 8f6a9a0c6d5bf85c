//! JSON pointers (RFC 6901): looking up the value that a pointer such as
//! `/items/0/name` addresses, with `~1` standing for `/` and `~0` for `~`
//! inside a token.

use vstd::prelude::*;
use crate::json::JsonValue;
use crate::text::{chars_of, decimal, digit_char};
use crate::tree::{
    NodeView, child_pointer, children_of, container, index_label, items_visible, member_path,
    members_visible, pointer_escape_char, pointer_escaped, summary_text, value_type_name,
    visible_from,
};

verus! {

broadcast use vstd::std_specs::vec::axiom_vec_index_decreases;

// ------------------------------------------------------------------------
// Splitting a pointer into tokens
// ------------------------------------------------------------------------

/// The index of the last `/` in `s`, or -1.
pub open spec fn last_slash(s: Seq<char>) -> int
    decreases s.len(),
{
    if s.len() == 0 {
        -1
    } else if s.last() == '/' {
        s.len() - 1
    } else {
        last_slash(s.drop_last())
    }
}

/// `s` split at every `/` (as `str::split('/')` gives it).
pub open spec fn split_slash(s: Seq<char>) -> Seq<Seq<char>>
    decreases s.len(),
{
    let i = last_slash(s);
    if i < 0 {
        seq![s]
    } else {
        proof {
            lemma_last_slash_bounds(s);
        }
        split_slash(s.take(i)) + seq![s.skip(i + 1)]
    }
}

pub proof fn lemma_last_slash_bounds(s: Seq<char>)
    ensures
        -1 <= last_slash(s) < s.len(),
        last_slash(s) >= 0 ==> s[last_slash(s)] == '/',
        forall|j: int| last_slash(s) < j < s.len() ==> s[j] != '/',
    decreases s.len(),
{
    if s.len() > 0 && s.last() != '/' {
        lemma_last_slash_bounds(s.drop_last());
        assert forall|j: int| last_slash(s) < j < s.len() implies s[j] != '/' by {
            if j < s.len() - 1 {
                assert(s[j] == s.drop_last()[j]);
            }
        }
    }
}

/// Appending `/` and a token without `/` appends that token.
pub proof fn lemma_split_append(s: Seq<char>, t: Seq<char>)
    requires
        forall|j: int| 0 <= j < t.len() ==> t[j] != '/',
    ensures
        split_slash(s + seq!['/'] + t) == split_slash(s) + seq![t],
{
    let u = s + seq!['/'] + t;
    lemma_last_slash_is(u, s.len() as int);
    assert(u.take(s.len() as int) =~= s);
    assert(u.skip(s.len() as int + 1) =~= t);
}

proof fn lemma_last_slash_is(u: Seq<char>, k: int)
    requires
        0 <= k < u.len(),
        u[k] == '/',
        forall|j: int| k < j < u.len() ==> u[j] != '/',
    ensures
        last_slash(u) == k,
    decreases u.len(),
{
    if u.last() != '/' {
        assert forall|j: int| k < j < u.drop_last().len() implies u.drop_last()[j] != '/' by {
            assert(u.drop_last()[j] == u[j]);
        }
        lemma_last_slash_is(u.drop_last(), k);
    }
}

/// A token without `/` is split into itself.
pub proof fn lemma_split_single(t: Seq<char>)
    requires
        forall|j: int| 0 <= j < t.len() ==> t[j] != '/',
    ensures
        split_slash(t) == seq![t],
{
    lemma_last_slash_bounds(t);
    if last_slash(t) >= 0 {
        assert(t[last_slash(t)] == '/');
    }
}

/// Splits `s[..end]` at every `/`.
fn split_upto(s: &Vec<char>, end: usize) -> (r: Vec<Vec<char>>)
    requires
        end <= s.len(),
    ensures
        r.deep_view() == split_slash(s@.take(end as int)),
    decreases end,
{
    let ghost t = s@.take(end as int);
    let mut i: usize = end;
    while i > 0 && s[i - 1] != '/'
        invariant
            i <= end <= s.len(),
            forall|j: int| i <= j < end ==> s@[j] != '/',
        decreases i,
    {
        i = i - 1;
    }
    let mut segment: Vec<char> = Vec::new();
    let mut k: usize = i;
    while k < end
        invariant
            i <= k <= end <= s.len(),
            segment@ == s@.subrange(i as int, k as int),
        decreases end - k,
    {
        segment.push(s[k]);
        k = k + 1;
    }
    if i == 0 {
        proof {
            assert forall|j: int| 0 <= j < t.len() implies t[j] != '/' by {
                assert(t[j] == s@[j]);
            }
            lemma_split_single(t);
            assert(segment@ =~= t);
        }
        let mut r: Vec<Vec<char>> = Vec::new();
        assert(segment.deep_view() =~= segment@);
        r.push(segment);
        assert(r.deep_view()[0] == t);
        assert(r.deep_view() =~= seq![t]);
        r
    } else {
        proof {
            assert(t[i - 1] == '/');
            lemma_last_slash_is(t, i - 1);
            assert(t.take(i - 1) =~= s@.take(i - 1));
            assert(t.skip(i as int) =~= segment@);
        }
        let mut r = split_upto(s, i - 1);
        let ghost before = r.deep_view();
        assert(segment.deep_view() =~= segment@);
        r.push(segment);
        assert(r.deep_view() =~= before + seq![segment@]);
        r
    }
}

// ------------------------------------------------------------------------
// Unescaping tokens
// ------------------------------------------------------------------------

/// `str::replace` of the two-character pattern `a b` by `c`: matches are
/// taken from the left and do not overlap.
pub open spec fn replace_pair(s: Seq<char>, a: char, b: char, c: char) -> Seq<char>
    decreases s.len(),
{
    if s.len() == 0 {
        Seq::empty()
    } else if s.len() >= 2 && s[0] == a && s[1] == b {
        seq![c] + replace_pair(s.skip(2), a, b, c)
    } else {
        seq![s[0]] + replace_pair(s.drop_first(), a, b, c)
    }
}

/// A pointer token decoded: `~1` becomes `/`, then `~0` becomes `~`.
pub open spec fn unescape_token(t: Seq<char>) -> Seq<char> {
    replace_pair(replace_pair(t, '~', '1', '/'), '~', '0', '~')
}

fn replace_pair_exec(s: &Vec<char>, a: char, b: char, c: char) -> (r: Vec<char>)
    ensures
        r@ == replace_pair(s@, a, b, c),
{
    let mut out: Vec<char> = Vec::new();
    let mut i: usize = 0;
    assert(s@.skip(0) =~= s@);
    assert(out@ + replace_pair(s@, a, b, c) =~= replace_pair(s@, a, b, c));
    while i < s.len()
        invariant
            i <= s.len(),
            out@ + replace_pair(s@.skip(i as int), a, b, c) == replace_pair(s@, a, b, c),
        decreases s.len() - i,
    {
        let ghost rest = s@.skip(i as int);
        if i + 1 < s.len() && s[i] == a && s[i + 1] == b {
            assert(rest[0] == s@[i as int] && rest[1] == s@[i + 1]);
            assert(rest.skip(2) =~= s@.skip(i + 2));
            out.push(c);
            i = i + 2;
        } else {
            assert(rest[0] == s@[i as int]);
            assert(rest.drop_first() =~= s@.skip(i + 1));
            proof {
                if rest.len() >= 2 {
                    assert(rest[1] == s@[i + 1]);
                }
            }
            out.push(s[i]);
            i = i + 1;
        }
    }
    assert(s@.skip(s.len() as int) =~= Seq::<char>::empty());
    assert(out@ + Seq::<char>::empty() =~= out@);
    out
}

// ------------------------------------------------------------------------
// Array indices
// ------------------------------------------------------------------------

/// The number written by a string of decimal digits.
pub open spec fn digits_value(s: Seq<char>) -> nat
    decreases s.len(),
{
    if s.len() == 0 {
        0
    } else {
        digits_value(s.drop_last()) * 10 + ((s.last() as u32) - ('0' as u32)) as nat
    }
}

pub open spec fn all_digit_chars(s: Seq<char>) -> bool {
    forall|i: int| 0 <= i < s.len() ==> '0' <= #[trigger] s[i] <= '9'
}

/// The array index a token names: decimal digits without a sign, without
/// leading zeros (but `0` itself), within `usize`.
pub open spec fn token_index(t: Seq<char>) -> Option<nat> {
    if t.len() > 0 && t[0] == '+' {
        None
    } else if t.len() > 0 && t[0] == '0' && t.len() != 1 {
        None
    } else if t.len() > 0 && all_digit_chars(t) && digits_value(t) <= usize::MAX {
        Some(digits_value(t))
    } else {
        None
    }
}

fn parse_index(t: &Vec<char>) -> (r: Option<usize>)
    ensures
        match r {
            Some(i) => token_index(t@) == Some(i as nat),
            None => token_index(t@) is None,
        },
{
    if t.len() == 0 {
        return None;
    }
    if t[0] == '+' || (t[0] == '0' && t.len() != 1) {
        return None;
    }
    let mut value: usize = 0;
    let mut i: usize = 0;
    while i < t.len()
        invariant
            i <= t.len(),
            t.len() > 0,
            all_digit_chars(t@.take(i as int)),
            value == digits_value(t@.take(i as int)),
        decreases t.len() - i,
    {
        let c = t[i];
        assert(t@.take(i + 1).drop_last() =~= t@.take(i as int));
        if !('0' <= c && c <= '9') {
            assert(!all_digit_chars(t@));
            return None;
        }
        let d = (c as u32) - ('0' as u32);
        assert(t@.take(i + 1).last() == c);
        if value > (usize::MAX - d as usize) / 10 {
            proof {
                if all_digit_chars(t@) {
                    lemma_digits_value_prefix(t@, i + 1);
                }
                assert(digits_value(t@.take(i + 1)) == value * 10 + d);
                assert(value * 10 + d > usize::MAX) by (nonlinear_arith)
                    requires
                        value > (usize::MAX - d) / 10,
                        d < 10,
                ;
            }
            return None;
        }
        value = value * 10 + d as usize;
        i = i + 1;
    }
    assert(t@.take(t.len() as int) =~= t@);
    Some(value)
}

proof fn lemma_digits_value_prefix(t: Seq<char>, k: int)
    requires
        0 <= k <= t.len(),
        all_digit_chars(t),
    ensures
        digits_value(t.take(k)) <= digits_value(t),
    decreases t.len() - k,
{
    if k < t.len() {
        lemma_digits_value_prefix(t, k + 1);
        assert(t.take(k + 1).drop_last() =~= t.take(k));
        assert(t.take(k + 1).last() == t[k]);
    } else {
        assert(t.take(k) =~= t);
    }
}

// ------------------------------------------------------------------------
// Lookup
// ------------------------------------------------------------------------

/// The value of the first member named `key`.
pub open spec fn member_named(s: Seq<(String, JsonValue)>, key: Seq<char>) -> Option<JsonValue>
    decreases s.len(),
{
    if s.len() == 0 {
        None
    } else if s[0].0@ == key {
        Some(s[0].1)
    } else {
        member_named(s.drop_first(), key)
    }
}

/// The child that one token addresses: a member by name, an element by
/// index; scalars have none.
pub open spec fn step(v: JsonValue, token: Seq<char>) -> Option<JsonValue> {
    match v {
        JsonValue::Object(members) => member_named(members@, token),
        JsonValue::Array(items) => match token_index(token) {
            Some(i) => if i < items@.len() {
                Some(items@[i as int])
            } else {
                None
            },
            None => None,
        },
        _ => None,
    }
}

/// The value reached from `v` by following the tokens in order.
pub open spec fn follow(v: JsonValue, tokens: Seq<Seq<char>>) -> Option<JsonValue>
    decreases tokens.len(),
{
    if tokens.len() == 0 {
        Some(v)
    } else {
        match step(v, tokens[0]) {
            Some(w) => follow(w, tokens.drop_first()),
            None => None,
        }
    }
}

/// The value that `pointer` addresses in `v`: `""` is `v` itself; other
/// pointers start with `/` and list the tokens to follow.
pub open spec fn resolve(v: JsonValue, pointer: Seq<char>) -> Option<JsonValue> {
    if pointer.len() == 0 {
        Some(v)
    } else if pointer[0] != '/' {
        None
    } else {
        follow(v, pointer_tokens(pointer.drop_first()))
    }
}

/// The decoded tokens of the pointer text after its leading `/`.
pub open spec fn pointer_tokens(body: Seq<char>) -> Seq<Seq<char>> {
    split_slash(body).map_values(|t: Seq<char>| unescape_token(t))
}

fn find_member<'a>(members: &'a Vec<(String, JsonValue)>, key: &Vec<char>) -> (r: Option<
    &'a JsonValue,
>)
    ensures
        match r {
            Some(w) => member_named(members@, key@) == Some(*w),
            None => member_named(members@, key@) is None,
        },
{
    let mut i: usize = 0;
    assert(members@.skip(0) =~= members@);
    while i < members.len()
        invariant
            i <= members.len(),
            member_named(members@, key@) == member_named(members@.skip(i as int), key@),
        decreases members.len() - i,
    {
        let ghost rest = members@.skip(i as int);
        assert(rest[0] == members@[i as int]);
        let name = chars_of(members[i].0.as_str());
        if crate::pointer::chars_equal(&name, key) {
            return Some(&members[i].1);
        }
        assert(rest.drop_first() =~= members@.skip(i + 1));
        i = i + 1;
    }
    None
}

fn chars_equal(a: &Vec<char>, b: &Vec<char>) -> (r: bool)
    ensures
        r == (a@ == b@),
{
    if a.len() != b.len() {
        return false;
    }
    let mut i: usize = 0;
    while i < a.len()
        invariant
            a.len() == b.len(),
            i <= a.len(),
            forall|j: int| 0 <= j < i ==> a@[j] == b@[j],
        decreases a.len() - i,
    {
        if a[i] != b[i] {
            return false;
        }
        i = i + 1;
    }
    assert(a@ =~= b@);
    true
}

fn step_exec<'a>(v: &'a JsonValue, token: &Vec<char>) -> (r: Option<&'a JsonValue>)
    ensures
        match r {
            Some(w) => step(*v, token@) == Some(*w),
            None => step(*v, token@) is None,
        },
{
    match v {
        JsonValue::Object(members) => find_member(members, token),
        JsonValue::Array(items) => match parse_index(token) {
            Some(i) => if i < items.len() {
                Some(&items[i])
            } else {
                None
            },
            None => None,
        },
        _ => None,
    }
}

impl JsonValue {
    /// The value that a JSON pointer addresses in this value, if any.
    pub fn pointer(&self, pointer: &str) -> (r: Option<&JsonValue>)
        ensures
            match r {
                Some(w) => resolve(*self, pointer@) == Some(*w),
                None => resolve(*self, pointer@) is None,
            },
    {
        let p = chars_of(pointer);
        if p.len() == 0 {
            return Some(self);
        }
        if p[0] != '/' {
            return None;
        }
        let mut body: Vec<char> = Vec::new();
        let mut k: usize = 1;
        while k < p.len()
            invariant
                1 <= k <= p.len(),
                body@ == p@.subrange(1, k as int),
            decreases p.len() - k,
        {
            body.push(p[k]);
            k = k + 1;
        }
        assert(body@ =~= p@.drop_first());
        assert(p@ == pointer@);
        let raw_tokens = split_upto(&body, body.len());
        assert(body@.take(body.len() as int) =~= body@);
        let ghost tokens = pointer_tokens(body@);
        let mut target: &JsonValue = self;
        let mut i: usize = 0;
        assert(tokens.skip(0) =~= tokens);
        while i < raw_tokens.len()
            invariant
                i <= raw_tokens.len(),
                tokens.len() == raw_tokens.len(),
                raw_tokens.deep_view() == split_slash(body@),
                tokens == pointer_tokens(body@),
                body@ == pointer@.drop_first(),
                pointer@.len() > 0,
                pointer@[0] == '/',
                follow(*self, tokens) == follow(*target, tokens.skip(i as int)),
            decreases raw_tokens.len() - i,
        {
            assert(raw_tokens.deep_view()[i as int] == raw_tokens@[i as int]@);
            let once = replace_pair_exec(&raw_tokens[i], '~', '1', '/');
            let token = replace_pair_exec(&once, '~', '0', '~');
            assert(token@ == tokens[i as int]);
            let ghost rest = tokens.skip(i as int);
            assert(rest[0] == tokens[i as int]);
            assert(rest.drop_first() =~= tokens.skip(i + 1));
            match step_exec(target, &token) {
                Some(next) => {
                    target = next;
                },
                None => {
                    assert(rest.len() > 0);
                    assert(follow(*target, rest) is None);
                    return None;
                },
            }
            i = i + 1;
        }
        assert(tokens.skip(tokens.len() as int) =~= Seq::<Seq<char>>::empty());
        Some(target)
    }
}

// ------------------------------------------------------------------------
// Rows resolve to the values they describe
// ------------------------------------------------------------------------

/// A value as the JSON reader produces it: object member names are unique,
/// and arrays are no longer than a `usize` can count, at every level.
pub open spec fn well_formed(v: JsonValue) -> bool
    decreases v,
{
    match v {
        JsonValue::Array(items) => items@.len() <= usize::MAX && items_well_formed(items@),
        JsonValue::Object(members) => members_well_formed(members@) && forall|i: int, j: int|
            0 <= i < j < members@.len() ==> (#[trigger] members@[i]).0@ != (
            #[trigger] members@[j]).0@,
        _ => true,
    }
}

pub open spec fn items_well_formed(s: Seq<JsonValue>) -> bool
    decreases s,
{
    s.len() == 0 || (items_well_formed(s.drop_last()) && well_formed(s.last()))
}

pub open spec fn members_well_formed(s: Seq<(String, JsonValue)>) -> bool
    decreases s,
{
    s.len() == 0 || (members_well_formed(s.drop_last()) && well_formed(s.last().1))
}

proof fn lemma_items_well_formed_at(s: Seq<JsonValue>, i: int)
    requires
        items_well_formed(s),
        0 <= i < s.len(),
    ensures
        well_formed(s[i]),
    decreases s.len(),
{
    if i < s.len() - 1 {
        lemma_items_well_formed_at(s.drop_last(), i);
    }
}

proof fn lemma_members_well_formed_at(s: Seq<(String, JsonValue)>, i: int)
    requires
        members_well_formed(s),
        0 <= i < s.len(),
    ensures
        well_formed(s[i].1),
    decreases s.len(),
{
    if i < s.len() - 1 {
        lemma_members_well_formed_at(s.drop_last(), i);
    }
}

/// A row describes the value its pointer addresses in `root`: same type,
/// summary, number of children and kind.
pub open spec fn describes(root: JsonValue, row: NodeView) -> bool {
    match resolve(root, row.pointer) {
        Some(w) => {
            &&& row.node_type == value_type_name(w)
            &&& row.summary == summary_text(w)
            &&& row.child_count == children_of(w)
            &&& row.is_container == container(w)
        },
        None => false,
    }
}

proof fn lemma_follow_append(v: JsonValue, tokens: Seq<Seq<char>>, t: Seq<char>)
    ensures
        follow(v, tokens + seq![t]) == match follow(v, tokens) {
            Some(w) => step(w, t),
            None => None,
        },
    decreases tokens.len(),
{
    if tokens.len() == 0 {
        assert(tokens + seq![t] =~= seq![t]);
        assert(seq![t].drop_first() =~= Seq::<Seq<char>>::empty());
        assert(seq![t][0] == t);
        match step(v, t) {
            Some(w) => {
                assert(follow(w, seq![t].drop_first()) == Some(w));
            },
            None => {},
        }
    } else {
        assert((tokens + seq![t]).drop_first() =~= tokens.drop_first() + seq![t]);
        assert((tokens + seq![t])[0] == tokens[0]);
        match step(v, tokens[0]) {
            Some(w) => {
                lemma_follow_append(w, tokens.drop_first(), t);
            },
            None => {},
        }
    }
}

/// Following a pointer extended by one raw token (without `/`) follows the
/// pointer, then steps by the decoded token.
proof fn lemma_resolve_child(root: JsonValue, p: Seq<char>, v: JsonValue, raw: Seq<char>)
    requires
        resolve(root, p) == Some(v),
        forall|j: int| 0 <= j < raw.len() ==> raw[j] != '/',
    ensures
        resolve(root, child_pointer(p, raw)) == step(v, unescape_token(raw)),
{
    let q = child_pointer(p, raw);
    assert("/"@ =~= seq!['/']) by {
        reveal_strlit("/");
    }
    let t = unescape_token(raw);
    if p.len() == 0 {
        assert(q =~= seq!['/'] + raw);
        assert(q.drop_first() =~= raw);
        lemma_split_single(raw);
        assert(pointer_tokens(raw) =~= seq![t]);
        assert(v == root);
        lemma_follow_append(root, Seq::empty(), t);
        assert(Seq::<Seq<char>>::empty() + seq![t] =~= seq![t]);
    } else {
        assert(p[0] == '/');
        assert(q[0] == '/');
        assert(q.drop_first() =~= p.drop_first() + seq!['/'] + raw);
        lemma_split_append(p.drop_first(), raw);
        assert(pointer_tokens(q.drop_first()) =~= pointer_tokens(p.drop_first()) + seq![t]);
        lemma_follow_append(root, pointer_tokens(p.drop_first()), t);
    }
}

/// `pointer_escaped`, unfolded from the left.
proof fn lemma_escaped_cons(c: char, rest: Seq<char>)
    ensures
        pointer_escaped(seq![c] + rest) == pointer_escape_char(c) + pointer_escaped(rest),
    decreases rest.len(),
{
    if rest.len() == 0 {
        assert(seq![c] + rest =~= seq![c]);
        assert(seq![c].drop_last() =~= Seq::<char>::empty());
        assert(seq![c].last() == c);
        assert(pointer_escaped(Seq::<char>::empty()) == Seq::<char>::empty());
        assert(Seq::<char>::empty() + pointer_escape_char(c) =~= pointer_escape_char(c));
        assert(pointer_escape_char(c) + Seq::<char>::empty() =~= pointer_escape_char(c));
    } else {
        lemma_escaped_cons(c, rest.drop_last());
        assert((seq![c] + rest).drop_last() =~= seq![c] + rest.drop_last());
        assert((seq![c] + rest).last() == rest.last());
        assert(pointer_escaped(seq![c] + rest) == pointer_escaped(seq![c] + rest.drop_last())
            + pointer_escape_char(rest.last()));
        assert(pointer_escaped(rest) == pointer_escaped(rest.drop_last()) + pointer_escape_char(
            rest.last(),
        ));
        assert(pointer_escape_char(c) + pointer_escaped(rest.drop_last()) + pointer_escape_char(
            rest.last(),
        ) =~= pointer_escape_char(c) + (pointer_escaped(rest.drop_last()) + pointer_escape_char(
            rest.last(),
        )));
    }
}

/// `~` escaped as `~0`, everything else kept: what remains after the first
/// replacement of decoding.
pub open spec fn tilde_escaped(s: Seq<char>) -> Seq<char>
    decreases s.len(),
{
    if s.len() == 0 {
        Seq::empty()
    } else if s[0] == '~' {
        seq!['~', '0'] + tilde_escaped(s.drop_first())
    } else {
        seq![s[0]] + tilde_escaped(s.drop_first())
    }
}

proof fn lemma_first_replacement(k: Seq<char>)
    ensures
        replace_pair(pointer_escaped(k), '~', '1', '/') == tilde_escaped(k),
    decreases k.len(),
{
    if k.len() > 0 {
        let c = k[0];
        let rest = k.drop_first();
        assert(k =~= seq![c] + rest);
        lemma_escaped_cons(c, rest);
        lemma_first_replacement(rest);
        let x = pointer_escaped(rest);
        if c == '~' {
            let s = seq!['~', '0'] + x;
            assert(s.drop_first() =~= seq!['0'] + x);
            assert((seq!['0'] + x).drop_first() =~= x);
            assert(replace_pair(seq!['0'] + x, '~', '1', '/') =~= seq!['0'] + replace_pair(
                x,
                '~',
                '1',
                '/',
            ));
        } else if c == '/' {
            let s = seq!['~', '1'] + x;
            assert(s.skip(2) =~= x);
        } else {
            let s = seq![c] + x;
            assert(s.drop_first() =~= x);
        }
    }
}

proof fn lemma_second_replacement(k: Seq<char>)
    ensures
        replace_pair(tilde_escaped(k), '~', '0', '~') == k,
    decreases k.len(),
{
    if k.len() > 0 {
        let c = k[0];
        let rest = k.drop_first();
        lemma_second_replacement(rest);
        let y = tilde_escaped(rest);
        if c == '~' {
            let s = seq!['~', '0'] + y;
            assert(s.skip(2) =~= y);
        } else {
            let s = seq![c] + y;
            assert(s.drop_first() =~= y);
        }
        assert(k =~= seq![c] + rest);
    }
}

/// Decoding an escaped key gives back the key.
pub proof fn lemma_unescape_escaped(k: Seq<char>)
    ensures
        unescape_token(pointer_escaped(k)) == k,
{
    lemma_first_replacement(k);
    lemma_second_replacement(k);
}

/// An escaped key holds no `/`.
proof fn lemma_escaped_no_slash(k: Seq<char>)
    ensures
        forall|j: int| 0 <= j < pointer_escaped(k).len() ==> pointer_escaped(k)[j] != '/',
    decreases k.len(),
{
    if k.len() > 0 {
        lemma_escaped_no_slash(k.drop_last());
        let a = pointer_escaped(k.drop_last());
        let b = pointer_escape_char(k.last());
        assert forall|j: int| 0 <= j < (a + b).len() implies (a + b)[j] != '/' by {
            if j >= a.len() {
                assert((a + b)[j] == b[j - a.len()]);
            }
        }
    }
}

/// Text without `~` passes decoding unchanged.
proof fn lemma_replace_no_tilde(s: Seq<char>, b: char, c: char)
    requires
        forall|j: int| 0 <= j < s.len() ==> s[j] != '~',
    ensures
        replace_pair(s, '~', b, c) == s,
    decreases s.len(),
{
    if s.len() > 0 {
        lemma_replace_no_tilde(s.drop_first(), b, c);
        assert(s =~= seq![s[0]] + s.drop_first());
    }
}

proof fn lemma_digit_char(d: nat)
    requires
        d < 10,
    ensures
        '0' <= digit_char(d) <= '9',
        (digit_char(d) as u32) - ('0' as u32) == d,
        digit_char(d) == '0' <==> d == 0,
{
    assert(digit_char(d) as u32 == 48 + d);
}

/// The decimal rendering of `n` is digits, starts with `0` only for 0, and
/// reads back as `n`.
proof fn lemma_decimal_digits(n: nat)
    ensures
        decimal(n).len() > 0,
        all_digit_chars(decimal(n)),
        digits_value(decimal(n)) == n,
        decimal(n)[0] == '0' ==> n == 0,
        decimal(n)[0] == '0' ==> decimal(n).len() == 1,
    decreases n,
{
    if n < 10 {
        lemma_digit_char(n);
        assert(decimal(n).drop_last() =~= Seq::<char>::empty());
        assert(decimal(n).last() == digit_char(n));
        assert(digits_value(Seq::<char>::empty()) == 0);
    } else {
        lemma_decimal_digits(n / 10);
        lemma_digit_char(n % 10);
        let s = decimal(n);
        assert(s.drop_last() =~= decimal(n / 10));
        assert(s.last() == digit_char(n % 10));
        assert((n / 10) * 10 + n % 10 == n) by (nonlinear_arith);
        assert(digits_value(s) == digits_value(decimal(n / 10)) * 10 + n % 10);
        assert(s[0] == decimal(n / 10)[0]);
        assert forall|i: int| 0 <= i < s.len() implies '0' <= #[trigger] s[i] <= '9' by {
            if i < s.len() - 1 {
                assert(s[i] == decimal(n / 10)[i]);
            }
        }
    }
}

/// An array index written in decimal is read back as that index.
proof fn lemma_index_token(i: nat)
    requires
        i <= usize::MAX,
    ensures
        token_index(decimal(i)) == Some(i),
        unescape_token(decimal(i)) == decimal(i),
        forall|j: int| 0 <= j < decimal(i).len() ==> decimal(i)[j] != '/',
{
    lemma_decimal_digits(i);
    let s = decimal(i);
    assert forall|j: int| 0 <= j < s.len() implies s[j] != '~' && s[j] != '/' by {
        assert('0' <= s[j] <= '9');
    }
    lemma_replace_no_tilde(s, '1', '/');
    lemma_replace_no_tilde(s, '0', '~');
}

/// With unique names, looking up the name of member `i` finds member `i`.
proof fn lemma_member_named_unique(s: Seq<(String, JsonValue)>, i: int)
    requires
        0 <= i < s.len(),
        forall|a: int, b: int| 0 <= a < b < s.len() ==> (#[trigger] s[a]).0@ != (#[trigger] s[b]).0@,
    ensures
        member_named(s, s[i].0@) == Some(s[i].1),
    decreases s.len(),
{
    if i > 0 {
        assert(s[0].0@ != s[i].0@);
        assert forall|a: int, b: int|
            0 <= a < b < s.drop_first().len() implies (#[trigger] s.drop_first()[a]).0@ != (
            #[trigger] s.drop_first()[b]).0@ by {
            assert(s.drop_first()[a] == s[a + 1]);
            assert(s.drop_first()[b] == s[b + 1]);
        }
        lemma_member_named_unique(s.drop_first(), i - 1);
    }
}

proof fn lemma_rows_describe_value(
    root: JsonValue,
    v: JsonValue,
    label: Seq<char>,
    path: Seq<char>,
    pointer: Seq<char>,
    depth: nat,
    expanded: Seq<Seq<char>>,
    query: Seq<char>,
)
    requires
        resolve(root, pointer) == Some(v),
        well_formed(v),
    ensures
        forall|k: int|
            0 <= k < visible_from(v, label, path, pointer, depth, expanded, query).len()
                ==> describes(
                root,
                #[trigger] visible_from(v, label, path, pointer, depth, expanded, query)[k],
            ),
    decreases v,
{
    let rows = visible_from(v, label, path, pointer, depth, expanded, query);
    let node = crate::tree::node_view(label, path, pointer, v, depth);
    assert(describes(root, node));
    let own: Seq<NodeView> = if crate::tree::node_matches(node, query) {
        seq![node]
    } else {
        Seq::empty()
    };
    if crate::tree::descends(pointer, expanded, query) {
        match v {
            JsonValue::Array(items) => {
                assert forall|i: int| 0 <= i < items@.len() implies resolve(
                    root,
                    child_pointer(pointer, decimal(i as nat)),
                ) == Some(items@[i]) && well_formed(#[trigger] items@[i]) by {
                    lemma_index_token(i as nat);
                    lemma_resolve_child(root, pointer, v, decimal(i as nat));
                    lemma_items_well_formed_at(items@, i);
                }
                lemma_rows_describe_items(
                    root,
                    items@,
                    path,
                    pointer,
                    depth + 1,
                    expanded,
                    query,
                );
                let rest = items_visible(items@, path, pointer, depth + 1, expanded, query);
                assert(rows == own + rest);
                assert forall|k: int| 0 <= k < rows.len() implies describes(
                    root,
                    #[trigger] rows[k],
                ) by {
                    if k >= own.len() {
                        assert(rows[k] == rest[k - own.len()]);
                    }
                }
            },
            JsonValue::Object(members) => {
                assert forall|i: int| 0 <= i < members@.len() implies resolve(
                    root,
                    child_pointer(pointer, pointer_escaped((#[trigger] members@[i]).0@)),
                ) == Some(members@[i].1) && well_formed(members@[i].1) by {
                    lemma_escaped_no_slash(members@[i].0@);
                    lemma_unescape_escaped(members@[i].0@);
                    lemma_resolve_child(root, pointer, v, pointer_escaped(members@[i].0@));
                    lemma_member_named_unique(members@, i);
                    lemma_members_well_formed_at(members@, i);
                }
                lemma_rows_describe_members(
                    root,
                    members@,
                    path,
                    pointer,
                    depth + 1,
                    expanded,
                    query,
                );
                let rest = members_visible(members@, path, pointer, depth + 1, expanded, query);
                assert(rows == own + rest);
                assert forall|k: int| 0 <= k < rows.len() implies describes(
                    root,
                    #[trigger] rows[k],
                ) by {
                    if k >= own.len() {
                        assert(rows[k] == rest[k - own.len()]);
                    }
                }
            },
            _ => {
                assert(rows =~= own);
            },
        }
    } else {
        assert(rows =~= own);
    }
}

proof fn lemma_rows_describe_items(
    root: JsonValue,
    items: Seq<JsonValue>,
    path: Seq<char>,
    pointer: Seq<char>,
    depth: nat,
    expanded: Seq<Seq<char>>,
    query: Seq<char>,
)
    requires
        forall|i: int|
            0 <= i < items.len() ==> resolve(root, child_pointer(pointer, decimal(i as nat)))
                == Some(items[i]) && well_formed(#[trigger] items[i]),
    ensures
        forall|k: int|
            0 <= k < items_visible(items, path, pointer, depth, expanded, query).len()
                ==> describes(
                root,
                #[trigger] items_visible(items, path, pointer, depth, expanded, query)[k],
            ),
    decreases items,
{
    if items.len() > 0 {
        let i = (items.len() - 1) as nat;
        assert forall|j: int| 0 <= j < items.drop_last().len() implies resolve(
            root,
            child_pointer(pointer, decimal(j as nat)),
        ) == Some(items.drop_last()[j]) && well_formed(#[trigger] items.drop_last()[j]) by {
            assert(items.drop_last()[j] == items[j]);
        }
        lemma_rows_describe_items(root, items.drop_last(), path, pointer, depth, expanded, query);
        assert(items.last() == items[i as int]);
        lemma_rows_describe_value(
            root,
            items.last(),
            index_label(i),
            path + index_label(i),
            child_pointer(pointer, decimal(i)),
            depth,
            expanded,
            query,
        );
        let a = items_visible(items.drop_last(), path, pointer, depth, expanded, query);
        let b = visible_from(
            items.last(),
            index_label(i),
            path + index_label(i),
            child_pointer(pointer, decimal(i)),
            depth,
            expanded,
            query,
        );
        let all = items_visible(items, path, pointer, depth, expanded, query);
        assert(all == a + b);
        assert forall|k: int| 0 <= k < all.len() implies describes(root, #[trigger] all[k]) by {
            if k < a.len() {
                assert(all[k] == a[k]);
            } else {
                assert(all[k] == b[k - a.len()]);
            }
        }
    }
}

proof fn lemma_rows_describe_members(
    root: JsonValue,
    members: Seq<(String, JsonValue)>,
    path: Seq<char>,
    pointer: Seq<char>,
    depth: nat,
    expanded: Seq<Seq<char>>,
    query: Seq<char>,
)
    requires
        forall|i: int|
            0 <= i < members.len() ==> resolve(
                root,
                child_pointer(pointer, pointer_escaped((#[trigger] members[i]).0@)),
            ) == Some(members[i].1) && well_formed(members[i].1),
    ensures
        forall|k: int|
            0 <= k < members_visible(members, path, pointer, depth, expanded, query).len()
                ==> describes(
                root,
                #[trigger] members_visible(members, path, pointer, depth, expanded, query)[k],
            ),
    decreases members,
{
    if members.len() > 0 {
        let last = members.last();
        assert forall|j: int| 0 <= j < members.drop_last().len() implies resolve(
            root,
            child_pointer(pointer, pointer_escaped((#[trigger] members.drop_last()[j]).0@)),
        ) == Some(members.drop_last()[j].1) && well_formed(members.drop_last()[j].1) by {
            assert(members.drop_last()[j] == members[j]);
        }
        lemma_rows_describe_members(
            root,
            members.drop_last(),
            path,
            pointer,
            depth,
            expanded,
            query,
        );
        assert(last == members[members.len() - 1]);
        lemma_rows_describe_value(
            root,
            last.1,
            last.0@,
            member_path(path, last.0@),
            child_pointer(pointer, pointer_escaped(last.0@)),
            depth,
            expanded,
            query,
        );
        let a = members_visible(members.drop_last(), path, pointer, depth, expanded, query);
        let b = visible_from(
            last.1,
            last.0@,
            member_path(path, last.0@),
            child_pointer(pointer, pointer_escaped(last.0@)),
            depth,
            expanded,
            query,
        );
        let all = members_visible(members, path, pointer, depth, expanded, query);
        assert(all == a + b);
        assert forall|k: int| 0 <= k < all.len() implies describes(root, #[trigger] all[k]) by {
            if k < a.len() {
                assert(all[k] == a[k]);
            } else {
                assert(all[k] == b[k - a.len()]);
            }
        }
    }
}

/// Every row of the structured view, whatever is expanded or searched,
/// carries a pointer that addresses, in the document, the very value whose
/// type, summary and child count the row shows; so copying or inspecting a
/// selected row reaches that value.
pub proof fn law_rows_point_at_their_values(
    root: JsonValue,
    expanded: Seq<Seq<char>>,
    query: Seq<char>,
    k: int,
)
    requires
        well_formed(root),
        0 <= k < visible_from(root, "Root"@, "$"@, ""@, 0, expanded, query).len(),
    ensures
        describes(root, visible_from(root, "Root"@, "$"@, ""@, 0, expanded, query)[k]),
{
    assert(""@.len() == 0) by {
        reveal_strlit("");
    }
    lemma_rows_describe_value(root, root, "Root"@, "$"@, ""@, 0, expanded, query);
}

} // verus!
