//! The model builder: turns the flat dotted-key property map into a nested
//! template document, resolving key-path conflicts deterministically.
//!
//! Keys are processed in ascending lexicographic order, so a key is always
//! handled after every strict dotted prefix of it. A key whose path runs
//! through an existing leaf, or whose final slot already holds a mapping,
//! is skipped and reported; the document is left as it was.

use crate::order::{
    lemma_lex_leq_antisymmetric, lemma_lex_leq_connected, lemma_lex_leq_reflexive,
    lemma_lex_leq_transitive, lemma_lex_total_ordering, lex_leq, lex_leq_fn, str_eq, str_lex_leq,
};
use crate::props::PropertyMap;
use vstd::prelude::*;
use vstd::relations::sorted_by;
use vstd::string::StrSliceExecFns;

verus! {

/// The mathematical form of a template document node: a string leaf, or a
/// mapping from segment names to child nodes, with no order on members.
#[verifier::ext_equal]
pub enum DocValue {
    Leaf(Seq<char>),
    Object(Map<Seq<char>, DocValue>),
}

/// An executable template document node. Object members are kept in
/// insertion order with pairwise distinct keys; their mathematical view
/// forgets the order.
#[derive(Debug, PartialEq)]
pub enum TemplateNode {
    Leaf(String),
    Object(Vec<(String, TemplateNode)>),
}

/// The view of an object's member list, as a mapping.
pub open spec fn object_view(s: Seq<(String, TemplateNode)>) -> Map<Seq<char>, DocValue>
    decreases s,
{
    if s.len() == 0 {
        Map::empty()
    } else {
        object_view(s.drop_last()).insert(s.last().0@, node_view(s.last().1))
    }
}

/// The mathematical view of a document node.
pub open spec fn node_view(n: TemplateNode) -> DocValue
    decreases n,
{
    match n {
        TemplateNode::Leaf(s) => DocValue::Leaf(s@),
        TemplateNode::Object(members) => DocValue::Object(object_view(members@)),
    }
}

/// Well-formedness of a document node: every object's member keys are
/// pairwise distinct, recursively.
pub open spec fn node_wf(n: TemplateNode) -> bool
    decreases n,
{
    match n {
        TemplateNode::Leaf(_) => true,
        TemplateNode::Object(members) => {
            &&& members@.map_values(|p: (String, TemplateNode)| p.0@).no_duplicates()
            &&& forall|i: int|
                0 <= i < members@.len() ==> node_wf(#[trigger] members@[i].1)
        },
    }
}

/// Index of the first `.` in `k` at or after `i`; `k.len()` when none is left.
pub open spec fn first_dot_from(k: Seq<char>, i: int) -> int
    decreases k.len() - i,
{
    if i < 0 || i >= k.len() {
        k.len() as int
    } else if k[i] == '.' {
        i
    } else {
        first_dot_from(k, i + 1)
    }
}

pub proof fn lemma_first_dot_from(k: Seq<char>, i: int)
    requires
        0 <= i <= k.len(),
    ensures
        i <= first_dot_from(k, i) <= k.len(),
        first_dot_from(k, i) < k.len() ==> k[first_dot_from(k, i)] == '.',
        forall|j: int| i <= j < first_dot_from(k, i) ==> k[j] != '.',
    decreases k.len() - i,
{
    if i < k.len() && k[i] != '.' {
        lemma_first_dot_from(k, i + 1);
    }
}

/// The dot-separated segments of a key. A key without a separator is one
/// segment; every separator ends a segment, so leading, trailing and
/// doubled separators give empty segments.
pub open spec fn split_key(k: Seq<char>) -> Seq<Seq<char>>
    decreases k.len(),
    via split_key_decreases
{
    let i = first_dot_from(k, 0);
    if i >= k.len() {
        seq![k]
    } else {
        seq![k.take(i)] + split_key(k.skip(i + 1))
    }
}

#[via_fn]
proof fn split_key_decreases(k: Seq<char>) {
    lemma_first_dot_from(k, 0);
}

/// Inserting a value at a segment path in a document. `None` means the
/// insertion conflicts with the existing document, which is left unchanged;
/// `Some` is the document with the leaf set at the path, intermediate
/// mappings created as needed. A path never overrides a mapping node, and
/// never runs through a leaf.
pub open spec fn doc_insert(node: DocValue, segs: Seq<Seq<char>>, value: Seq<char>) -> Option<
    DocValue,
>
    decreases segs.len(),
{
    match node {
        DocValue::Leaf(_) => Option::None,
        DocValue::Object(m) => {
            if segs.len() == 0 {
                Option::None
            } else if segs.len() == 1 {
                if m.contains_key(segs[0]) && m[segs[0]] is Object {
                    Option::None
                } else {
                    Option::Some(DocValue::Object(m.insert(segs[0], DocValue::Leaf(value))))
                }
            } else {
                let child = if m.contains_key(segs[0]) {
                    m[segs[0]]
                } else {
                    DocValue::Object(Map::empty())
                };
                match doc_insert(child, segs.drop_first(), value) {
                    Option::None => Option::None,
                    Option::Some(c) => Option::Some(DocValue::Object(m.insert(segs[0], c))),
                }
            }
        },
    }
}

/// Inserting into a fresh, empty mapping never conflicts.
pub proof fn lemma_doc_insert_fresh(segs: Seq<Seq<char>>, value: Seq<char>)
    requires
        segs.len() >= 1,
    ensures
        doc_insert(DocValue::Object(Map::empty()), segs, value) is Some,
    decreases segs.len(),
{
    if segs.len() > 1 {
        lemma_doc_insert_fresh(segs.drop_first(), value);
    }
}

/// Walking a document along a segment path: the node there, or `None`
/// when the path leaves the document.
pub open spec fn doc_lookup(d: DocValue, segs: Seq<Seq<char>>) -> Option<DocValue>
    decreases segs.len(),
{
    if segs.len() == 0 {
        Option::Some(d)
    } else {
        match d {
            DocValue::Leaf(_) => Option::None,
            DocValue::Object(m) => {
                if m.contains_key(segs[0]) {
                    doc_lookup(m[segs[0]], segs.drop_first())
                } else {
                    Option::None
                }
            },
        }
    }
}

/// A successful insertion puts the leaf at its path.
proof fn lemma_insert_sets_leaf(d: DocValue, segs: Seq<Seq<char>>, v: Seq<char>)
    requires
        segs.len() >= 1,
        doc_insert(d, segs, v) is Some,
    ensures
        doc_lookup(doc_insert(d, segs, v)->0, segs) == Option::Some(DocValue::Leaf(v)),
    decreases segs.len(),
{
    assert(d is Object);
    let m = d->Object_0;
    if segs.len() == 1 {
        let m2 = m.insert(segs[0], DocValue::Leaf(v));
        assert(doc_insert(d, segs, v)->0 == DocValue::Object(m2));
        assert(m2.contains_key(segs[0]));
        assert(m2[segs[0]] == DocValue::Leaf(v));
        assert(segs.drop_first().len() == 0);
        assert(doc_lookup(DocValue::Leaf(v), segs.drop_first()) == Option::Some(
            DocValue::Leaf(v),
        ));
    } else {
        let child = if m.contains_key(segs[0]) {
            m[segs[0]]
        } else {
            DocValue::Object(Map::empty())
        };
        let c = doc_insert(child, segs.drop_first(), v)->0;
        assert(doc_insert(d, segs, v)->0 == DocValue::Object(m.insert(segs[0], c)));
        lemma_insert_sets_leaf(child, segs.drop_first(), v);
        assert(m.insert(segs[0], c).contains_key(segs[0]));
        assert(m.insert(segs[0], c)[segs[0]] == c);
    }
}

/// A successful insertion leaves every leaf at a different path in place.
proof fn lemma_insert_preserves_leaf(
    d: DocValue,
    segs: Seq<Seq<char>>,
    v: Seq<char>,
    p: Seq<Seq<char>>,
    w: Seq<char>,
)
    requires
        segs.len() >= 1,
        doc_insert(d, segs, v) is Some,
        doc_lookup(d, p) == Option::Some(DocValue::Leaf(w)),
        p != segs,
    ensures
        doc_lookup(doc_insert(d, segs, v)->0, p) == Option::Some(DocValue::Leaf(w)),
    decreases segs.len(),
{
    let m = d->Object_0;
    if p.len() == 0 {
        assert(d == DocValue::Leaf(w));
        assert(false);
    } else if p[0] != segs[0] {
        let m2 = doc_insert(d, segs, v)->0->Object_0;
        assert(m2.contains_key(p[0]) == m.contains_key(p[0]));
        if m.contains_key(p[0]) {
            assert(m2[p[0]] == m[p[0]]);
        }
    } else {
        assert(m.contains_key(p[0]));
        let child = m[p[0]];
        if segs.len() == 1 {
            if p.len() == 1 {
                assert(p =~= segs);
                assert(false);
            } else {
                assert(doc_lookup(child, p.drop_first()) == Option::Some(DocValue::Leaf(w)));
                assert(child is Object);
                assert(doc_insert(d, segs, v) is None);
                assert(false);
            }
        } else {
            if p.len() == 1 {
                assert(doc_lookup(child, p.drop_first()) == Option::Some(DocValue::Leaf(w)));
                assert(p.drop_first().len() == 0);
                assert(child == DocValue::Leaf(w));
                assert(doc_insert(child, segs.drop_first(), v) is None);
                assert(doc_insert(d, segs, v) is None);
                assert(false);
            } else {
                if p.drop_first() == segs.drop_first() {
                    assert(p.len() == segs.len());
                    assert forall|j: int| 0 <= j < p.len() implies p[j] == segs[j] by {
                        if j > 0 {
                            assert(p[j] == p.drop_first()[j - 1]);
                            assert(segs[j] == segs.drop_first()[j - 1]);
                        }
                    }
                    assert(p =~= segs);
                    assert(false);
                }
                lemma_insert_preserves_leaf(child, segs.drop_first(), v, p.drop_first(), w);
                let m2 = doc_insert(d, segs, v)->0->Object_0;
                assert(m2[p[0]] == doc_insert(child, segs.drop_first(), v)->0);
            }
        }
    }
}

/// A key has at least one segment.
proof fn lemma_split_key_len(k: Seq<char>)
    ensures
        split_key(k).len() >= 1,
        first_dot_from(k, 0) < k.len() ==> split_key(k).len() >= 2,
    decreases k.len(),
{
    lemma_first_dot_from(k, 0);
    if first_dot_from(k, 0) < k.len() {
        lemma_split_key_len(k.skip(first_dot_from(k, 0) + 1));
    }
}

/// Distinct keys split into distinct segment paths.
proof fn lemma_split_key_injective(a: Seq<char>, b: Seq<char>)
    requires
        split_key(a) == split_key(b),
    ensures
        a == b,
    decreases a.len(),
{
    lemma_first_dot_from(a, 0);
    lemma_first_dot_from(b, 0);
    lemma_split_key_len(a);
    lemma_split_key_len(b);
    let ia = first_dot_from(a, 0);
    let ib = first_dot_from(b, 0);
    if ia >= a.len() && ib >= b.len() {
        assert(split_key(a)[0] == a);
        assert(split_key(b)[0] == b);
    } else if ia < a.len() && ib < b.len() {
        assert(split_key(a)[0] == a.take(ia));
        assert(split_key(b)[0] == b.take(ib));
        assert(a.take(ia).len() == b.take(ib).len());
        assert(ia == ib);
        assert(split_key(a).skip(1) =~= split_key(a.skip(ia + 1)));
        assert(split_key(b).skip(1) =~= split_key(b.skip(ib + 1)));
        assert(split_key(a.skip(ia + 1)) == split_key(b.skip(ib + 1)));
        lemma_split_key_injective(a.skip(ia + 1), b.skip(ib + 1));
        assert(a.len() == ia + 1 + a.skip(ia + 1).len());
        assert(b.len() == ib + 1 + b.skip(ib + 1).len());
        assert forall|j: int| 0 <= j < a.len() implies a[j] == b[j] by {
            if j < ia {
                assert(a.take(ia)[j] == a[j]);
                assert(b.take(ib)[j] == b[j]);
            } else if j == ia {
                assert(a[j] == '.');
                assert(b[j] == '.');
            } else {
                assert(a.skip(ia + 1)[j - ia - 1] == a[j]);
                assert(b.skip(ib + 1)[j - ib - 1] == b[j]);
            }
        }
        assert(a =~= b);
    } else {
        assert(split_key(a).len() != split_key(b).len());
        assert(false);
    }
}

/// The builder's central promise: a key whose insertion did not conflict
/// is reachable in the built document along its dotted segments, and the
/// leaf there is the key's value. `build_template_model`'s document and
/// conflict list are `build_steps` of its property map's canonical key
/// ordering, so this holds of every key the build did not report.
pub proof fn lemma_build_reaches_inserted_keys(
    m: Map<Seq<char>, Seq<char>>,
    keys: Seq<Seq<char>>,
    k: Seq<char>,
)
    requires
        keys.no_duplicates(),
        keys.contains(k),
        !build_steps(m, keys).1.contains(k),
    ensures
        doc_lookup(build_steps(m, keys).0, split_key(k)) == Option::Some(DocValue::Leaf(m[k])),
    decreases keys.len(),
{
    lemma_split_key_len(k);
    let prev = build_steps(m, keys.drop_last());
    let last = keys.last();
    let step = doc_insert(prev.0, split_key(last), m[last]);
    assert forall|x: Seq<char>| prev.1.contains(x) implies build_steps(m, keys).1.contains(
        x,
    ) by {
        let i = choose|i: int| 0 <= i < prev.1.len() && prev.1[i] == x;
        assert(build_steps(m, keys).1[i] == x);
    }
    if k == last {
        if step is None {
            assert(build_steps(m, keys).1.last() == k);
            assert(false);
        }
        lemma_insert_sets_leaf(prev.0, split_key(k), m[k]);
    } else {
        let i = choose|i: int| 0 <= i < keys.len() && keys[i] == k;
        assert(i < keys.len() - 1);
        assert(keys.drop_last()[i] == k);
        assert forall|x: int, y: int|
            0 <= x < keys.drop_last().len() && 0 <= y < keys.drop_last().len() && x != y
            implies keys.drop_last()[x] != keys.drop_last()[y] by {
            assert(keys[x] == keys.drop_last()[x]);
            assert(keys[y] == keys.drop_last()[y]);
        }
        lemma_build_reaches_inserted_keys(m, keys.drop_last(), k);
        if step is Some {
            if split_key(k) == split_key(last) {
                lemma_split_key_injective(k, last);
                assert(false);
            }
            lemma_split_key_len(last);
            lemma_insert_preserves_leaf(prev.0, split_key(last), m[last], split_key(k), m[k]);
        }
    }
}

/// The member keys of an object's member list.
pub open spec fn member_keys(s: Seq<(String, TemplateNode)>) -> Seq<Seq<char>> {
    s.map_values(|p: (String, TemplateNode)| p.0@)
}

/// A key is in the object's view exactly when some member holds it.
proof fn lemma_object_view_dom(s: Seq<(String, TemplateNode)>, k: Seq<char>)
    ensures
        object_view(s).contains_key(k) <==> member_keys(s).contains(k),
    decreases s.len(),
{
    if s.len() > 0 {
        lemma_object_view_dom(s.drop_last(), k);
        assert(member_keys(s)[s.len() - 1] == s.last().0@);
        if object_view(s).contains_key(k) && s.last().0@ != k {
            assert(member_keys(s.drop_last()).contains(k));
            let i = choose|i: int|
                0 <= i < s.drop_last().len() && member_keys(s.drop_last())[i] == k;
            assert(member_keys(s)[i] == k);
        }
        if member_keys(s).contains(k) {
            let i = choose|i: int| 0 <= i < member_keys(s).len() && member_keys(s)[i] == k;
            if i < s.len() - 1 {
                assert(member_keys(s.drop_last())[i] == k);
                assert(member_keys(s.drop_last()).contains(k));
            }
        }
    }
}

/// With no member key at or after `i` equal to `k`, the lookup of `k` is
/// decided by the members before `i`.
proof fn lemma_object_view_prefix(s: Seq<(String, TemplateNode)>, i: int, k: Seq<char>)
    requires
        0 <= i <= s.len(),
        forall|j: int| i <= j < s.len() ==> s[j].0@ != k,
    ensures
        object_view(s).contains_key(k) == object_view(s.take(i)).contains_key(k),
        object_view(s).contains_key(k) ==> object_view(s)[k] == object_view(s.take(i))[k],
    decreases s.len() - i,
{
    if i < s.len() {
        assert(s.take(i + 1).drop_last() =~= s.take(i));
        assert(s.take(i + 1).last() == s[i]);
        lemma_object_view_prefix(s, i + 1, k);
    } else {
        assert(s.take(i) =~= s);
    }
}

/// With pairwise distinct keys, the view maps member `j`'s key to member
/// `j`'s node.
proof fn lemma_object_view_lookup(s: Seq<(String, TemplateNode)>, j: int)
    requires
        member_keys(s).no_duplicates(),
        0 <= j < s.len(),
    ensures
        object_view(s).contains_key(s[j].0@),
        object_view(s)[s[j].0@] == node_view(s[j].1),
    decreases s.len(),
{
    assert forall|l: int| j + 1 <= l < s.len() implies s[l].0@ != s[j].0@ by {
        assert(member_keys(s)[l] == s[l].0@);
        assert(member_keys(s)[j] == s[j].0@);
    }
    lemma_object_view_prefix(s, j + 1, s[j].0@);
    assert(s.take(j + 1).drop_last() =~= s.take(j));
    assert(s.take(j + 1).last() == s[j]);
}

/// Replacing member `j` by a pair with the same key updates the view at
/// that key alone.
proof fn lemma_object_view_update(
    s: Seq<(String, TemplateNode)>,
    j: int,
    p: (String, TemplateNode),
)
    requires
        member_keys(s).no_duplicates(),
        0 <= j < s.len(),
        p.0@ == s[j].0@,
    ensures
        object_view(s.update(j, p)) == object_view(s).insert(p.0@, node_view(p.1)),
    decreases s.len(),
{
    let t = s.update(j, p);
    if j == s.len() - 1 {
        assert(t.drop_last() =~= s.drop_last());
        assert(t.last() == p);
        assert(object_view(s.drop_last()).insert(p.0@, node_view(p.1)) =~= object_view(
            s.drop_last(),
        ).insert(s.last().0@, node_view(s.last().1)).insert(p.0@, node_view(p.1)));
    } else {
        assert(t.drop_last() =~= s.drop_last().update(j, p));
        assert(t.last() == s.last());
        assert forall|a: int, b: int|
            0 <= a < b < member_keys(s.drop_last()).len() implies member_keys(s.drop_last())[a]
            != member_keys(s.drop_last())[b] by {
            assert(member_keys(s)[a] == member_keys(s.drop_last())[a]);
            assert(member_keys(s)[b] == member_keys(s.drop_last())[b]);
        }
        lemma_object_view_update(s.drop_last(), j, p);
        assert(member_keys(s)[j] == s[j].0@);
        assert(member_keys(s)[s.len() - 1] == s.last().0@);
        assert(s.last().0@ != p.0@);
        assert(object_view(s.drop_last()).insert(p.0@, node_view(p.1)).insert(
            s.last().0@,
            node_view(s.last().1),
        ) =~= object_view(s.drop_last()).insert(s.last().0@, node_view(s.last().1)).insert(
            p.0@,
            node_view(p.1),
        ));
    }
}

/// Appending a member under a key not yet present keeps the member keys
/// pairwise distinct and the members well-formed.
proof fn lemma_member_push_wf(
    s0: Seq<(String, TemplateNode)>,
    s1: Seq<(String, TemplateNode)>,
    k: Seq<char>,
)
    requires
        member_keys(s0).no_duplicates(),
        forall|i: int| 0 <= i < s0.len() ==> node_wf(#[trigger] s0[i].1),
        s1.drop_last() == s0,
        s1.len() == s0.len() + 1,
        s1.last().0@ == k,
        node_wf(s1.last().1),
        !member_keys(s0).contains(k),
    ensures
        member_keys(s1).no_duplicates(),
        forall|i: int| 0 <= i < s1.len() ==> node_wf(#[trigger] s1[i].1),
{
    let mk0 = member_keys(s0);
    let mk1 = member_keys(s1);
    assert forall|a: int, b: int|
        0 <= a < mk1.len() && 0 <= b < mk1.len() && a != b implies mk1[a] != mk1[b] by {
        if a < mk0.len() && b < mk0.len() {
            assert(s1[a] == s0[a]);
            assert(s1[b] == s0[b]);
            assert(mk0[a] != mk0[b]);
        } else if a < mk0.len() {
            assert(s1[a] == s0[a]);
            if mk0[a] == k {
                assert(mk0.contains(k));
            }
        } else {
            assert(s1[b] == s0[b]);
            if mk0[b] == k {
                assert(mk0.contains(k));
            }
        }
    }
    assert forall|i: int| 0 <= i < s1.len() implies node_wf(#[trigger] s1[i].1) by {
        if i < s0.len() {
            assert(s1[i] == s0[i]);
            assert(node_wf(s0[i].1));
        } else {
            assert(s1[i] == s1.last());
        }
    }
}

/// Finds the member holding `key`, if any.
fn find_member(members: &Vec<(String, TemplateNode)>, key: &str) -> (r: Option<usize>)
    ensures
        match r {
            Some(j) => j < members@.len() && members@[j as int].0@ == key@,
            None => forall|i: int| 0 <= i < members@.len() ==> members@[i].0@ != key@,
        },
{
    let mut i: usize = 0;
    while i < members.len()
        invariant
            i <= members@.len(),
            forall|j: int| 0 <= j < i ==> members@[j].0@ != key@,
        decreases members@.len() - i,
    {
        if str_eq(members[i].0.as_str(), key) {
            return Some(i);
        }
        i = i + 1;
    }
    None
}

/// Walks the document along `path` from `key_pos` on and sets the leaf
/// `value` at the final segment. Returns the document and whether the key
/// was inserted; on a conflict the document is returned unchanged.
pub fn insert_with_path(
    node: TemplateNode,
    path: &Vec<String>,
    key_pos: usize,
    value: &String,
) -> (r: (TemplateNode, bool))
    requires
        key_pos < path@.len(),
        node_wf(node),
    ensures
        node_wf(r.0),
        ({
            let segs = path@.map_values(|s: String| s@).skip(key_pos as int);
            match doc_insert(node_view(node), segs, value@) {
                Option::Some(d) => r.1 && node_view(r.0) == d,
                Option::None => !r.1 && node_view(r.0) == node_view(node),
            }
        }),
    decreases path@.len() - key_pos,
{
    let ghost segs = path@.map_values(|s: String| s@).skip(key_pos as int);
    proof {
        assert(segs[0] == path@[key_pos as int]@);
    }
    match node {
        TemplateNode::Leaf(text) => {
            let unchanged = TemplateNode::Leaf(text);
            proof {
                assert(unchanged == node);
                assert(node_wf(unchanged));
                assert(doc_insert(node_view(node), segs, value@) is None);
            }
            return (unchanged, false);
        },
        TemplateNode::Object(mut members) => {
            let ghost s0 = members@;
            let ghost m0 = object_view(s0);
            let path_len = path.len();
            let j_opt = find_member(&members, path[key_pos].as_str());
            proof {
                lemma_object_view_dom(s0, segs[0]);
                if j_opt is Some {
                    let j = j_opt->0 as int;
                    assert(member_keys(s0)[j] == segs[0]);
                }
            }
            if key_pos + 1 == path_len {
                proof {
                    assert(segs.len() == 1);
                }
                match j_opt {
                    Some(j) => {
                        proof {
                            lemma_object_view_lookup(s0, j as int);
                        }
                        let replaces_object = match &members[j].1 {
                            TemplateNode::Object(_) => true,
                            TemplateNode::Leaf(_) => false,
                        };
                        if replaces_object {
                            return (TemplateNode::Object(members), false);
                        } else {
                            let pair = (
                                path[key_pos].clone(),
                                TemplateNode::Leaf(value.clone()),
                            );
                            let _old_pair = members.remove(j);
                            members.insert(j, pair);
                            proof {
                                assert(members@ =~= s0.update(
                                    j as int,
                                    (path@[key_pos as int], TemplateNode::Leaf(*value)),
                                ));
                                lemma_object_view_update(
                                    s0,
                                    j as int,
                                    (path@[key_pos as int], TemplateNode::Leaf(*value)),
                                );
                                assert(member_keys(members@) =~= member_keys(s0));
                                assert(member_keys(s0).no_duplicates());
                                assert forall|i: int| 0 <= i < members@.len() implies node_wf(
                                    #[trigger] members@[i].1,
                                ) by {
                                    if i != j as int {
                                        assert(members@[i] == s0[i]);
                                        assert(node_wf(s0[i].1));
                                    }
                                }
                            }
                            return (TemplateNode::Object(members), true);
                        }
                    },
                    None => {
                        members.push((path[key_pos].clone(), TemplateNode::Leaf(value.clone())));
                        proof {
                            assert(members@.drop_last() =~= s0);
                            assert(member_keys(members@) =~= member_keys(s0).push(segs[0]));
                            assert(!member_keys(s0).contains(segs[0]));
                            lemma_member_push_wf(s0, members@, segs[0]);
                            assert(members@.last().0@ == segs[0]);
                            assert(node_view(members@.last().1) == DocValue::Leaf(value@));
                            assert(object_view(members@) == object_view(s0).insert(
                                segs[0],
                                DocValue::Leaf(value@),
                            ));
                            assert(doc_insert(node_view(node), segs, value@) == Option::Some(
                                DocValue::Object(m0.insert(segs[0], DocValue::Leaf(value@))),
                            ));
                        }
                        return (TemplateNode::Object(members), true);
                    },
                }
            } else {
                proof {
                    assert(segs.len() >= 2);
                    assert(segs.drop_first() =~= path@.map_values(|s: String| s@).skip(
                        key_pos + 1,
                    ));
                }
                match j_opt {
                    Some(j) => {
                        proof {
                            lemma_object_view_lookup(s0, j as int);
                        }
                        let (member_key, child) = members.remove(j);
                        let (child2, ok) = insert_with_path(child, path, key_pos + 1, value);
                        members.insert(j, (member_key, child2));
                        proof {
                            assert(members@ =~= s0.update(
                                j as int,
                                (s0[j as int].0, members@[j as int].1),
                            ));
                            lemma_object_view_update(
                                s0,
                                j as int,
                                (s0[j as int].0, members@[j as int].1),
                            );
                            assert(member_keys(members@) =~= member_keys(s0));
                            assert(member_keys(s0).no_duplicates());
                            assert forall|i: int| 0 <= i < members@.len() implies node_wf(
                                #[trigger] members@[i].1,
                            ) by {
                                if i != j as int {
                                    assert(members@[i] == s0[i]);
                                    assert(node_wf(s0[i].1));
                                }
                            }
                            if !ok {
                                assert(m0.insert(segs[0], node_view(s0[j as int].1)) =~= m0);
                            }
                        }
                        return (TemplateNode::Object(members), ok);
                    },
                    None => {
                        proof {
                            lemma_doc_insert_fresh(segs.drop_first(), value@);
                        }
                        let fresh = TemplateNode::Object(Vec::new());
                        let (sub, _ok) = insert_with_path(fresh, path, key_pos + 1, value);
                        members.push((path[key_pos].clone(), sub));
                        proof {
                            assert(members@.drop_last() =~= s0);
                            assert(member_keys(members@) =~= member_keys(s0).push(segs[0]));
                            assert(!member_keys(s0).contains(segs[0]));
                            lemma_member_push_wf(s0, members@, segs[0]);
                        }
                        return (TemplateNode::Object(members), true);
                    },
                }
            }
        },
    }
}

/// Splits a dotted key into its segments.
pub fn split_dotted_key(key: &str) -> (parts: Vec<String>)
    ensures
        parts@.map_values(|s: String| s@) == split_key(key@),
        parts@.len() >= 1,
{
    let len = key.unicode_len();
    let mut parts: Vec<String> = Vec::new();
    let mut seg_start: usize = 0;
    let mut i: usize = 0;
    proof {
        assert(key@.skip(0) =~= key@);
        assert(parts@.map_values(|s: String| s@) =~= Seq::<Seq<char>>::empty());
        assert(Seq::<Seq<char>>::empty() + split_key(key@) =~= split_key(key@));
    }
    while i < len
        invariant
            seg_start <= i <= len,
            len == key@.len(),
            forall|j: int| seg_start <= j < i ==> key@[j] != '.',
            split_key(key@) == parts@.map_values(|s: String| s@) + split_key(
                key@.skip(seg_start as int),
            ),
        decreases len - i,
    {
        if key.get_char(i) == '.' {
            let seg = key.substring_char(seg_start, i).to_owned();
            proof {
                let ghost old_parts = parts@.map_values(|s: String| s@);
                lemma_split_key_step(key@, seg_start as int, i as int);
                assert((parts@.push(seg)).map_values(|s: String| s@) =~= old_parts.push(seg@));
                assert(seg@ == key@.skip(seg_start as int).take(i - seg_start));
                assert(old_parts.push(seg@) + split_key(key@.skip(i + 1)) =~= old_parts + (seq![
                    seg@,
                ] + split_key(key@.skip(i + 1))));
            }
            parts.push(seg);
            seg_start = i + 1;
        }
        i = i + 1;
    }
    let seg = key.substring_char(seg_start, len).to_owned();
    proof {
        let ghost old_parts = parts@.map_values(|s: String| s@);
        lemma_first_dot_no_dot(key@.skip(seg_start as int));
        assert(split_key(key@.skip(seg_start as int)) == seq![key@.skip(seg_start as int)]);
        assert(seg@ == key@.subrange(seg_start as int, len as int));
        assert(seg@ =~= key@.skip(seg_start as int));
        assert((parts@.push(seg)).map_values(|s: String| s@) =~= old_parts.push(seg@));
        assert(old_parts.push(seg@) =~= old_parts + seq![seg@]);
    }
    parts.push(seg);
    parts
}

/// Unfolds `split_key` at the first separator.
proof fn lemma_split_key_step(k: Seq<char>, s: int, i: int)
    requires
        0 <= s <= i < k.len(),
        k[i] == '.',
        forall|j: int| s <= j < i ==> k[j] != '.',
    ensures
        split_key(k.skip(s)) == seq![k.skip(s).take(i - s)] + split_key(k.skip(i + 1)),
{
    let t = k.skip(s);
    assert(t[i - s] == '.');
    assert forall|j: int| 0 <= j < i - s implies t[j] != '.' by {
        assert(t[j] == k[j + s]);
    }
    lemma_first_dot_found(t, i - s);
    assert(t.skip(i - s + 1) =~= k.skip(i + 1));
}

/// If position `d` holds the first separator, `first_dot_from` finds it.
proof fn lemma_first_dot_found(t: Seq<char>, d: int)
    requires
        0 <= d < t.len(),
        t[d] == '.',
        forall|j: int| 0 <= j < d ==> t[j] != '.',
    ensures
        first_dot_from(t, 0) == d,
{
    lemma_first_dot_step(t, 0, d);
}

proof fn lemma_first_dot_step(t: Seq<char>, s: int, d: int)
    requires
        0 <= s <= d < t.len(),
        t[d] == '.',
        forall|j: int| s <= j < d ==> t[j] != '.',
    ensures
        first_dot_from(t, s) == d,
    decreases d - s,
{
    if s < d {
        lemma_first_dot_step(t, s + 1, d);
    }
}

/// A key without a separator is a single segment.
proof fn lemma_first_dot_no_dot(t: Seq<char>)
    requires
        forall|j: int| 0 <= j < t.len() ==> t[j] != '.',
    ensures
        split_key(t) == seq![t],
{
    lemma_first_dot_from(t, 0);
    if first_dot_from(t, 0) < t.len() {
        assert(t[first_dot_from(t, 0)] == '.');
    }
}

/// A canonical ordering of a property map's keys: ascending, without
/// duplicates, covering exactly the map's domain.
pub open spec fn is_canonical_key_seq(m: Map<Seq<char>, Seq<char>>, s: Seq<Seq<char>>) -> bool {
    &&& sorted_by(s, lex_leq_fn())
    &&& s.no_duplicates()
    &&& s.to_set() == m.dom()
}

/// The canonical key ordering of a property map. For a finite map there is
/// exactly one sequence with these properties.
pub open spec fn sorted_keys_of(m: Map<Seq<char>, Seq<char>>) -> Seq<Seq<char>> {
    choose|s: Seq<Seq<char>>| is_canonical_key_seq(m, s)
}

/// The document and the conflict diagnostics after inserting the values of
/// `m` at `keys`, in order, into an initially empty document.
pub open spec fn build_steps(m: Map<Seq<char>, Seq<char>>, keys: Seq<Seq<char>>) -> (DocValue, Seq<
    Seq<char>,
>)
    decreases keys.len(),
{
    if keys.len() == 0 {
        (DocValue::Object(Map::empty()), Seq::empty())
    } else {
        let prev = build_steps(m, keys.drop_last());
        let k = keys.last();
        match doc_insert(prev.0, split_key(k), m[k]) {
            Option::Some(d) => (d, prev.1),
            Option::None => (prev.0, prev.1.push(k)),
        }
    }
}

/// The document built from a property map: its keys in ascending order,
/// each inserted at its dotted path.
pub open spec fn built_doc(m: Map<Seq<char>, Seq<char>>) -> DocValue {
    build_steps(m, sorted_keys_of(m)).0
}

/// The keys whose insertion conflicts, in ascending order.
pub open spec fn built_conflicts(m: Map<Seq<char>, Seq<char>>) -> Seq<Seq<char>> {
    build_steps(m, sorted_keys_of(m)).1
}

/// The model build is deterministic: a property map has at most one
/// canonical key ordering, so the document and the diagnostics that
/// `build_template_model` promises are functions of the map's contents
/// alone, not of any iteration or insertion order.
pub proof fn lemma_build_deterministic(
    m: Map<Seq<char>, Seq<char>>,
    s1: Seq<Seq<char>>,
    s2: Seq<Seq<char>>,
)
    requires
        is_canonical_key_seq(m, s1),
        is_canonical_key_seq(m, s2),
    ensures
        s1 == s2,
        build_steps(m, s1) == build_steps(m, s2),
{
    broadcast use vstd::seq_lib::group_to_multiset_ensures;

    lemma_lex_total_ordering();
    s1.lemma_multiset_has_no_duplicates();
    s2.lemma_multiset_has_no_duplicates();
    assert forall|x: Seq<char>| s1.to_multiset().count(x) == s2.to_multiset().count(x) by {
        assert(s1.contains(x) <==> s1.to_set().contains(x));
        assert(s2.contains(x) <==> s2.to_set().contains(x));
        if s1.contains(x) {
            assert(s1.to_multiset().contains(x));
            assert(s2.to_multiset().contains(x));
        }
    }
    assert(s1.to_multiset() =~= s2.to_multiset());
    vstd::seq_lib::lemma_sorted_unique(s1, s2, lex_leq_fn());
}

/// Inserts `key` into an ascending, duplicate-free key list, keeping it
/// ascending and duplicate-free.
fn sorted_insert_key(keys: &mut Vec<String>, key: &String)
    requires
        sorted_by(old(keys)@.map_values(|s: String| s@), lex_leq_fn()),
        old(keys)@.map_values(|s: String| s@).no_duplicates(),
    ensures
        sorted_by(final(keys)@.map_values(|s: String| s@), lex_leq_fn()),
        final(keys)@.map_values(|s: String| s@).no_duplicates(),
        final(keys)@.map_values(|s: String| s@).to_set() == old(keys)@.map_values(
            |s: String| s@,
        ).to_set().insert(key@),
{
    let ghost kv0 = keys@.map_values(|s: String| s@);
    let mut i: usize = 0;
    while i < keys.len() && !str_lex_leq(key.as_str(), keys[i].as_str())
        invariant
            i <= keys@.len(),
            keys@.map_values(|s: String| s@) == kv0,
            forall|j: int| 0 <= j < i ==> !lex_leq(key@, kv0[j]),
        decreases keys@.len() - i,
    {
        i = i + 1;
    }
    proof {
        lemma_lex_total_ordering();
        assert forall|j: int| 0 <= j < i implies lex_leq(#[trigger] kv0[j], key@) && kv0[j]
            != key@ by {
            lemma_lex_leq_connected(kv0[j], key@);
            if kv0[j] == key@ {
                lemma_lex_leq_reflexive(key@);
            }
        }
    }
    if i < keys.len() && str_eq(keys[i].as_str(), key.as_str()) {
        proof {
            assert(kv0[i as int] == key@);
            assert(kv0.contains(key@));
            assert(kv0.to_set() =~= kv0.to_set().insert(key@));
        }
        return ;
    }
    let ghost at = i as int;
    keys.insert(i, key.clone());
    proof {
        let kv1 = keys@.map_values(|s: String| s@);
        assert(kv1 =~= kv0.insert(at, key@));
        assert(kv1[at] == key@);
        assert forall|a: int| 0 <= a < kv1.len() implies (if a < at {
            kv1[a] == kv0[a]
        } else if a == at {
            kv1[a] == key@
        } else {
            kv1[a] == kv0[a - 1]
        }) by {}
        assert forall|a: int, b: int| 0 <= a < b < kv1.len() implies lex_leq(kv1[a], kv1[b]) by {
            lemma_sorted_insert_pair(kv0, key@, at, a, b);
        }
        assert forall|a: int, b: int|
            0 <= a < kv1.len() && 0 <= b < kv1.len() && a != b implies kv1[a] != kv1[b] by {
            if a < b {
                lemma_distinct_insert_pair(kv0, key@, at, a, b);
            } else {
                lemma_distinct_insert_pair(kv0, key@, at, b, a);
            }
        }
        assert forall|x: Seq<char>|
            kv1.to_set().contains(x) <==> kv0.to_set().contains(x) || x == key@ by {
            if kv1.contains(x) && x != key@ {
                let idx = choose|idx: int| 0 <= idx < kv1.len() && kv1[idx] == x;
                if idx < at {
                    assert(kv0[idx] == x);
                } else {
                    assert(kv0[idx - 1] == x);
                }
                assert(kv0.contains(x));
            }
            if kv0.contains(x) {
                let idx = choose|idx: int| 0 <= idx < kv0.len() && kv0[idx] == x;
                if idx < at {
                    assert(kv1[idx] == x);
                } else {
                    assert(kv1[idx + 1] == x);
                }
                assert(kv1.contains(x));
            }
            assert(kv1[at] == key@);
            assert(kv1.contains(key@));
        }
        assert(kv1.to_set() =~= kv0.to_set().insert(key@));
    }
}

/// Appending an element inserts it into the sequence's set of elements.
proof fn lemma_push_to_set<A>(s: Seq<A>, v: A)
    ensures
        s.push(v).to_set() == s.to_set().insert(v),
{
    let t = s.push(v);
    assert forall|x: A| t.to_set().contains(x) <==> s.to_set().contains(x) || x == v by {
        if t.contains(x) && x != v {
            let idx = choose|idx: int| 0 <= idx < t.len() && t[idx] == x;
            assert(s[idx] == x);
            assert(s.contains(x));
        }
        if s.contains(x) {
            let idx = choose|idx: int| 0 <= idx < s.len() && s[idx] == x;
            assert(t[idx] == x);
            assert(t.contains(x));
        }
        assert(t[s.len() as int] == v);
        assert(t.contains(v));
    }
    assert(t.to_set() =~= s.to_set().insert(v));
}

/// Builds the nested template document from the property map. Returns the
/// document and the dotted keys whose insertion conflicted, in ascending
/// order. The result is a function of the property map's contents alone:
/// it does not depend on the order in which the map was filled.
pub fn build_template_model(data: PropertyMap) -> (r: (TemplateNode, Vec<String>))
    ensures
        node_wf(r.0),
        node_view(r.0) == built_doc(data@),
        r.1@.map_values(|s: String| s@) == built_conflicts(data@),
{
    let mut keys: Vec<String> = Vec::new();
    let total = data.entry_count();
    let mut idx: usize = 0;
    proof {
        assert(keys@.map_values(|s: String| s@) =~= Seq::<Seq<char>>::empty());
        assert(data.key_seq().take(0) =~= Seq::<Seq<char>>::empty());
        assert(Seq::<Seq<char>>::empty().to_set() =~= Set::<Seq<char>>::empty());
        assert(keys@.map_values(|s: String| s@).to_set() =~= Set::<Seq<char>>::empty());
    }
    while idx < total
        invariant
            idx <= total,
            total == data.key_seq().len(),
            sorted_by(keys@.map_values(|s: String| s@), lex_leq_fn()),
            keys@.map_values(|s: String| s@).no_duplicates(),
            keys@.map_values(|s: String| s@).to_set() == data.key_seq().take(
                idx as int,
            ).to_set(),
        decreases total - idx,
    {
        let k = data.key_at(idx);
        sorted_insert_key(&mut keys, k);
        proof {
            assert(data.key_seq().take(idx + 1) =~= data.key_seq().take(idx as int).push(
                data.key_seq()[idx as int],
            ));
            lemma_push_to_set(data.key_seq().take(idx as int), data.key_seq()[idx as int]);
        }
        idx = idx + 1;
    }
    let ghost kv = keys@.map_values(|s: String| s@);
    proof {
        assert(data.key_seq().take(total as int) =~= data.key_seq());
        data.lemma_keys_in_dom();
        assert forall|x: Seq<char>| kv.to_set().contains(x) <==> data@.contains_key(x) by {
            if data.key_seq().to_set().contains(x) {
                let i = choose|i: int|
                    0 <= i < data.key_seq().len() && data.key_seq()[i] == x;
                assert(data@.contains_key(data.key_seq()[i]));
            }
            if data@.contains_key(x) {
                assert(data.key_seq().contains(x));
            }
        }
        assert(kv.to_set() =~= data@.dom());
        assert(is_canonical_key_seq(data@, kv));
        assert(is_canonical_key_seq(data@, sorted_keys_of(data@)));
        lemma_build_deterministic(data@, kv, sorted_keys_of(data@));
        assert(kv == sorted_keys_of(data@));
    }
    let mut doc = TemplateNode::Object(Vec::new());
    let mut conflicts: Vec<String> = Vec::new();
    let mut i: usize = 0;
    proof {
        assert(kv.take(0) =~= Seq::<Seq<char>>::empty());
        assert(node_view(doc) == DocValue::Object(object_view(
            Seq::<(String, TemplateNode)>::empty(),
        )));
        assert(member_keys(Seq::<(String, TemplateNode)>::empty()) =~= Seq::<Seq<char>>::empty());
        assert(node_wf(doc));
        assert(conflicts@.map_values(|s: String| s@) =~= Seq::<Seq<char>>::empty());
    }
    while i < keys.len()
        invariant
            i <= keys@.len(),
            keys@.map_values(|s: String| s@) == kv,
            kv == sorted_keys_of(data@),
            kv.to_set() == data@.dom(),
            node_wf(doc),
            node_view(doc) == build_steps(data@, kv.take(i as int)).0,
            conflicts@.map_values(|s: String| s@) == build_steps(data@, kv.take(i as int)).1,
        decreases keys@.len() - i,
    {
        let key_string: &String = &keys[i];
        let parts = split_dotted_key(key_string.as_str());
        proof {
            assert(kv[i as int] == key_string@);
            assert(kv.contains(kv[i as int]));
            assert(kv.to_set().contains(kv[i as int]));
            assert(data@.contains_key(key_string@));
        }
        let value = match data.get(key_string.as_str()) {
            Some(v) => v,
            None => vstd::pervasive::unreached(),
        };
        let ghost prior = build_steps(data@, kv.take(i as int));
        let ghost prior_conflicts = conflicts@.map_values(|s: String| s@);
        let (doc2, ok) = insert_with_path(doc, &parts, 0, value);
        doc = doc2;
        proof {
            assert(parts@.map_values(|s: String| s@).skip(0) =~= split_key(kv[i as int]));
            assert(kv.take(i + 1).drop_last() =~= kv.take(i as int));
            assert(kv.take(i + 1).last() == kv[i as int]);
            assert(value@ == data@[kv[i as int]]);
        }
        if !ok {
            conflicts.push(key_string.clone());
            proof {
                assert(conflicts@.map_values(|s: String| s@) =~= prior_conflicts.push(
                    kv[i as int],
                ));
            }
        }
        i = i + 1;
    }
    proof {
        assert(kv.take(keys@.len() as int) =~= kv);
    }
    (doc, conflicts)
}

/// Order of any pair after inserting `k` at the boundary position `at`.
proof fn lemma_sorted_insert_pair(kv0: Seq<Seq<char>>, k: Seq<char>, at: int, a: int, b: int)
    requires
        sorted_by(kv0, lex_leq_fn()),
        0 <= at <= kv0.len(),
        forall|j: int| 0 <= j < at ==> lex_leq(#[trigger] kv0[j], k),
        at < kv0.len() ==> lex_leq(k, kv0[at]),
        0 <= a < b < kv0.insert(at, k).len(),
    ensures
        lex_leq(kv0.insert(at, k)[a], kv0.insert(at, k)[b]),
{
    let kv1 = kv0.insert(at, k);
    let leq = lex_leq_fn();
    if a < at && b < at {
        assert(leq(kv0[a], kv0[b]));
    } else if a < at && b == at {
        assert(lex_leq(kv0[a], k));
    } else if a < at {
        assert(leq(kv0[a], kv0[b - 1]));
    } else if a == at && b > at {
        if at < kv0.len() {
            if b - 1 == at {
                assert(lex_leq(k, kv0[at]));
            } else {
                assert(leq(kv0[at], kv0[b - 1]));
                lemma_lex_leq_transitive(k, kv0[at], kv0[b - 1]);
            }
        }
    } else {
        assert(leq(kv0[a - 1], kv0[b - 1]));
    }
}

/// Distinctness of any pair after inserting a fresh `k` at the boundary.
proof fn lemma_distinct_insert_pair(kv0: Seq<Seq<char>>, k: Seq<char>, at: int, a: int, b: int)
    requires
        sorted_by(kv0, lex_leq_fn()),
        kv0.no_duplicates(),
        0 <= at <= kv0.len(),
        forall|j: int| 0 <= j < at ==> lex_leq(#[trigger] kv0[j], k) && kv0[j] != k,
        at < kv0.len() ==> lex_leq(k, kv0[at]) && kv0[at] != k,
        0 <= a < b < kv0.insert(at, k).len(),
    ensures
        kv0.insert(at, k)[a] != kv0.insert(at, k)[b],
{
    let kv1 = kv0.insert(at, k);
    let leq = lex_leq_fn();
    if a < at && b < at {
    } else if a < at && b == at {
    } else if a < at {
    } else if a == at && b > at {
        if b - 1 > at {
            if kv0[b - 1] == k {
                assert(leq(kv0[at], kv0[b - 1]));
                lemma_lex_leq_antisymmetric(k, kv0[at]);
            }
        }
    } else {
    }
}

} // verus!
