//! The key-path nester: expands a flat mapping with dotted keys into a tree.
//! Each key is split on `.`; every segment but the last selects (or creates)
//! an internal node, and the last holds a leaf with the value. A key whose
//! path runs through an existing leaf, or ends on an already occupied slot,
//! is a conflict and fails rather than aborting the process.

use crate::parser::ConfigMap;
use crate::strmap::{assoc_find, distinct_keys, lemma_assoc_find_is, lemma_assoc_find_none,
    lemma_assoc_find_props, lemma_assoc_find_push, lemma_assoc_find_same_keys};
use crate::text::{lemma_split_at_char_len, lemma_split_injective, split_at_char, split_str,
    str_eq};
use vstd::prelude::*;

verus! {

/// A node of the nested configuration tree: a terminal string value, or an
/// internal node mapping path segments to children (segments unique).
#[derive(Debug, PartialEq, Eq)]
pub enum NestedNode {
    Leaf(String),
    Internal(Vec<(String, NestedNode)>),
}

/// A conflict while nesting: the dotted key whose insertion failed, and how.
#[derive(Debug, PartialEq, Eq)]
pub enum NestError {
    /// The key's whole path landed on a slot that already holds a node, so a
    /// leaf would overwrite it.
    LeafOverwrite { key: String },
    /// An intermediate segment of the key's path ran into a leaf where an
    /// internal node was expected.
    InternalPathExpected { key: String },
}

/// How a single insertion conflicts.
#[derive(Clone, Copy, PartialEq, Eq, Structural)]
pub enum NestConflict {
    LeafOverwrite,
    InternalPathExpected,
}

/// The children of an internal node, keys taken to their views.
pub open spec fn kids_kv(ch: Seq<(String, NestedNode)>) -> Seq<(Seq<char>, NestedNode)> {
    ch.map_values(|p: (String, NestedNode)| (p.0@, p.1))
}

/// Well-formed tree: every internal node's segments are unique.
pub open spec fn node_wf(node: NestedNode) -> bool
    decreases node,
{
    match node {
        NestedNode::Leaf(_) => true,
        NestedNode::Internal(ch) => distinct_keys(kids_kv(ch@)) && forall|i: int|
            0 <= i < ch@.len() ==> node_wf(#[trigger] ch@[i].1),
    }
}

/// The value of the leaf reached by walking `path` from `node`, if any.
pub open spec fn spec_lookup(node: NestedNode, path: Seq<Seq<char>>) -> Option<Seq<char>>
    decreases node,
{
    match node {
        NestedNode::Leaf(v) => if path.len() == 0 {
            Some(v@)
        } else {
            None
        },
        NestedNode::Internal(ch) => {
            if path.len() == 0 {
                None
            } else {
                let i = assoc_find(kids_kv(ch@), path[0]);
                if 0 <= i < ch@.len() {
                    spec_lookup(ch@[i].1, path.drop_first())
                } else {
                    None
                }
            }
        },
    }
}

/// The node sitting at `path`, if any.
pub open spec fn spec_node_at(node: NestedNode, path: Seq<Seq<char>>) -> Option<NestedNode>
    decreases node,
{
    if path.len() == 0 {
        Some(node)
    } else {
        match node {
            NestedNode::Leaf(_) => None,
            NestedNode::Internal(ch) => {
                let i = assoc_find(kids_kv(ch@), path[0]);
                if 0 <= i < ch@.len() {
                    spec_node_at(ch@[i].1, path.drop_first())
                } else {
                    None
                }
            },
        }
    }
}

/// `q` is an initial run of `p`'s segments (possibly all of them).
pub open spec fn is_path_prefix(q: Seq<Seq<char>>, p: Seq<Seq<char>>) -> bool {
    q.len() <= p.len() && q == p.take(q.len() as int)
}

/// A single chain of internal nodes for the segments `path[from..]`, ending
/// in a leaf with `value`.
fn build_chain(path: &Vec<String>, from: usize, value: String) -> (n: NestedNode)
    requires
        from <= path@.len(),
    ensures
        node_wf(n),
        forall|q: Seq<Seq<char>>| #[trigger]
            spec_lookup(n, q) == (if q == path.deep_view().skip(from as int) {
                Some(value@)
            } else {
                None::<Seq<char>>
            }),
        forall|q: Seq<Seq<char>>|
            (#[trigger] spec_node_at(n, q) is Some) == is_path_prefix(
                q,
                path.deep_view().skip(from as int),
            ),
    decreases path@.len() - from,
{
    let ghost suffix = path.deep_view().skip(from as int);
    if from == path.len() {
        let n = NestedNode::Leaf(value);
        proof {
            assert(suffix =~= Seq::<Seq<char>>::empty());
            assert forall|q: Seq<Seq<char>>| (#[trigger] spec_node_at(n, q) is Some)
                == is_path_prefix(q, suffix) by {
                if q.len() == 0 {
                    assert(q =~= suffix.take(0));
                }
            }
            assert forall|q: Seq<Seq<char>>| #[trigger]
                spec_lookup(n, q) == (if q == suffix {
                    Some(value@)
                } else {
                    None::<Seq<char>>
                }) by {
                if q.len() == 0 {
                    assert(q =~= suffix);
                }
            }
        }
        n
    } else {
        let seg = path[from].clone();
        let child = build_chain(path, from + 1, value);
        let ghost sub = path.deep_view().skip(from as int + 1);
        let mut kids: Vec<(String, NestedNode)> = Vec::new();
        kids.push((seg, child));
        let n = NestedNode::Internal(kids);
        proof {
            let kv = kids_kv(kids@);
            assert(kv.len() == 1);
            assert(kv[0].0 == path.deep_view()[from as int]);
            assert(kv[0].1 == child);
            assert(suffix.len() == path.deep_view().len() - from);
            assert(suffix[0] == path.deep_view()[from as int]);
            assert(suffix.drop_first() =~= sub);
            assert forall|q: Seq<Seq<char>>| #[trigger]
                spec_lookup(n, q) == (if q == suffix {
                    Some(value@)
                } else {
                    None::<Seq<char>>
                }) by {
                if q.len() == 0 {
                } else {
                    if q[0] == suffix[0] {
                        lemma_assoc_find_is(kv, q[0], 0);
                        assert(spec_lookup(n, q) == spec_lookup(child, q.drop_first()));
                        if q == suffix {
                            assert(q.drop_first() =~= sub);
                        } else {
                            assert(q.drop_first() != sub) by {
                                if q.drop_first() == sub {
                                    assert forall|i: int| 0 <= i < q.len() implies q[i]
                                        == suffix[i] by {
                                        if i > 0 {
                                            assert(q.drop_first()[i - 1] == sub[i - 1]);
                                            assert(suffix.drop_first()[i - 1] == suffix[i]);
                                        }
                                    }
                                    assert(q =~= suffix);
                                }
                            }
                        }
                    } else {
                        lemma_assoc_find_none(kv, q[0]);
                        assert(q != suffix);
                    }
                }
            }
            assert forall|q: Seq<Seq<char>>| (#[trigger] spec_node_at(n, q) is Some)
                == is_path_prefix(q, suffix) by {
                if q.len() == 0 {
                    assert(q =~= suffix.take(0));
                } else {
                    if q[0] == suffix[0] {
                        lemma_assoc_find_is(kv, q[0], 0);
                        assert(spec_node_at(n, q) == spec_node_at(child, q.drop_first()));
                        assert((spec_node_at(child, q.drop_first()) is Some) == is_path_prefix(
                            q.drop_first(),
                            sub,
                        ));
                        if is_path_prefix(q.drop_first(), sub) {
                            assert(q.len() <= suffix.len());
                            assert forall|i: int| 0 <= i < q.len() implies q[i] == suffix.take(
                                q.len() as int,
                            )[i] by {
                                if i > 0 {
                                    assert(q.drop_first()[i - 1] == sub.take(q.len() - 1)[i - 1]);
                                    assert(sub[i - 1] == suffix[i]);
                                }
                            }
                            assert(q =~= suffix.take(q.len() as int));
                        }
                        if is_path_prefix(q, suffix) {
                            assert(q.drop_first() =~= sub.take(q.len() - 1));
                        }
                    } else {
                        lemma_assoc_find_none(kv, q[0]);
                        assert(!is_path_prefix(q, suffix)) by {
                            if is_path_prefix(q, suffix) {
                                assert(q[0] == suffix.take(q.len() as int)[0]);
                            }
                        }
                    }
                }
            }
        }
        n
    }
}

/// Inserts a leaf with `value` at the path `path[from..]` below `node`.
/// Succeeds exactly when no initial run of those segments reaches a leaf and
/// the full path's slot is free; then only that one path's lookup changes.
fn node_insert(node: NestedNode, path: &Vec<String>, from: usize, value: String) -> (r: Result<
    NestedNode,
    NestConflict,
>)
    requires
        node_wf(node),
        from < path@.len(),
    ensures
        ({
            let suffix = path.deep_view().skip(from as int);
            match r {
                Ok(n2) => {
                    &&& node_wf(n2)
                    &&& n2 is Internal == node is Internal
                    &&& forall|q: Seq<Seq<char>>| #[trigger]
                        spec_lookup(n2, q) == (if q == suffix {
                            Some(value@)
                        } else {
                            spec_lookup(node, q)
                        })
                    &&& forall|q: Seq<Seq<char>>|
                        (#[trigger] spec_node_at(n2, q) is Some) == (spec_node_at(node, q) is Some
                            || is_path_prefix(q, suffix))
                    &&& forall|l: int|
                        0 <= l < suffix.len() ==> spec_lookup(node, #[trigger] suffix.take(l))
                            is None
                    &&& spec_node_at(node, suffix) is None
                },
                Err(c) => {
                    &&& (c == NestConflict::InternalPathExpected ==> exists|l: int|
                        0 <= l < suffix.len() && spec_lookup(node, #[trigger] suffix.take(l))
                            is Some)
                    &&& (c == NestConflict::LeafOverwrite ==> spec_node_at(node, suffix) is Some)
                },
            }
        }),
    decreases path@.len() - from,
{
    let ghost suffix = path.deep_view().skip(from as int);
    proof {
        assert(suffix.len() == path.deep_view().len() - from);
        assert(suffix[0] == path.deep_view()[from as int]);
    }
    match node {
        NestedNode::Leaf(v) => {
            proof {
                assert(suffix.take(0) =~= Seq::<Seq<char>>::empty());
                assert(spec_lookup(NestedNode::Leaf(v), suffix.take(0)) == Some(v@));
            }
            Err(NestConflict::InternalPathExpected)
        },
        NestedNode::Internal(mut ch) => {
            let ghost node0 = NestedNode::Internal(ch);
            let ghost och = ch@;
            let ghost kv_o = kids_kv(och);
            let plen = path.len();
            let n = ch.len();
            let mut idx: usize = 0;
            while idx < n && !str_eq(ch[idx].0.as_str(), path[from].as_str())
                invariant
                    0 <= idx <= n == ch@.len(),
                    ch@ == och,
                    from < path@.len() == plen,
                    forall|j: int| 0 <= j < idx ==> och[j].0@ != path.deep_view()[from as int],
                decreases n - idx,
            {
                idx = idx + 1;
            }
            let ghost seg = path.deep_view()[from as int];
            proof {
                assert(forall|j: int| 0 <= j < kv_o.len() ==> kv_o[j].0 == och[j].0@ && kv_o[j].1
                    == och[j].1);
            }
            if idx < n {
                proof {
                    lemma_assoc_find_is(kv_o, seg, idx as int);
                }
                if from + 1 == plen {
                    proof {
                        assert(suffix.len() == 1);
                        assert(suffix.drop_first() =~= Seq::<Seq<char>>::empty());
                        assert(spec_node_at(och[idx as int].1, suffix.drop_first()) is Some);
                        assert(spec_node_at(node0, suffix) is Some);
                    }
                    Err(NestConflict::LeafOverwrite)
                } else {
                    let ghost sub = path.deep_view().skip(from as int + 1);
                    proof {
                        assert(sub =~= suffix.drop_first());
                    }
                    let pair = ch.remove(idx);
                    let child = pair.1;
                    let child_key = pair.0;
                    proof {
                        assert(och[idx as int].1 == child);
                        assert(node_wf(child));
                    }
                    match node_insert(child, path, from + 1, value) {
                        Err(c) => {
                            proof {
                                if c == NestConflict::InternalPathExpected {
                                    let l = choose|l: int|
                                        0 <= l < sub.len() && spec_lookup(
                                            child,
                                            #[trigger] sub.take(l),
                                        ) is Some;
                                    assert(suffix.take(l + 1).len() == l + 1);
                                    assert(suffix.take(l + 1)[0] == seg);
                                    assert(suffix.take(l + 1).drop_first() =~= sub.take(l));
                                    assert(spec_lookup(node0, suffix.take(l + 1)) == spec_lookup(
                                        child,
                                        sub.take(l),
                                    ));
                                    assert(0 <= l + 1 < suffix.len() && spec_lookup(
                                        node0,
                                        suffix.take(l + 1),
                                    ) is Some);
                                }
                                if c == NestConflict::LeafOverwrite {
                                    assert(spec_node_at(node0, suffix) == spec_node_at(child, sub));
                                }
                            }
                            Err(c)
                        },
                        Ok(c2) => {
                            ch.insert(idx, (child_key, c2));
                            let ghost nch = ch@;
                            let ghost kv_n = kids_kv(nch);
                            let n2 = NestedNode::Internal(ch);
                            proof {
                                assert(nch =~= och.update(idx as int, (och[idx as int].0, c2)));
                                assert(forall|j: int|
                                    0 <= j < nch.len() ==> nch[j].0 == och[j].0 && kv_n[j].0
                                        == och[j].0@);
                                assert(forall|j: int| j != idx && 0 <= j < nch.len() ==> nch[j]
                                    == och[j]);
                                assert forall|q0: Seq<char>| true implies assoc_find(kv_n, q0)
                                    == assoc_find(kv_o, q0) by {
                                    lemma_assoc_find_same_keys(kv_n, kv_o, q0);
                                }
                                // Well-formedness.
                                assert(node_wf(c2));
                                assert(distinct_keys(kv_n));
                                assert forall|i: int| 0 <= i < nch.len() implies node_wf(
                                    #[trigger] nch[i].1,
                                ) by {
                                    if i != idx {
                                        assert(nch[i] == och[i]);
                                    }
                                }
                                assert(node_wf(n2));
                                // Lookup update.
                                assert forall|q: Seq<Seq<char>>| #[trigger]
                                    spec_lookup(n2, q) == (if q == suffix {
                                        Some(value@)
                                    } else {
                                        spec_lookup(node0, q)
                                    }) by {
                                    if q.len() == 0 {
                                    } else {
                                        let f = assoc_find(kv_o, q[0]);
                                        lemma_assoc_find_props(kv_o, q[0]);
                                        if f == idx {
                                            assert(q[0] == seg);
                                            let qd = q.drop_first();
                                            assert(spec_lookup(n2, q) == spec_lookup(c2, qd));
                                            assert(spec_lookup(node0, q) == spec_lookup(
                                                child,
                                                qd,
                                            ));
                                            if q == suffix {
                                                assert(qd =~= sub);
                                            } else {
                                                assert(qd != sub) by {
                                                    if qd == sub {
                                                        assert forall|i: int|
                                                            0 <= i < q.len() implies q[i]
                                                            == suffix[i] by {
                                                            if i > 0 {
                                                                assert(qd[i - 1] == sub[i - 1]);
                                                                assert(suffix.drop_first()[i - 1]
                                                                    == suffix[i]);
                                                            }
                                                        }
                                                        assert(q =~= suffix);
                                                    }
                                                }
                                            }
                                        } else if f >= 0 {
                                            assert(kv_o[f].0 == q[0]);
                                            assert(q[0] != seg) by {
                                                if q[0] == seg {
                                                    assert(kv_o[f].0 == kv_o[idx as int].0);
                                                    assert(f == idx);
                                                }
                                            }
                                            assert(q != suffix);
                                            assert(nch[f] == och[f]);
                                            assert(spec_lookup(n2, q) == spec_lookup(
                                                nch[f].1,
                                                q.drop_first(),
                                            ));
                                        } else {
                                            assert(q != suffix) by {
                                                if q == suffix {
                                                    assert(q[0] == seg);
                                                    assert(kv_o[idx as int].0 == seg);
                                                }
                                            }
                                        }
                                    }
                                }
                                // Occupied-slot update.
                                assert forall|q: Seq<Seq<char>>|
                                    (#[trigger] spec_node_at(n2, q) is Some) == (spec_node_at(
                                        node0,
                                        q,
                                    ) is Some || is_path_prefix(q, suffix)) by {
                                    if q.len() == 0 {
                                        assert(q =~= suffix.take(0));
                                    } else {
                                        let f = assoc_find(kv_o, q[0]);
                                        lemma_assoc_find_props(kv_o, q[0]);
                                        let qd = q.drop_first();
                                        if f == idx {
                                            assert(q[0] == seg);
                                            assert(spec_node_at(n2, q) == spec_node_at(c2, qd));
                                            assert(spec_node_at(node0, q) == spec_node_at(
                                                child,
                                                qd,
                                            ));
                                            if is_path_prefix(qd, sub) {
                                                assert(q.len() <= suffix.len());
                                                assert forall|i: int|
                                                    0 <= i < q.len() implies q[i] == suffix.take(
                                                    q.len() as int,
                                                )[i] by {
                                                    if i > 0 {
                                                        assert(qd[i - 1] == sub.take(
                                                            q.len() - 1,
                                                        )[i - 1]);
                                                        assert(sub[i - 1] == suffix[i]);
                                                    }
                                                }
                                                assert(q =~= suffix.take(q.len() as int));
                                                assert(is_path_prefix(q, suffix));
                                            }
                                            if is_path_prefix(q, suffix) {
                                                assert(q[0] == suffix[0]);
                                                assert forall|i: int|
                                                    0 <= i < qd.len() implies qd[i] == sub.take(
                                                    qd.len() as int,
                                                )[i] by {
                                                    assert(qd[i] == q[i + 1]);
                                                    assert(q[i + 1] == suffix.take(
                                                        q.len() as int,
                                                    )[i + 1]);
                                                    assert(suffix[i + 1] == sub[i]);
                                                }
                                                assert(qd =~= sub.take(qd.len() as int));
                                                assert(is_path_prefix(qd, sub));
                                            }
                                        } else if f >= 0 {
                                            assert(kv_o[f].0 == q[0]);
                                            assert(q[0] != seg) by {
                                                if q[0] == seg {
                                                    assert(kv_o[f].0 == kv_o[idx as int].0);
                                                    assert(f == idx);
                                                }
                                            }
                                            assert(nch[f] == och[f]);
                                            assert(spec_node_at(n2, q) == spec_node_at(
                                                nch[f].1,
                                                qd,
                                            ));
                                            assert(!is_path_prefix(q, suffix)) by {
                                                if is_path_prefix(q, suffix) {
                                                    assert(q[0] == suffix.take(q.len() as int)[0]);
                                                }
                                            }
                                        } else {
                                            assert(!is_path_prefix(q, suffix)) by {
                                                if is_path_prefix(q, suffix) {
                                                    assert(q[0] == suffix.take(q.len() as int)[0]);
                                                    assert(q[0] == seg);
                                                    assert(kv_o[idx as int].0 == seg);
                                                }
                                            }
                                        }
                                    }
                                }
                                // No conflict on this node either.
                                assert forall|l: int| 0 <= l < suffix.len() implies spec_lookup(
                                    node0,
                                    #[trigger] suffix.take(l),
                                ) is None by {
                                    if l == 0 {
                                        assert(suffix.take(0) =~= Seq::<Seq<char>>::empty());
                                    } else {
                                        assert(suffix.take(l)[0] == seg);
                                        assert(suffix.take(l).drop_first() =~= sub.take(l - 1));
                                        assert(spec_lookup(node0, suffix.take(l)) == spec_lookup(
                                            child,
                                            sub.take(l - 1),
                                        ));
                                        assert(0 <= l - 1 < sub.len());
                                        assert(spec_lookup(child, sub.take(l - 1)) is None);
                                    }
                                }
                                assert(spec_node_at(node0, suffix) == spec_node_at(child, sub));
                            }
                            Ok(n2)
                        },
                    }
                }
            } else {
                proof {
                    assert forall|j: int| 0 <= j < kv_o.len() implies kv_o[j].0 != seg by {
                        assert(kv_o[j].0 == och[j].0@);
                    }
                    lemma_assoc_find_none(kv_o, seg);
                }
                let seg_owned = path[from].clone();
                let fresh = build_chain(path, from + 1, value);
                let ghost sub = path.deep_view().skip(from as int + 1);
                ch.push((seg_owned, fresh));
                let ghost nch = ch@;
                let ghost kv_n = kids_kv(nch);
                let n2 = NestedNode::Internal(ch);
                proof {
                    assert(sub =~= suffix.drop_first());
                    assert(nch =~= och.push((seg_owned, fresh)));
                    assert(forall|j: int|
                        0 <= j < och.len() ==> nch[j] == och[j] && kv_n[j] == kv_o[j]);
                    assert(kv_n[och.len() as int].0 == seg && kv_n[och.len() as int].1 == fresh);
                    assert(kv_n =~= kv_o.push((seg, fresh)));
                    assert forall|q0: Seq<char>| true implies assoc_find(kv_n, q0) == (if assoc_find(
                        kv_o,
                        q0,
                    ) >= 0 {
                        assoc_find(kv_o, q0)
                    } else if q0 == seg {
                        kv_o.len() as int
                    } else {
                        -1
                    }) by {
                        lemma_assoc_find_push(kv_o, (seg, fresh), q0);
                    }
                    // Well-formedness.
                    assert forall|i: int, j: int| 0 <= i < j < kv_n.len() implies kv_n[i].0
                        != kv_n[j].0 by {
                        if j < och.len() {
                            assert(kv_o[i].0 != kv_o[j].0);
                        } else {
                            assert(kv_n[j].0 == seg);
                            assert(kv_n[i].0 == kv_o[i].0);
                        }
                    }
                    assert forall|i: int| 0 <= i < nch.len() implies node_wf(
                        #[trigger] nch[i].1,
                    ) by {
                        if i < och.len() {
                            assert(nch[i] == och[i]);
                        }
                    }
                    assert(node_wf(n2));
                    // Lookup update.
                    assert forall|q: Seq<Seq<char>>| #[trigger]
                        spec_lookup(n2, q) == (if q == suffix {
                            Some(value@)
                        } else {
                            spec_lookup(node0, q)
                        }) by {
                        if q.len() == 0 {
                        } else {
                            let fo = assoc_find(kv_o, q[0]);
                            lemma_assoc_find_props(kv_o, q[0]);
                            let qd = q.drop_first();
                            if q[0] == seg {
                                assert(fo == -1);
                                assert(assoc_find(kv_n, q[0]) == kv_o.len() as int);
                                assert(spec_lookup(n2, q) == spec_lookup(fresh, qd));
                                assert(spec_lookup(node0, q) is None);
                                if q == suffix {
                                    assert(qd =~= sub);
                                } else {
                                    assert(qd != sub) by {
                                        if qd == sub {
                                            assert forall|i: int| 0 <= i < q.len() implies q[i]
                                                == suffix[i] by {
                                                if i > 0 {
                                                    assert(qd[i - 1] == sub[i - 1]);
                                                    assert(suffix.drop_first()[i - 1] == suffix[i]);
                                                }
                                            }
                                            assert(q =~= suffix);
                                        }
                                    }
                                }
                            } else {
                                assert(assoc_find(kv_n, q[0]) == fo);
                                assert(q != suffix);
                                if fo >= 0 {
                                    assert(nch[fo] == och[fo]);
                                    assert(spec_lookup(n2, q) == spec_lookup(nch[fo].1, qd));
                                }
                            }
                        }
                    }
                    // Occupied-slot update.
                    assert forall|q: Seq<Seq<char>>|
                        (#[trigger] spec_node_at(n2, q) is Some) == (spec_node_at(node0, q) is Some
                            || is_path_prefix(q, suffix)) by {
                        if q.len() == 0 {
                            assert(q =~= suffix.take(0));
                        } else {
                            let fo = assoc_find(kv_o, q[0]);
                            lemma_assoc_find_props(kv_o, q[0]);
                            let qd = q.drop_first();
                            if q[0] == seg {
                                assert(fo == -1);
                                assert(assoc_find(kv_n, q[0]) == kv_o.len() as int);
                                assert(spec_node_at(n2, q) == spec_node_at(fresh, qd));
                                assert(spec_node_at(node0, q) is None);
                                assert((spec_node_at(fresh, qd) is Some) == is_path_prefix(
                                    qd,
                                    sub,
                                ));
                                if is_path_prefix(qd, sub) {
                                    assert(q.len() <= suffix.len());
                                    assert forall|i: int| 0 <= i < q.len() implies q[i]
                                        == suffix.take(q.len() as int)[i] by {
                                        if i > 0 {
                                            assert(qd[i - 1] == sub.take(q.len() - 1)[i - 1]);
                                            assert(sub[i - 1] == suffix[i]);
                                        }
                                    }
                                    assert(q =~= suffix.take(q.len() as int));
                                }
                                if is_path_prefix(q, suffix) {
                                    assert(q[0] == suffix[0]);
                                    assert forall|i: int| 0 <= i < qd.len() implies qd[i]
                                        == sub.take(qd.len() as int)[i] by {
                                        assert(qd[i] == q[i + 1]);
                                        assert(q[i + 1] == suffix.take(q.len() as int)[i + 1]);
                                        assert(suffix[i + 1] == sub[i]);
                                    }
                                    assert(qd =~= sub.take(qd.len() as int));
                                }
                            } else {
                                assert(assoc_find(kv_n, q[0]) == fo);
                                assert(!is_path_prefix(q, suffix)) by {
                                    if is_path_prefix(q, suffix) {
                                        assert(q[0] == suffix.take(q.len() as int)[0]);
                                    }
                                }
                                if fo >= 0 {
                                    assert(nch[fo] == och[fo]);
                                    assert(spec_node_at(n2, q) == spec_node_at(nch[fo].1, qd));
                                }
                            }
                        }
                    }
                    // No conflict on this node.
                    assert forall|l: int| 0 <= l < suffix.len() implies spec_lookup(
                        node0,
                        #[trigger] suffix.take(l),
                    ) is None by {
                        if l == 0 {
                            assert(suffix.take(0) =~= Seq::<Seq<char>>::empty());
                        } else {
                            assert(suffix.take(l)[0] == seg);
                        }
                    }
                    assert(spec_node_at(node0, suffix) is None) by {
                        assert(suffix[0] == seg);
                    }
                }
                Ok(n2)
            }
        },
    }
}

impl NestedNode {
    /// Walks the given segments from this node to a leaf, if one is there.
    pub fn lookup_segments(&self, path: &Vec<String>) -> (r: Option<&String>)
        ensures
            match r {
                Some(v) => spec_lookup(*self, path.deep_view()) == Some(v@),
                None => spec_lookup(*self, path.deep_view()) is None,
            },
    {
        let mut cur: &NestedNode = self;
        let plen = path.len();
        let mut i: usize = 0;
        proof {
            assert(path.deep_view().skip(0) =~= path.deep_view());
        }
        while i < plen
            invariant
                0 <= i <= plen == path@.len(),
                spec_lookup(*self, path.deep_view()) == spec_lookup(
                    *cur,
                    path.deep_view().skip(i as int),
                ),
            decreases plen - i,
        {
            let ghost rest = path.deep_view().skip(i as int);
            proof {
                assert(rest.len() == plen - i);
                assert(rest[0] == path.deep_view()[i as int]);
                assert(rest.drop_first() =~= path.deep_view().skip(i as int + 1));
            }
            match cur {
                NestedNode::Leaf(_) => {
                    return None;
                },
                NestedNode::Internal(ch) => {
                    let n = ch.len();
                    let mut j: usize = 0;
                    while j < n && !str_eq(ch[j].0.as_str(), path[i].as_str())
                        invariant
                            0 <= j <= n == ch@.len(),
                            0 <= i < path@.len(),
                            forall|l: int|
                                0 <= l < j ==> ch@[l].0@ != path.deep_view()[i as int],
                        decreases n - j,
                    {
                        j = j + 1;
                    }
                    proof {
                        assert(forall|l: int|
                            0 <= l < kids_kv(ch@).len() ==> kids_kv(ch@)[l].0 == ch@[l].0@
                                && kids_kv(ch@)[l].1 == ch@[l].1);
                    }
                    if j < n {
                        proof {
                            lemma_assoc_find_is(kids_kv(ch@), rest[0], j as int);
                        }
                        cur = &ch[j].1;
                        i = i + 1;
                    } else {
                        proof {
                            lemma_assoc_find_none(kids_kv(ch@), rest[0]);
                        }
                        return None;
                    }
                },
            }
        }
        proof {
            assert(path.deep_view().skip(plen as int) =~= Seq::<Seq<char>>::empty());
        }
        match cur {
            NestedNode::Leaf(v) => Some(v),
            NestedNode::Internal(_) => None,
        }
    }

    /// Looks a dotted key up, walking one tree level per `.`-separated
    /// segment.
    pub fn lookup(&self, key: &str) -> (r: Option<&String>)
        ensures
            match r {
                Some(v) => spec_lookup(*self, split_at_char(key@, '.')) == Some(v@),
                None => spec_lookup(*self, split_at_char(key@, '.')) is None,
            },
    {
        let path = split_str(key, '.');
        self.lookup_segments(&path)
    }
}

/// Expands a flat mapping into a nested tree: each key is split on `.`, and
/// its value becomes a leaf at that path under an internal root. Succeeds
/// exactly when no key's path is a proper initial run of another's; then
/// looking any key's path up yields its value, and every leaf in the tree is
/// some key's value. On conflict, the error carries the dotted key whose
/// insertion failed.
pub fn flatten_to_nested(config: &ConfigMap) -> (r: Result<NestedNode, NestError>)
    requires
        config.wf(),
    ensures
        match r {
            Ok(t) => {
                &&& node_wf(t)
                &&& t is Internal
                &&& forall|k: Seq<char>| #[trigger]
                    config@.contains_key(k) ==> spec_lookup(t, split_at_char(k, '.')) == Some(
                        config@[k],
                    )
                &&& forall|q: Seq<Seq<char>>| #[trigger]
                    spec_lookup(t, q) is Some ==> exists|k: Seq<char>|
                        config@.contains_key(k) && split_at_char(k, '.') == q && spec_lookup(t, q)
                            == Some(config@[k])
            },
            Err(e) => exists|k1: Seq<char>, k2: Seq<char>|
                {
                    &&& config@.contains_key(k1)
                    &&& config@.contains_key(k2)
                    &&& k1 != k2
                    &&& is_path_prefix(split_at_char(k1, '.'), split_at_char(k2, '.'))
                    &&& match e {
                        NestError::InternalPathExpected { key } => key@ == k2,
                        NestError::LeafOverwrite { key } => key@ == k1,
                    }
                },
        },
{
    let ghost kv = config.kv_seq();
    proof {
        config.lemma_view_is_kv();
    }
    let mut tree = NestedNode::Internal(Vec::new());
    proof {
        let ch0 = Seq::<(String, NestedNode)>::empty();
        assert(node_wf(tree)) by {
            assert(kids_kv(ch0).len() == 0);
        }
    }
    let total = config.len();
    let mut i: usize = 0;
    while i < total
        invariant
            0 <= i <= total == kv.len(),
            config.wf(),
            kv == config.kv_seq(),
            distinct_keys(kv),
            node_wf(tree),
            tree is Internal,
            forall|j: int|
                0 <= j < i ==> spec_lookup(tree, split_at_char(#[trigger] kv[j].0, '.')) == Some(
                    kv[j].1,
                ),
            forall|q: Seq<Seq<char>>| #[trigger]
                spec_lookup(tree, q) is Some ==> exists|j: int|
                    0 <= j < i && split_at_char(kv[j].0, '.') == q,
            forall|q: Seq<Seq<char>>|
                q.len() > 0 && #[trigger] spec_node_at(tree, q) is Some ==> exists|j: int|
                    0 <= j < i && is_path_prefix(q, split_at_char(kv[j].0, '.')),
        decreases total - i,
    {
        let key: &String = config.key_at(i);
        let value: &String = config.value_at(i);
        let path: Vec<String> = split_str(key.as_str(), '.');
        let ghost p = split_at_char(kv[i as int].0, '.');
        proof {
            assert(path.deep_view() == p);
            lemma_split_at_char_len(kv[i as int].0, '.');
            assert(path@.len() >= 1);
            assert(p.skip(0) =~= p);
        }
        match node_insert(tree, &path, 0, value.clone()) {
            Ok(t2) => {
                proof {
                    // The new key reads back; earlier keys are untouched.
                    assert forall|j: int| 0 <= j <= i implies spec_lookup(
                        t2,
                        split_at_char(#[trigger] kv[j].0, '.'),
                    ) == Some(kv[j].1) by {
                        if j == i {
                            assert(spec_lookup(t2, p) == Some(value@));
                        } else {
                            let pj = split_at_char(kv[j].0, '.');
                            assert(pj != p) by {
                                if pj == p {
                                    lemma_split_injective(kv[j].0, kv[i as int].0, '.');
                                }
                            }
                            assert(spec_lookup(t2, pj) == spec_lookup(tree, pj));
                        }
                    }
                    assert forall|q: Seq<Seq<char>>| #[trigger]
                        spec_lookup(t2, q) is Some implies exists|j: int|
                        0 <= j < i + 1 && split_at_char(kv[j].0, '.') == q by {
                        if q == p {
                            assert(split_at_char(kv[i as int].0, '.') == q);
                        } else {
                            assert(spec_lookup(tree, q) is Some);
                            let j = choose|j: int|
                                0 <= j < i && split_at_char(kv[j].0, '.') == q;
                            assert(0 <= j < i + 1 && split_at_char(kv[j].0, '.') == q);
                        }
                    }
                    assert forall|q: Seq<Seq<char>>|
                        q.len() > 0 && #[trigger] spec_node_at(t2, q) is Some implies exists|j: int|
                        0 <= j < i + 1 && is_path_prefix(q, split_at_char(kv[j].0, '.')) by {
                        if spec_node_at(tree, q) is Some {
                            let j = choose|j: int|
                                0 <= j < i && is_path_prefix(q, split_at_char(kv[j].0, '.'));
                            assert(0 <= j < i + 1 && is_path_prefix(
                                q,
                                split_at_char(kv[j].0, '.'),
                            ));
                        } else {
                            assert(is_path_prefix(q, p));
                        }
                    }
                }
                tree = t2;
            },
            Err(c) => {
                proof {
                    config.lemma_kv_in_view(i as int);
                }
                match c {
                    NestConflict::InternalPathExpected => {
                        let e = NestError::InternalPathExpected { key: key.clone() };
                        proof {
                            let l = choose|l: int|
                                0 <= l < p.len() && spec_lookup(tree, #[trigger] p.take(l))
                                    is Some;
                            let j = choose|j: int|
                                0 <= j < i && split_at_char(kv[j].0, '.') == p.take(l);
                            config.lemma_kv_in_view(j);
                            let k1 = kv[j].0;
                            let k2 = kv[i as int].0;
                            assert(is_path_prefix(split_at_char(k1, '.'), p)) by {
                                assert(p.take(l).len() == l);
                                assert(p.take(l) == p.take(p.take(l).len() as int));
                            }
                            assert(k1 != k2) by {
                                if k1 == k2 {
                                    assert(split_at_char(k1, '.') == p);
                                    assert(p.take(l).len() < p.len());
                                }
                            }
                            assert(config@.contains_key(k1) && config@.contains_key(k2) && k1 != k2
                                && is_path_prefix(split_at_char(k1, '.'), split_at_char(k2, '.'))
                                && (match e {
                                NestError::InternalPathExpected { key } => key@ == k2,
                                NestError::LeafOverwrite { key } => key@ == k1,
                            }));
                        }
                        return Err(e);
                    },
                    NestConflict::LeafOverwrite => {
                        let e = NestError::LeafOverwrite { key: key.clone() };
                        proof {
                            assert(spec_node_at(tree, p) is Some);
                            assert(p.len() > 0);
                            let j = choose|j: int|
                                0 <= j < i && is_path_prefix(p, split_at_char(kv[j].0, '.'));
                            config.lemma_kv_in_view(j);
                            let k1 = kv[i as int].0;
                            let k2 = kv[j].0;
                            assert(k1 != k2);
                            assert(config@.contains_key(k1) && config@.contains_key(k2) && k1 != k2
                                && is_path_prefix(split_at_char(k1, '.'), split_at_char(k2, '.'))
                                && (match e {
                                NestError::InternalPathExpected { key } => key@ == k2,
                                NestError::LeafOverwrite { key } => key@ == k1,
                            }));
                        }
                        return Err(e);
                    },
                }
            },
        }
        i = i + 1;
    }
    proof {
        assert forall|k: Seq<char>| #[trigger] config@.contains_key(k) implies spec_lookup(
            tree,
            split_at_char(k, '.'),
        ) == Some(config@[k]) by {
            config.lemma_view_in_kv(k);
            let j = choose|j: int| 0 <= j < kv.len() && kv[j].0 == k && kv[j].1 == config@[k];
            assert(spec_lookup(tree, split_at_char(kv[j].0, '.')) == Some(kv[j].1));
        }
        assert forall|q: Seq<Seq<char>>| #[trigger] spec_lookup(tree, q) is Some implies exists|
            k: Seq<char>,
        |
            config@.contains_key(k) && split_at_char(k, '.') == q && spec_lookup(tree, q) == Some(
                config@[k],
            ) by {
            let j = choose|j: int| 0 <= j < kv.len() && split_at_char(kv[j].0, '.') == q;
            config.lemma_kv_in_view(j);
            let k = kv[j].0;
            assert(spec_lookup(tree, split_at_char(kv[j].0, '.')) == Some(kv[j].1));
            assert(config@.contains_key(k) && split_at_char(k, '.') == q && spec_lookup(tree, q)
                == Some(config@[k]));
        }
    }
    Ok(tree)
}

} // verus!
