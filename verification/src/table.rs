//! The path table: a listing of every leaf of a completed tree together with
//! its root-to-leaf path, used as a bidirectional value/path mapping when the
//! caller requests acceleration.
//!
//! The table is an association list looked up by its first matching entry;
//! for the trees this crate synthesizes the keys are unique, so the lookup is
//! the mapping itself.

use vstd::prelude::*;
use crate::tree::{
    NodeModel, NodeType, Tree, TreeModel, bits_eq, bools_to_vec, copy_bits, path_value,
    slot_find, tree_find,
};

verus! {

/// The (path, leaf value) pairs below one slot, depth first, head before
/// tail; `path` is the root-to-slot prefix extended by the slot's branch bit.
pub open spec fn slot_entries(n: NodeModel, path: Seq<bool>) -> Seq<(Seq<bool>, Seq<bool>)>
    decreases n,
{
    match n {
        NodeModel::Value(v) => seq![(path, v)],
        NodeModel::Tree(sub) => tree_entries(*sub, path),
        _ => Seq::empty(),
    }
}

/// The (path, leaf value) pairs of the tree under a path prefix, depth
/// first, head before tail.
pub open spec fn tree_entries(t: TreeModel, prefix: Seq<bool>) -> Seq<(Seq<bool>, Seq<bool>)>
    decreases t,
{
    slot_entries(t.head, prefix.push(false)) + slot_entries(t.tail, prefix.push(true))
}

/// Swaps key and value in every entry.
pub open spec fn flip_entries(es: Seq<(Seq<bool>, Seq<bool>)>) -> Seq<(Seq<bool>, Seq<bool>)> {
    Seq::new(es.len(), |i: int| (es[i].1, es[i].0))
}

/// The mathematical value of an executable entry list.
pub open spec fn pairs_view(s: Seq<(Vec<bool>, Vec<bool>)>) -> Seq<(Seq<bool>, Seq<bool>)> {
    Seq::new(s.len(), |i: int| (s[i].0@, s[i].1@))
}

/// The first value whose key equals `key`, if any.
pub open spec fn entries_get(es: Seq<(Seq<bool>, Seq<bool>)>, key: Seq<bool>) -> Option<Seq<bool>>
    decreases es.len(),
{
    if es.len() == 0 {
        None
    } else if es[0].0 == key {
        Some(es[0].1)
    } else {
        entries_get(es.drop_first(), key)
    }
}

fn lookup_node(n: &NodeType, path: &Vec<bool>, compressing: bool) -> (r: Vec<
    (Vec<bool>, Vec<bool>),
>)
    ensures
        pairs_view(r@) == (if compressing {
            flip_entries(slot_entries(n@, path@))
        } else {
            slot_entries(n@, path@)
        }),
    decreases n,
{
    match n {
        NodeType::Value(v) => {
            let mut r: Vec<(Vec<bool>, Vec<bool>)> = Vec::new();
            if compressing {
                r.push((copy_bits(v), copy_bits(path)));
            } else {
                r.push((copy_bits(path), copy_bits(v)));
            }
            proof {
                if compressing {
                    assert(pairs_view(r@) =~= flip_entries(slot_entries(n@, path@)));
                } else {
                    assert(pairs_view(r@) =~= slot_entries(n@, path@));
                }
            }
            r
        },
        NodeType::Tree(sub) => lookup_tree(sub, path.as_slice(), compressing),
        _ => Vec::new(),
    }
}

/// Builds the path table of the tree below the given path prefix: every
/// (path, value) pair in depth-first order, or every (value, path) pair when
/// `compressing` is set.
pub fn lookup_tree(tree: &Tree, path: &[bool], compressing: bool) -> (r: Vec<
    (Vec<bool>, Vec<bool>),
>)
    ensures
        pairs_view(r@) == (if compressing {
            flip_entries(tree_entries(tree@, path@))
        } else {
            tree_entries(tree@, path@)
        }),
    decreases tree,
{
    let mut head_path = bools_to_vec(path);
    head_path.push(false);
    let mut r = lookup_node(&tree.head, &head_path, compressing);
    let mut tail_path = bools_to_vec(path);
    tail_path.push(true);
    let mut tail_entries = lookup_node(&tree.tail, &tail_path, compressing);
    r.append(&mut tail_entries);
    proof {
        let eh = slot_entries(tree@.head, path@.push(false));
        let et = slot_entries(tree@.tail, path@.push(true));
        if compressing {
            assert(flip_entries(eh + et) =~= flip_entries(eh) + flip_entries(et));
            assert(pairs_view(r@) =~= flip_entries(eh) + flip_entries(et));
        } else {
            assert(pairs_view(r@) =~= tree_entries(tree@, path@));
        }
    }
    r
}

/// A lookup in a concatenation takes the first list's hit when it has one.
pub proof fn lemma_entries_get_concat(
    a: Seq<(Seq<bool>, Seq<bool>)>,
    b: Seq<(Seq<bool>, Seq<bool>)>,
    key: Seq<bool>,
)
    ensures
        entries_get(a + b, key) == (if entries_get(a, key) is Some {
            entries_get(a, key)
        } else {
            entries_get(b, key)
        }),
    decreases a.len(),
{
    if a.len() == 0 {
        assert(a + b =~= b);
    } else {
        assert((a + b)[0] == a[0]);
        assert((a + b).drop_first() =~= a.drop_first() + b);
        lemma_entries_get_concat(a.drop_first(), b, key);
    }
}

/// A lookup misses when no key matches.
pub proof fn lemma_entries_get_none(es: Seq<(Seq<bool>, Seq<bool>)>, key: Seq<bool>)
    requires
        forall|j: int| 0 <= j < es.len() ==> es[j].0 != key,
    ensures
        entries_get(es, key) is None,
    decreases es.len(),
{
    if es.len() > 0 {
        lemma_entries_get_none(es.drop_first(), key);
    }
}

/// Every key below a slot extends the slot's path prefix.
pub proof fn lemma_slot_keys_extend(n: NodeModel, path: Seq<bool>)
    ensures
        forall|j: int|
            0 <= j < slot_entries(n, path).len() ==> (#[trigger] slot_entries(n, path)[j]).0.len()
                >= path.len() && slot_entries(n, path)[j].0.take(path.len() as int) == path,
    decreases n,
{
    match n {
        NodeModel::Value(v) => {
            assert(slot_entries(n, path) == seq![(path, v)]);
            assert(slot_entries(n, path)[0] == (path, v));
            assert(slot_entries(n, path)[0].0.take(path.len() as int) =~= path);
        },
        NodeModel::Tree(sub) => {
            lemma_tree_keys_extend(*sub, path);
            assert(slot_entries(n, path) == tree_entries(*sub, path));
            assert forall|j: int| 0 <= j < slot_entries(n, path).len() implies (
            #[trigger] slot_entries(n, path)[j]).0.len() >= path.len() && slot_entries(
                n,
                path,
            )[j].0.take(path.len() as int) == path by {
                assert(slot_entries(n, path)[j] == tree_entries(*sub, path)[j]);
            }
        },
        _ => {
            assert(slot_entries(n, path) =~= Seq::<(Seq<bool>, Seq<bool>)>::empty());
        },
    }
}

/// Every key of a tree's entries extends the tree's path prefix.
pub proof fn lemma_tree_keys_extend(t: TreeModel, prefix: Seq<bool>)
    ensures
        forall|j: int|
            0 <= j < tree_entries(t, prefix).len() ==> (#[trigger] tree_entries(
                t,
                prefix,
            )[j]).0.len() > prefix.len() && tree_entries(t, prefix)[j].0.take(
                prefix.len() as int,
            ) == prefix,
    decreases t,
{
    lemma_slot_keys_extend(t.head, prefix.push(false));
    lemma_slot_keys_extend(t.tail, prefix.push(true));
    let eh = slot_entries(t.head, prefix.push(false));
    let et = slot_entries(t.tail, prefix.push(true));
    assert forall|j: int| 0 <= j < tree_entries(t, prefix).len() implies (#[trigger] tree_entries(
        t,
        prefix,
    )[j]).0.len() > prefix.len() && tree_entries(t, prefix)[j].0.take(prefix.len() as int)
        == prefix by {
        let e = tree_entries(t, prefix)[j];
        if j < eh.len() {
            assert(e == eh[j]);
            assert(e.0.take(prefix.push(false).len() as int) == prefix.push(false));
            assert(e.0.take(prefix.len() as int) =~= prefix);
        } else {
            assert(e == et[j - eh.len()]);
            assert(e.0.take(prefix.push(true).len() as int) == prefix.push(true));
            assert(e.0.take(prefix.len() as int) =~= prefix);
        }
    }
}

/// In the value-keyed table, looking a chunk up finds the same path as the
/// depth-first tree search, below the slot's prefix.
pub proof fn lemma_slot_flip_get(n: NodeModel, path: Seq<bool>, chunk: Seq<bool>)
    ensures
        entries_get(flip_entries(slot_entries(n, path)), chunk) == (match slot_find(n, chunk) {
            Some(p) => Some(path + p),
            None => None,
        }),
    decreases n,
{
    match n {
        NodeModel::Value(v) => {
            assert(slot_entries(n, path) == seq![(path, v)]);
            let es = flip_entries(slot_entries(n, path));
            assert(es.len() == 1);
            assert(es[0] == (v, path));
            if v == chunk {
                assert(slot_find(n, chunk) == Some(Seq::<bool>::empty()));
                assert(entries_get(es, chunk) == Some(path));
                assert(path + Seq::<bool>::empty() =~= path);
            } else {
                assert(slot_find(n, chunk) is None);
                assert(es.drop_first() =~= Seq::<(Seq<bool>, Seq<bool>)>::empty());
                assert(entries_get(es.drop_first(), chunk) is None);
                assert(entries_get(es, chunk) is None);
            }
        },
        NodeModel::Tree(sub) => {
            lemma_tree_flip_get(*sub, path, chunk);
            assert(slot_entries(n, path) == tree_entries(*sub, path));
            assert(slot_find(n, chunk) == tree_find(*sub, chunk));
        },
        _ => {
            assert(slot_entries(n, path) =~= Seq::<(Seq<bool>, Seq<bool>)>::empty());
            assert(flip_entries(slot_entries(n, path)) =~= Seq::<
                (Seq<bool>, Seq<bool>),
            >::empty());
            assert(slot_find(n, chunk) is None);
        },
    }
}

/// In the value-keyed table, looking a chunk up finds the same path as the
/// depth-first tree search.
pub proof fn lemma_tree_flip_get(t: TreeModel, prefix: Seq<bool>, chunk: Seq<bool>)
    ensures
        entries_get(flip_entries(tree_entries(t, prefix)), chunk) == (match tree_find(t, chunk) {
            Some(p) => Some(prefix + p),
            None => None,
        }),
    decreases t,
{
    let eh = slot_entries(t.head, prefix.push(false));
    let et = slot_entries(t.tail, prefix.push(true));
    assert(flip_entries(eh + et) =~= flip_entries(eh) + flip_entries(et));
    lemma_entries_get_concat(flip_entries(eh), flip_entries(et), chunk);
    lemma_slot_flip_get(t.head, prefix.push(false), chunk);
    lemma_slot_flip_get(t.tail, prefix.push(true), chunk);
    match slot_find(t.head, chunk) {
        Some(p) => {
            assert(prefix.push(false) + p =~= prefix + (seq![false] + p));
        },
        None => {
            match slot_find(t.tail, chunk) {
                Some(p) => {
                    assert(prefix.push(true) + p =~= prefix + (seq![true] + p));
                },
                None => {},
            }
        },
    }
}

/// In the path-keyed table, a slot's entries answer exactly the exact-path
/// queries through that slot.
pub proof fn lemma_slot_get_path(n: NodeModel, path: Seq<bool>, q: Seq<bool>)
    ensures
        entries_get(slot_entries(n, path), path + q) == (match n {
            NodeModel::Value(v) => if q.len() == 0 {
                Some(v)
            } else {
                None
            },
            NodeModel::Tree(sub) => path_value(*sub, q),
            _ => None,
        }),
    decreases n,
{
    match n {
        NodeModel::Value(v) => {
            let es = slot_entries(n, path);
            assert(es == seq![(path, v)]);
            assert(es[0] == (path, v));
            if q.len() == 0 {
                assert(path + q =~= path);
                assert(entries_get(es, path + q) == Some(v));
            } else {
                assert(path + q != path) by {
                    assert((path + q).len() > path.len());
                }
                assert(es.drop_first() =~= Seq::<(Seq<bool>, Seq<bool>)>::empty());
                assert(entries_get(es.drop_first(), path + q) is None);
                assert(entries_get(es, path + q) is None);
            }
        },
        NodeModel::Tree(sub) => {
            lemma_tree_get_path(*sub, path, q);
            assert(slot_entries(n, path) == tree_entries(*sub, path));
        },
        _ => {
            assert(slot_entries(n, path) =~= Seq::<(Seq<bool>, Seq<bool>)>::empty());
        },
    }
}

/// In the path-keyed table, looking up the prefix extended by `q` returns
/// the leaf value at exactly `q` in the tree.
pub proof fn lemma_tree_get_path(t: TreeModel, prefix: Seq<bool>, q: Seq<bool>)
    ensures
        entries_get(tree_entries(t, prefix), prefix + q) == path_value(t, q),
    decreases t,
{
    let eh = slot_entries(t.head, prefix.push(false));
    let et = slot_entries(t.tail, prefix.push(true));
    lemma_entries_get_concat(eh, et, prefix + q);
    lemma_slot_keys_extend(t.head, prefix.push(false));
    lemma_slot_keys_extend(t.tail, prefix.push(true));
    if q.len() == 0 {
        assert(prefix + q =~= prefix);
        assert forall|j: int| 0 <= j < eh.len() implies (#[trigger] eh[j]).0 != prefix + q by {
            assert(eh[j].0.len() >= prefix.len() + 1);
        }
        assert forall|j: int| 0 <= j < et.len() implies (#[trigger] et[j]).0 != prefix + q by {
            assert(et[j].0.len() >= prefix.len() + 1);
        }
        lemma_entries_get_none(eh, prefix + q);
        lemma_entries_get_none(et, prefix + q);
    } else if !q[0] {
        assert(prefix + q =~= prefix.push(false) + q.drop_first());
        lemma_slot_get_path(t.head, prefix.push(false), q.drop_first());
        assert forall|j: int| 0 <= j < et.len() implies (#[trigger] et[j]).0 != prefix + q by {
            if et[j].0 == prefix + q {
                assert(et[j].0.take(prefix.push(true).len() as int) == prefix.push(true));
                assert((prefix + q).take(prefix.len() as int + 1)[prefix.len() as int] == false);
                assert(prefix.push(true)[prefix.len() as int] == true);
            }
        }
        lemma_entries_get_none(et, prefix + q);
        match t.head {
            NodeModel::Value(v) => {
                if q.len() == 1 {
                    assert(path_value(t, q) == Some(v));
                } else {
                    assert(path_value(t, q) is None);
                }
            },
            NodeModel::Tree(sub) => {
                assert(path_value(t, q) == (if q.len() > 1 {
                    path_value(*sub, q.drop_first())
                } else {
                    Option::<Seq<bool>>::None
                }));
                if q.len() == 1 {
                    assert(q.drop_first().len() == 0);
                    assert(path_value(*sub, q.drop_first()) is None);
                }
            },
            _ => {},
        }
    } else {
        assert(prefix + q =~= prefix.push(true) + q.drop_first());
        lemma_slot_get_path(t.tail, prefix.push(true), q.drop_first());
        assert forall|j: int| 0 <= j < eh.len() implies (#[trigger] eh[j]).0 != prefix + q by {
            if eh[j].0 == prefix + q {
                assert(eh[j].0.take(prefix.push(false).len() as int) == prefix.push(false));
                assert((prefix + q).take(prefix.len() as int + 1)[prefix.len() as int] == true);
                assert(prefix.push(false)[prefix.len() as int] == false);
            }
        }
        lemma_entries_get_none(eh, prefix + q);
        match t.tail {
            NodeModel::Value(v) => {
                if q.len() == 1 {
                    assert(path_value(t, q) == Some(v));
                } else {
                    assert(path_value(t, q) is None);
                }
            },
            NodeModel::Tree(sub) => {
                assert(path_value(t, q) == (if q.len() > 1 {
                    path_value(*sub, q.drop_first())
                } else {
                    Option::<Seq<bool>>::None
                }));
                if q.len() == 1 {
                    assert(q.drop_first().len() == 0);
                    assert(path_value(*sub, q.drop_first()) is None);
                }
            },
            _ => {},
        }
    }
}

/// Looks a key up in a path table: the first entry whose key matches.
pub fn table_get(table: &Vec<(Vec<bool>, Vec<bool>)>, key: &Vec<bool>) -> (r: Option<Vec<bool>>)
    ensures
        match r {
            Some(v) => entries_get(pairs_view(table@), key@) == Some(v@),
            None => entries_get(pairs_view(table@), key@) is None,
        },
{
    let mut i: usize = 0;
    proof {
        assert(pairs_view(table@).skip(0) =~= pairs_view(table@));
    }
    while i < table.len()
        invariant
            i <= table.len(),
            entries_get(pairs_view(table@), key@) == entries_get(
                pairs_view(table@).skip(i as int),
                key@,
            ),
        decreases table.len() - i,
    {
        let hit: bool = bits_eq(&table[i].0, key.as_slice());
        proof {
            let tv = pairs_view(table@);
            assert(tv.skip(i as int)[0] == (table@[i as int].0@, table@[i as int].1@));
        }
        if hit {
            return Some(copy_bits(&table[i].1));
        }
        proof {
            assert(pairs_view(table@).skip(i as int).drop_first() =~= pairs_view(table@).skip(
                i + 1,
            ));
        }
        i = i + 1;
    }
    proof {
        assert(pairs_view(table@).skip(table@.len() as int) =~= Seq::<
            (Seq<bool>, Seq<bool>),
        >::empty());
    }
    None
}

} // verus!
