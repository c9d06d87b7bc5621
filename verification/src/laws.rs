//! The codec's laws: the decoder's phases invert the encoder's, synthesized
//! trees are prefix-free, and a full encode round-trips through decode.

use vstd::prelude::*;
use vstd::arithmetic::power2::{pow2, lemma2_to64};
use crate::bits::{
    be_val, bits_bytes, bytes_bits, lemma_unpack_pack, lemma_val_bits_roundtrip, val_bits,
};
use crate::decode::{build_fill, build_shape, decode_spec, replay};
use crate::encode::{
    byte_count, encode_body, encode_spec, header_bits, pad_len, path_bits, payload_bits,
};
use crate::freq::{
    bump, chunk_list, falses, freq_table, key_index, lemma_chunk_at, lemma_key_index,
    lemma_zero_pad_facts, zero_pad,
};
use crate::synth::{
    candidates, insert_sorted, lemma_merge_round_len, lemma_sort_entries_len, merge_round,
    sort_entries, synth_rounds, synth_tree,
};
use crate::tree::{
    NodeKind, NodeModel, TreeModel, empty_tree_model, leaf_bits, lemma_node_construct_some,
    lemma_node_fill_some, lemma_read_is_exact, node_construct, node_contains_kind, node_fill,
    node_has_leaf, node_leaf_bits, node_shape_bits, node_wf, path_value, shape_bits,
    skeleton_node, skeleton_tree, slot_find, tree_construct, tree_contains_kind, tree_fill,
    tree_find, tree_has_leaf, tree_read, tree_wf,
};

verus! {

// ------------------------------------------------------------------
// Shape phase inverts shape serialization
// ------------------------------------------------------------------

/// Feeds stream bits into one slot until it has no `Empty` left.
pub open spec fn build_shape_node(m: NodeModel, is_head: bool, bits: Seq<bool>, i: int) -> Option<
    (NodeModel, int),
>
    decreases bits.len() - i,
{
    if !node_contains_kind(m, NodeKind::Empty) {
        Some((m, i))
    } else if i < 0 || i >= bits.len() {
        None
    } else {
        match node_construct(m, bits[i], is_head) {
            Some(m2) => build_shape_node(m2, is_head, bits, i + 1),
            None => None,
        }
    }
}

/// Building a tree's shape is building its head slot, then its tail slot.
proof fn lemma_build_shape_compose(h: NodeModel, tl: NodeModel, bits: Seq<bool>, i: int)
    ensures
        build_shape(TreeModel { head: h, tail: tl }, bits, i) == (match build_shape_node(
            h,
            true,
            bits,
            i,
        ) {
            None => None::<(TreeModel, int)>,
            Some((h2, j)) => match build_shape_node(tl, false, bits, j) {
                None => None::<(TreeModel, int)>,
                Some((tl2, j2)) => Some((TreeModel { head: h2, tail: tl2 }, j2)),
            },
        }),
    decreases bits.len() - i,
{
    let t = TreeModel { head: h, tail: tl };
    if node_contains_kind(h, NodeKind::Empty) {
        if 0 <= i < bits.len() {
            lemma_node_construct_some(h, bits[i], true);
            match node_construct(h, bits[i], true) {
                Some(h1) => {
                    assert(tree_construct(t, bits[i]) == Some(TreeModel { head: h1, tail: tl }));
                    lemma_build_shape_compose(h1, tl, bits, i + 1);
                },
                None => {},
            }
        }
    } else if node_contains_kind(tl, NodeKind::Empty) {
        assert(build_shape_node(h, true, bits, i) == Some((h, i)));
        if 0 <= i < bits.len() {
            lemma_node_construct_some(h, bits[i], true);
            lemma_node_construct_some(tl, bits[i], false);
            match node_construct(tl, bits[i], false) {
                Some(tl1) => {
                    assert(tree_construct(t, bits[i]) == Some(TreeModel { head: h, tail: tl1 }));
                    lemma_build_shape_compose(h, tl1, bits, i + 1);
                    assert(build_shape_node(h, true, bits, i + 1) == Some((h, i + 1)));
                },
                None => {},
            }
        }
    } else {
        assert(build_shape_node(h, true, bits, i) == Some((h, i)));
        assert(build_shape_node(tl, false, bits, i) == Some((tl, i)));
        assert(build_shape(t, bits, i) == Some((t, i)));
    }
}

/// Building inside an internal slot is building its subtree.
proof fn lemma_build_shape_node_tree(t: TreeModel, is_head: bool, bits: Seq<bool>, i: int)
    ensures
        build_shape_node(NodeModel::Tree(Box::new(t)), is_head, bits, i) == (match build_shape(
            t,
            bits,
            i,
        ) {
            Some((t2, j)) => Some((NodeModel::Tree(Box::new(t2)), j)),
            None => None::<(NodeModel, int)>,
        }),
    decreases bits.len() - i,
{
    let m = NodeModel::Tree(Box::new(t));
    assert(node_contains_kind(m, NodeKind::Empty) == tree_contains_kind(t, NodeKind::Empty));
    if tree_contains_kind(t, NodeKind::Empty) {
        if 0 <= i < bits.len() {
            assert(node_construct(m, bits[i], is_head) == (match tree_construct(t, bits[i]) {
                Some(t2) => Some(NodeModel::Tree(Box::new(t2))),
                None => None::<NodeModel>,
            }));
            match tree_construct(t, bits[i]) {
                Some(t2) => {
                    lemma_build_shape_node_tree(t2, is_head, bits, i + 1);
                },
                None => {},
            }
        }
    }
}

/// Feeding a well-formed slot's shape bits into an `Empty` slot rebuilds
/// its skeleton, consuming exactly those bits.
proof fn lemma_shape_node_roundtrip(n: NodeModel, is_head: bool, bits: Seq<bool>, i: int, k: nat)
    requires
        node_wf(n, k),
        0 <= i,
        i + node_shape_bits(n, is_head).len() <= bits.len(),
        bits.subrange(i, i + node_shape_bits(n, is_head).len() as int) == node_shape_bits(
            n,
            is_head,
        ),
    ensures
        build_shape_node(NodeModel::Empty, is_head, bits, i) == Some(
            (skeleton_node(n), i + node_shape_bits(n, is_head).len()),
        ),
    decreases n,
{
    match n {
        NodeModel::Value(_) => {
            assert(node_shape_bits(n, is_head) == seq![is_head]);
            assert(bits[i] == is_head) by {
                assert(bits.subrange(i, i + 1)[0] == bits[i]);
            }
            assert(node_construct(NodeModel::Empty, bits[i], is_head) == Some(NodeModel::Data));
            assert(build_shape_node(NodeModel::Data, is_head, bits, i + 1) == Some(
                (NodeModel::Data, i + 1),
            ));
        },
        NodeModel::Tree(sub) => {
            let sb = node_shape_bits(n, is_head);
            let sbh = node_shape_bits(sub.head, true);
            let sbt = node_shape_bits(sub.tail, false);
            assert(sb == seq![!is_head] + sbh + sbt);
            assert(bits[i] == !is_head) by {
                assert(bits.subrange(i, i + sb.len() as int)[0] == bits[i]);
                assert(sb[0] == !is_head);
            }
            assert(node_construct(NodeModel::Empty, bits[i], is_head) == Some(
                NodeModel::Tree(Box::new(empty_tree_model())),
            ));
            lemma_build_shape_node_tree(empty_tree_model(), is_head, bits, i + 1);
            lemma_build_shape_compose(NodeModel::Empty, NodeModel::Empty, bits, i + 1);
            assert(bits.subrange(i + 1, i + 1 + sbh.len() as int) =~= sbh) by {
                assert forall|m: int| 0 <= m < sbh.len() implies bits.subrange(
                    i + 1,
                    i + 1 + sbh.len() as int,
                )[m] == sbh[m] by {
                    assert(bits.subrange(i, i + sb.len() as int)[m + 1] == bits[i + 1 + m]);
                    assert(sb[m + 1] == sbh[m]);
                }
            }
            lemma_shape_node_roundtrip(sub.head, true, bits, i + 1, k);
            let j1 = i + 1 + sbh.len() as int;
            assert(bits.subrange(j1, j1 + sbt.len() as int) =~= sbt) by {
                assert forall|m: int| 0 <= m < sbt.len() implies bits.subrange(
                    j1,
                    j1 + sbt.len() as int,
                )[m] == sbt[m] by {
                    assert(bits.subrange(i, i + sb.len() as int)[1 + sbh.len() + m] == bits[j1
                        + m]);
                    assert(sb[1 + sbh.len() + m] == sbt[m]);
                }
            }
            lemma_shape_node_roundtrip(sub.tail, false, bits, j1, k);
            assert(skeleton_node(n) == NodeModel::Tree(
                Box::new(
                    TreeModel { head: skeleton_node(sub.head), tail: skeleton_node(sub.tail) },
                ),
            ));
        },
        _ => {
            assert(false);
        },
    }
}

/// Feeding a well-formed tree's shape bits into a fresh tree rebuilds its
/// skeleton, consuming exactly those bits.
pub proof fn lemma_shape_roundtrip(t: TreeModel, bits: Seq<bool>, i: int, k: nat)
    requires
        tree_wf(t, k),
        0 <= i,
        i + shape_bits(t).len() <= bits.len(),
        bits.subrange(i, i + shape_bits(t).len() as int) == shape_bits(t),
    ensures
        build_shape(empty_tree_model(), bits, i) == Some(
            (skeleton_tree(t), i + shape_bits(t).len()),
        ),
{
    let sbh = node_shape_bits(t.head, true);
    let sbt = node_shape_bits(t.tail, false);
    assert(shape_bits(t) == sbh + sbt);
    lemma_build_shape_compose(NodeModel::Empty, NodeModel::Empty, bits, i);
    assert(bits.subrange(i, i + sbh.len() as int) =~= sbh) by {
        assert forall|m: int| 0 <= m < sbh.len() implies bits.subrange(
            i,
            i + sbh.len() as int,
        )[m] == sbh[m] by {
            assert(bits.subrange(i, i + shape_bits(t).len() as int)[m] == bits[i + m]);
            assert(shape_bits(t)[m] == sbh[m]);
        }
    }
    lemma_shape_node_roundtrip(t.head, true, bits, i, k);
    let j1 = i + sbh.len() as int;
    assert(bits.subrange(j1, j1 + sbt.len() as int) =~= sbt) by {
        assert forall|m: int| 0 <= m < sbt.len() implies bits.subrange(
            j1,
            j1 + sbt.len() as int,
        )[m] == sbt[m] by {
            assert(bits.subrange(i, i + shape_bits(t).len() as int)[sbh.len() + m] == bits[j1
                + m]);
            assert(shape_bits(t)[sbh.len() + m] == sbt[m]);
        }
    }
    lemma_shape_node_roundtrip(t.tail, false, bits, j1, k);
}

// ------------------------------------------------------------------
// Fill phase inverts leaf-value serialization
// ------------------------------------------------------------------

/// Feeds `k`-bit groups into one slot until it has no `Data` left.
pub open spec fn build_fill_node(m: NodeModel, bits: Seq<bool>, i: int, k: nat) -> Option<
    (NodeModel, int),
>
    decreases bits.len() - i,
{
    if !node_contains_kind(m, NodeKind::Data) {
        Some((m, i))
    } else if i < 0 || k == 0 || i + k > bits.len() {
        None
    } else {
        match node_fill(m, bits.subrange(i, i + k)) {
            Some(m2) => build_fill_node(m2, bits, i + k, k),
            None => None,
        }
    }
}

/// Filling a tree's leaves is filling its head slot, then its tail slot.
proof fn lemma_build_fill_compose(h: NodeModel, tl: NodeModel, bits: Seq<bool>, i: int, k: nat)
    ensures
        build_fill(TreeModel { head: h, tail: tl }, bits, i, k) == (match build_fill_node(
            h,
            bits,
            i,
            k,
        ) {
            None => None::<(TreeModel, int)>,
            Some((h2, j)) => match build_fill_node(tl, bits, j, k) {
                None => None::<(TreeModel, int)>,
                Some((tl2, j2)) => Some((TreeModel { head: h2, tail: tl2 }, j2)),
            },
        }),
    decreases bits.len() - i,
{
    let t = TreeModel { head: h, tail: tl };
    if node_contains_kind(h, NodeKind::Data) {
        if 0 <= i && k >= 1 && i + k <= bits.len() {
            let group = bits.subrange(i, i + k);
            lemma_node_fill_some(h, group);
            match node_fill(h, group) {
                Some(h1) => {
                    assert(tree_fill(t, group) == Some(TreeModel { head: h1, tail: tl }));
                    lemma_build_fill_compose(h1, tl, bits, i + k, k);
                },
                None => {},
            }
        }
    } else if node_contains_kind(tl, NodeKind::Data) {
        assert(build_fill_node(h, bits, i, k) == Some((h, i)));
        if 0 <= i && k >= 1 && i + k <= bits.len() {
            let group = bits.subrange(i, i + k);
            lemma_node_fill_some(h, group);
            lemma_node_fill_some(tl, group);
            match node_fill(tl, group) {
                Some(tl1) => {
                    assert(tree_fill(t, group) == Some(TreeModel { head: h, tail: tl1 }));
                    lemma_build_fill_compose(h, tl1, bits, i + k, k);
                    assert(build_fill_node(h, bits, i + k, k) == Some((h, i + k)));
                },
                None => {},
            }
        }
    } else {
        assert(build_fill_node(h, bits, i, k) == Some((h, i)));
        assert(build_fill_node(tl, bits, i, k) == Some((tl, i)));
        assert(build_fill(t, bits, i, k) == Some((t, i)));
    }
}

/// Filling inside an internal slot is filling its subtree.
proof fn lemma_build_fill_node_tree(t: TreeModel, bits: Seq<bool>, i: int, k: nat)
    ensures
        build_fill_node(NodeModel::Tree(Box::new(t)), bits, i, k) == (match build_fill(
            t,
            bits,
            i,
            k,
        ) {
            Some((t2, j)) => Some((NodeModel::Tree(Box::new(t2)), j)),
            None => None::<(NodeModel, int)>,
        }),
    decreases bits.len() - i,
{
    let m = NodeModel::Tree(Box::new(t));
    assert(node_contains_kind(m, NodeKind::Data) == tree_contains_kind(t, NodeKind::Data));
    if tree_contains_kind(t, NodeKind::Data) {
        if 0 <= i && k >= 1 && i + k <= bits.len() {
            let group = bits.subrange(i, i + k);
            assert(node_fill(m, group) == (match tree_fill(t, group) {
                Some(t2) => Some(NodeModel::Tree(Box::new(t2))),
                None => None::<NodeModel>,
            }));
            match tree_fill(t, group) {
                Some(t2) => {
                    lemma_build_fill_node_tree(t2, bits, i + k, k);
                },
                None => {},
            }
        }
    }
}

/// Feeding a well-formed slot's leaf bits into its skeleton restores the
/// slot, consuming exactly those bits.
proof fn lemma_fill_node_roundtrip(n: NodeModel, bits: Seq<bool>, i: int, k: nat)
    requires
        node_wf(n, k),
        k >= 1,
        0 <= i,
        i + node_leaf_bits(n).len() <= bits.len(),
        bits.subrange(i, i + node_leaf_bits(n).len() as int) == node_leaf_bits(n),
    ensures
        build_fill_node(skeleton_node(n), bits, i, k) == Some(
            (n, i + node_leaf_bits(n).len()),
        ),
    decreases n,
{
    match n {
        NodeModel::Value(v) => {
            assert(node_leaf_bits(n) == v);
            assert(skeleton_node(n) == NodeModel::Data);
            assert(bits.subrange(i, i + k) == v);
            assert(node_fill(NodeModel::Data, v) == Some(NodeModel::Value(v)));
            assert(!node_contains_kind(NodeModel::Value(v), NodeKind::Data));
            assert(build_fill_node(NodeModel::Value(v), bits, i + k, k) == Some(
                (NodeModel::Value(v), i + k),
            ));
        },
        NodeModel::Tree(sub) => {
            let lb = node_leaf_bits(n);
            let lbh = node_leaf_bits(sub.head);
            let lbt = node_leaf_bits(sub.tail);
            assert(lb == lbh + lbt);
            assert(skeleton_node(n) == NodeModel::Tree(
                Box::new(
                    TreeModel { head: skeleton_node(sub.head), tail: skeleton_node(sub.tail) },
                ),
            ));
            lemma_build_fill_node_tree(
                TreeModel { head: skeleton_node(sub.head), tail: skeleton_node(sub.tail) },
                bits,
                i,
                k,
            );
            lemma_build_fill_compose(skeleton_node(sub.head), skeleton_node(sub.tail), bits, i, k);
            assert(bits.subrange(i, i + lbh.len() as int) =~= lbh) by {
                assert forall|m: int| 0 <= m < lbh.len() implies bits.subrange(
                    i,
                    i + lbh.len() as int,
                )[m] == lbh[m] by {
                    assert(bits.subrange(i, i + lb.len() as int)[m] == bits[i + m]);
                    assert(lb[m] == lbh[m]);
                }
            }
            lemma_fill_node_roundtrip(sub.head, bits, i, k);
            let j1 = i + lbh.len() as int;
            assert(bits.subrange(j1, j1 + lbt.len() as int) =~= lbt) by {
                assert forall|m: int| 0 <= m < lbt.len() implies bits.subrange(
                    j1,
                    j1 + lbt.len() as int,
                )[m] == lbt[m] by {
                    assert(bits.subrange(i, i + lb.len() as int)[lbh.len() + m] == bits[j1 + m]);
                    assert(lb[lbh.len() + m] == lbt[m]);
                }
            }
            lemma_fill_node_roundtrip(sub.tail, bits, j1, k);
        },
        _ => {
            assert(false);
        },
    }
}

/// Feeding a well-formed tree's leaf bits into its skeleton restores the
/// tree, consuming exactly those bits.
pub proof fn lemma_fill_roundtrip(t: TreeModel, bits: Seq<bool>, i: int, k: nat)
    requires
        tree_wf(t, k),
        k >= 1,
        0 <= i,
        i + leaf_bits(t).len() <= bits.len(),
        bits.subrange(i, i + leaf_bits(t).len() as int) == leaf_bits(t),
    ensures
        build_fill(skeleton_tree(t), bits, i, k) == Some((t, i + leaf_bits(t).len())),
{
    let lbh = node_leaf_bits(t.head);
    let lbt = node_leaf_bits(t.tail);
    assert(leaf_bits(t) == lbh + lbt);
    lemma_build_fill_compose(skeleton_node(t.head), skeleton_node(t.tail), bits, i, k);
    assert(bits.subrange(i, i + lbh.len() as int) =~= lbh) by {
        assert forall|m: int| 0 <= m < lbh.len() implies bits.subrange(
            i,
            i + lbh.len() as int,
        )[m] == lbh[m] by {
            assert(bits.subrange(i, i + leaf_bits(t).len() as int)[m] == bits[i + m]);
            assert(leaf_bits(t)[m] == lbh[m]);
        }
    }
    lemma_fill_node_roundtrip(t.head, bits, i, k);
    let j1 = i + lbh.len() as int;
    assert(bits.subrange(j1, j1 + lbt.len() as int) =~= lbt) by {
        assert forall|m: int| 0 <= m < lbt.len() implies bits.subrange(
            j1,
            j1 + lbt.len() as int,
        )[m] == lbt[m] by {
            assert(bits.subrange(i, i + leaf_bits(t).len() as int)[lbh.len() + m] == bits[j1
                + m]);
            assert(leaf_bits(t)[lbh.len() + m] == lbt[m]);
        }
    }
    lemma_fill_node_roundtrip(t.tail, bits, j1, k);
}

// ------------------------------------------------------------------
// Paths found by the search are exact, and exact paths are prefix-free
// ------------------------------------------------------------------

/// The depth-first search returns a nonempty path that leads exactly to a
/// leaf holding the chunk.
pub proof fn lemma_find_is_exact(t: TreeModel, c: Seq<bool>)
    ensures
        tree_find(t, c) is Some ==> tree_find(t, c)->0.len() >= 1 && path_value(
            t,
            tree_find(t, c)->0,
        ) == Some(c),
    decreases t,
{
    match slot_find(t.head, c) {
        Some(q) => {
            let p = seq![false] + q;
            assert(p[0] == false);
            match t.head {
                NodeModel::Value(v) => {
                    assert(q == Seq::<bool>::empty());
                    assert(v == c);
                    assert(p.len() == 1);
                    assert(path_value(t, p) == Some(v));
                },
                NodeModel::Tree(sub) => {
                    lemma_find_is_exact(*sub, c);
                    assert(tree_find(*sub, c) == Some(q));
                    assert(p.drop_first() =~= q);
                    assert(p.len() > 1);
                    assert(path_value(t, p) == path_value(*sub, q));
                },
                _ => {
                    assert(false);
                },
            }
        },
        None => {
            match slot_find(t.tail, c) {
                Some(q) => {
                    let p = seq![true] + q;
                    assert(p[0] == true);
                    match t.tail {
                        NodeModel::Value(v) => {
                            assert(q == Seq::<bool>::empty());
                            assert(v == c);
                            assert(p.len() == 1);
                            assert(path_value(t, p) == Some(v));
                        },
                        NodeModel::Tree(sub) => {
                            lemma_find_is_exact(*sub, c);
                            assert(tree_find(*sub, c) == Some(q));
                            assert(p.drop_first() =~= q);
                            assert(p.len() > 1);
                            assert(path_value(t, p) == path_value(*sub, q));
                        },
                        _ => {
                            assert(false);
                        },
                    }
                },
                None => {},
            }
        },
    }
}

/// No proper prefix of an exact leaf path is itself an exact leaf path.
pub proof fn lemma_path_value_prefix_none(t: TreeModel, p: Seq<bool>, m: int)
    requires
        path_value(t, p) is Some,
        1 <= m < p.len(),
    ensures
        path_value(t, p.take(m)) is None,
    decreases p.len(),
{
    let node = if !p[0] {
        t.head
    } else {
        t.tail
    };
    assert(p.take(m)[0] == p[0]);
    match node {
        NodeModel::Tree(sub) => {
            if m == 1 {
                assert(p.take(1).len() == 1);
            } else {
                assert(p.take(m).drop_first() =~= p.drop_first().take(m - 1));
                lemma_path_value_prefix_none(*sub, p.drop_first(), m - 1);
            }
        },
        NodeModel::Value(_) => {
            assert(p.len() == 1);
            assert(false);
        },
        _ => {
            assert(false);
        },
    }
}

/// Walking an exact leaf path finds exactly that leaf.
pub proof fn lemma_read_exact_some(t: TreeModel, p: Seq<bool>)
    requires
        path_value(t, p) is Some,
    ensures
        tree_read(t, p) == path_value(t, p),
{
    assert forall|j: int| 1 <= j < p.len() implies path_value(t, #[trigger] p.take(j)) is None by {
        lemma_path_value_prefix_none(t, p, j);
    }
    lemma_read_is_exact(t, p);
}

// ------------------------------------------------------------------
// Replaying the payload inverts code emission
// ------------------------------------------------------------------

/// Replaying from a position inside the stream equals replaying the stream
/// with the consumed prefix dropped.
proof fn lemma_replay_shift(root: TreeModel, pre: Seq<bool>, rest: Seq<bool>, j: int, buf: Seq<
    bool,
>)
    requires
        0 <= j <= rest.len(),
    ensures
        replay(root, pre + rest, pre.len() + j, buf) == replay(root, rest, j, buf),
    decreases rest.len() - j,
{
    if j < rest.len() {
        assert((pre + rest)[pre.len() + j] == rest[j]);
        let buf2 = buf.push(rest[j]);
        match tree_read(root, buf2) {
            Some(_) => {
                lemma_replay_shift(root, pre, rest, j + 1, Seq::empty());
            },
            None => {
                lemma_replay_shift(root, pre, rest, j + 1, buf2);
            },
        }
    }
}

/// While an exact code is being consumed bit by bit, the replay neither
/// emits nor resets until the code's last bit, and then emits its leaf.
proof fn lemma_replay_code_from(
    root: TreeModel,
    p: Seq<bool>,
    v: Seq<bool>,
    rest: Seq<bool>,
    m: int,
)
    requires
        path_value(root, p) == Some(v),
        0 <= m < p.len(),
    ensures
        replay(root, p + rest, m, p.take(m)) == v + replay(root, rest, 0, Seq::empty()),
    decreases p.len() - m,
{
    let bits = p + rest;
    assert(bits[m] == p[m]);
    assert(p.take(m).push(p[m]) =~= p.take(m + 1));
    if m + 1 < p.len() {
        lemma_path_value_prefix_none(root, p, m + 1);
        assert forall|j: int|
            1 <= j < p.take(m + 1).len() implies path_value(
            root,
            #[trigger] p.take(m + 1).take(j),
        ) is None by {
            assert(p.take(m + 1).take(j) =~= p.take(j));
            lemma_path_value_prefix_none(root, p, j);
        }
        lemma_read_is_exact(root, p.take(m + 1));
        assert(tree_read(root, p.take(m + 1)) is None);
        lemma_replay_code_from(root, p, v, rest, m + 1);
    } else {
        assert(p.take(m + 1) =~= p);
        lemma_read_exact_some(root, p);
        assert(tree_read(root, p) == Some(v));
        lemma_replay_shift(root, p, rest, 0, Seq::empty());
    }
}

/// Replaying one exact code followed by more bits emits the code's leaf and
/// continues with the rest.
proof fn lemma_replay_code(root: TreeModel, p: Seq<bool>, v: Seq<bool>, rest: Seq<bool>)
    requires
        path_value(root, p) == Some(v),
    ensures
        replay(root, p + rest, 0, Seq::empty()) == v + replay(root, rest, 0, Seq::empty()),
{
    assert(p.len() >= 1);
    assert(p.take(0) =~= Seq::<bool>::empty());
    lemma_replay_code_from(root, p, v, rest, 0);
}

/// The concatenation of a chunk sequence.
pub open spec fn cat_bits(ss: Seq<Seq<bool>>) -> Seq<bool>
    decreases ss.len(),
{
    if ss.len() == 0 {
        Seq::empty()
    } else {
        ss[0] + cat_bits(ss.drop_first())
    }
}

/// Replaying the payload of chunks the tree holds restores the chunks.
pub proof fn lemma_replay_payload(root: TreeModel, chunks: Seq<Seq<bool>>)
    requires
        forall|j: int| 0 <= j < chunks.len() ==> tree_find(root, #[trigger] chunks[j]) is Some,
    ensures
        replay(root, payload_bits(root, chunks), 0, Seq::empty()) == cat_bits(chunks),
    decreases chunks.len(),
{
    if chunks.len() == 0 {
        assert(payload_bits(root, chunks) == Seq::<bool>::empty());
        assert(replay(root, payload_bits(root, chunks), 0, Seq::empty()) == Seq::<
            bool,
        >::empty());
    } else {
        let c = chunks[0];
        assert(tree_find(root, c) is Some);
        let p = tree_find(root, c)->0;
        lemma_find_is_exact(root, c);
        assert(path_value(root, p) == Some(c));
        assert(path_bits(root, c) == p);
        assert(payload_bits(root, chunks) == p + payload_bits(root, chunks.drop_first()));
        lemma_replay_code(root, p, c, payload_bits(root, chunks.drop_first()));
        assert(forall|j: int|
            0 <= j < chunks.drop_first().len() ==> tree_find(
                root,
                #[trigger] chunks.drop_first()[j],
            ) is Some);
        lemma_replay_payload(root, chunks.drop_first());
    }
}

/// Every chunk the tree holds a leaf for has a code.
pub proof fn lemma_has_leaf_find(t: TreeModel, c: Seq<bool>)
    ensures
        tree_has_leaf(t, c) ==> tree_find(t, c) is Some,
    decreases t,
{
    if node_has_leaf(t.head, c) {
        match t.head {
            NodeModel::Tree(sub) => {
                lemma_has_leaf_find(*sub, c);
            },
            _ => {},
        }
    } else if node_has_leaf(t.tail, c) {
        match t.tail {
            NodeModel::Tree(sub) => {
                lemma_has_leaf_find(*sub, c);
            },
            _ => {},
        }
    }
}

// ------------------------------------------------------------------
// The synthesized tree is well-formed and holds every counted chunk
// ------------------------------------------------------------------

/// Every candidate is fully valued with `k`-bit leaves.
pub open spec fn entries_wf(s: Seq<(NodeModel, nat)>, k: nat) -> bool {
    forall|i: int| 0 <= i < s.len() ==> node_wf((#[trigger] s[i]).0, k)
}

/// Some candidate holds a leaf with the chunk.
pub open spec fn entries_have(s: Seq<(NodeModel, nat)>, c: Seq<bool>) -> bool {
    exists|i: int| 0 <= i < s.len() && node_has_leaf((#[trigger] s[i]).0, c)
}

/// Some frequency entry has the chunk as its key.
pub open spec fn table_has(ft: Seq<(Seq<bool>, nat)>, c: Seq<bool>) -> bool {
    exists|i: int| 0 <= i < ft.len() && (#[trigger] ft[i]).0 == c
}

proof fn lemma_insert_preserves(t: Seq<(NodeModel, nat)>, e: (NodeModel, nat), k: nat, c: Seq<
    bool,
>)
    ensures
        entries_wf(t, k) && node_wf(e.0, k) ==> entries_wf(insert_sorted(t, e), k),
        entries_have(insert_sorted(t, e), c) <==> (entries_have(t, c) || node_has_leaf(e.0, c)),
    decreases t.len(),
{
    let r = insert_sorted(t, e);
    if t.len() == 0 {
        assert(r == seq![e]);
        assert(r[0] == e);
        assert(entries_have(r, c) <==> node_has_leaf(e.0, c)) by {
            if node_has_leaf(e.0, c) {
                assert(node_has_leaf(r[0].0, c));
            }
        }
        assert(!entries_have(t, c));
    } else if t[0].1 <= e.1 {
        lemma_insert_preserves(t.drop_first(), e, k, c);
        let rr = insert_sorted(t.drop_first(), e);
        assert(r == seq![t[0]] + rr);
        assert(r[0] == t[0]);
        assert(forall|i: int| 1 <= i < r.len() ==> r[i] == rr[i - 1]);
        if entries_wf(t, k) && node_wf(e.0, k) {
            assert(entries_wf(t.drop_first(), k)) by {
                assert(forall|i: int|
                    0 <= i < t.drop_first().len() ==> t.drop_first()[i] == t[i + 1]);
            }
            assert(entries_wf(r, k)) by {
                assert(forall|i: int| 1 <= i < r.len() ==> node_wf(r[i].0, k));
            }
        }
        assert(entries_have(t.drop_first(), c) <==> (exists|i: int|
            1 <= i < t.len() && node_has_leaf(t[i].0, c))) by {
            if entries_have(t.drop_first(), c) {
                let i = choose|i: int|
                    0 <= i < t.drop_first().len() && node_has_leaf(t.drop_first()[i].0, c);
                assert(node_has_leaf(t[i + 1].0, c));
            }
            if exists|i: int| 1 <= i < t.len() && node_has_leaf(t[i].0, c) {
                let i = choose|i: int| 1 <= i < t.len() && node_has_leaf(t[i].0, c);
                assert(node_has_leaf(t.drop_first()[i - 1].0, c));
            }
        }
        assert(entries_have(r, c) <==> (node_has_leaf(t[0].0, c) || entries_have(rr, c))) by {
            if entries_have(r, c) {
                let i = choose|i: int| 0 <= i < r.len() && node_has_leaf(r[i].0, c);
                if i >= 1 {
                    assert(node_has_leaf(rr[i - 1].0, c));
                }
            }
            if node_has_leaf(t[0].0, c) {
                assert(node_has_leaf(r[0].0, c));
            }
            if entries_have(rr, c) {
                let i = choose|i: int| 0 <= i < rr.len() && node_has_leaf(rr[i].0, c);
                assert(node_has_leaf(r[i + 1].0, c));
            }
        }
        assert(entries_have(t, c) <==> (node_has_leaf(t[0].0, c) || entries_have(
            t.drop_first(),
            c,
        ))) by {
            if entries_have(t, c) {
                let i = choose|i: int| 0 <= i < t.len() && node_has_leaf(t[i].0, c);
                if i >= 1 {
                    assert(node_has_leaf(t.drop_first()[i - 1].0, c));
                }
            }
            if entries_have(t.drop_first(), c) {
                let i = choose|i: int|
                    0 <= i < t.drop_first().len() && node_has_leaf(t.drop_first()[i].0, c);
                assert(node_has_leaf(t[i + 1].0, c));
            }
        }
    } else {
        assert(r == seq![e] + t);
        assert(r[0] == e);
        assert(forall|i: int| 1 <= i < r.len() ==> r[i] == t[i - 1]);
        if entries_wf(t, k) && node_wf(e.0, k) {
            assert(entries_wf(r, k)) by {
                assert(forall|i: int| 1 <= i < r.len() ==> node_wf(r[i].0, k));
            }
        }
        assert(entries_have(r, c) <==> (entries_have(t, c) || node_has_leaf(e.0, c))) by {
            if entries_have(r, c) {
                let i = choose|i: int| 0 <= i < r.len() && node_has_leaf(r[i].0, c);
                if i >= 1 {
                    assert(node_has_leaf(t[i - 1].0, c));
                }
            }
            if node_has_leaf(e.0, c) {
                assert(node_has_leaf(r[0].0, c));
            }
            if entries_have(t, c) {
                let i = choose|i: int| 0 <= i < t.len() && node_has_leaf(t[i].0, c);
                assert(node_has_leaf(r[i + 1].0, c));
            }
        }
    }
}

proof fn lemma_sort_preserves(s: Seq<(NodeModel, nat)>, k: nat, c: Seq<bool>)
    ensures
        entries_wf(s, k) ==> entries_wf(sort_entries(s), k),
        entries_have(sort_entries(s), c) <==> entries_have(s, c),
    decreases s.len(),
{
    if s.len() > 0 {
        lemma_sort_preserves(s.drop_last(), k, c);
        lemma_insert_preserves(sort_entries(s.drop_last()), s.last(), k, c);
        if entries_wf(s, k) {
            assert(entries_wf(s.drop_last(), k)) by {
                assert(forall|i: int| 0 <= i < s.drop_last().len() ==> s.drop_last()[i] == s[i]);
            }
            assert(node_wf(s.last().0, k));
        }
        assert(entries_have(s, c) <==> (entries_have(s.drop_last(), c) || node_has_leaf(
            s.last().0,
            c,
        ))) by {
            if entries_have(s, c) {
                let i = choose|i: int| 0 <= i < s.len() && node_has_leaf(s[i].0, c);
                if i < s.len() - 1 {
                    assert(node_has_leaf(s.drop_last()[i].0, c));
                }
            }
            if entries_have(s.drop_last(), c) {
                let i = choose|i: int|
                    0 <= i < s.drop_last().len() && node_has_leaf(s.drop_last()[i].0, c);
                assert(node_has_leaf(s[i].0, c));
            }
        }
    }
}

proof fn lemma_merge_preserves(s: Seq<(NodeModel, nat)>, k: nat, c: Seq<bool>)
    ensures
        entries_wf(s, k) ==> entries_wf(merge_round(s), k),
        entries_have(merge_round(s), c) <==> entries_have(s, c),
    decreases s.len(),
{
    if s.len() < 2 {
    } else {
        lemma_merge_preserves(s.skip(2), k, c);
        let r = merge_round(s);
        let merged = (
            NodeModel::Tree(Box::new(TreeModel { head: s[0].0, tail: s[1].0 })),
            (s[0].1 + s[1].1) as nat,
        );
        assert(r == seq![merged] + merge_round(s.skip(2)));
        assert(r[0] == merged);
        assert(forall|i: int| 1 <= i < r.len() ==> r[i] == merge_round(s.skip(2))[i - 1]);
        assert(node_has_leaf(merged.0, c) <==> (node_has_leaf(s[0].0, c) || node_has_leaf(
            s[1].0,
            c,
        )));
        if entries_wf(s, k) {
            assert(entries_wf(s.skip(2), k)) by {
                assert(forall|i: int| 0 <= i < s.skip(2).len() ==> s.skip(2)[i] == s[i + 2]);
            }
            assert(node_wf(merged.0, k));
            assert(entries_wf(r, k)) by {
                assert(forall|i: int| 1 <= i < r.len() ==> node_wf(r[i].0, k));
            }
        }
        assert(entries_have(r, c) <==> (node_has_leaf(merged.0, c) || entries_have(
            merge_round(s.skip(2)),
            c,
        ))) by {
            if entries_have(r, c) {
                let i = choose|i: int| 0 <= i < r.len() && node_has_leaf(r[i].0, c);
                if i >= 1 {
                    assert(node_has_leaf(merge_round(s.skip(2))[i - 1].0, c));
                }
            }
            if node_has_leaf(merged.0, c) {
                assert(node_has_leaf(r[0].0, c));
            }
            if entries_have(merge_round(s.skip(2)), c) {
                let i = choose|i: int|
                    0 <= i < merge_round(s.skip(2)).len() && node_has_leaf(
                        merge_round(s.skip(2))[i].0,
                        c,
                    );
                assert(node_has_leaf(r[i + 1].0, c));
            }
        }
        assert(entries_have(s, c) <==> (node_has_leaf(s[0].0, c) || node_has_leaf(s[1].0, c)
            || entries_have(s.skip(2), c))) by {
            if entries_have(s, c) {
                let i = choose|i: int| 0 <= i < s.len() && node_has_leaf(s[i].0, c);
                if i >= 2 {
                    assert(node_has_leaf(s.skip(2)[i - 2].0, c));
                }
            }
            if entries_have(s.skip(2), c) {
                let i = choose|i: int|
                    0 <= i < s.skip(2).len() && node_has_leaf(s.skip(2)[i].0, c);
                assert(node_has_leaf(s[i + 2].0, c));
            }
        }
    }
}

proof fn lemma_rounds_preserve(s: Seq<(NodeModel, nat)>, k: nat, c: Seq<bool>)
    ensures
        entries_wf(s, k) ==> entries_wf(synth_rounds(s), k),
        entries_have(synth_rounds(s), c) <==> entries_have(s, c),
        synth_rounds(s).len() == (if s.len() == 0 {
            0int
        } else {
            1int
        }),
    decreases s.len(),
{
    if s.len() <= 1 {
    } else {
        lemma_merge_round_len(s);
        lemma_sort_entries_len(merge_round(s));
        lemma_merge_preserves(s, k, c);
        lemma_sort_preserves(merge_round(s), k, c);
        lemma_rounds_preserve(sort_entries(merge_round(s)), k, c);
    }
}

proof fn lemma_candidates_preserve(ft: Seq<(Seq<bool>, nat)>, k: nat, c: Seq<bool>)
    ensures
        (forall|i: int| 0 <= i < ft.len() ==> (#[trigger] ft[i]).0.len() == k) ==> entries_wf(
            candidates(ft),
            k,
        ),
        entries_have(candidates(ft), c) <==> table_has(ft, c),
{
    assert(forall|i: int|
        0 <= i < ft.len() ==> (#[trigger] candidates(ft)[i]).0 == NodeModel::Value(ft[i].0));
    if entries_have(candidates(ft), c) {
        let i = choose|i: int|
            0 <= i < candidates(ft).len() && node_has_leaf(candidates(ft)[i].0, c);
        assert(ft[i].0 == c);
    }
    if table_has(ft, c) {
        let i = choose|i: int| 0 <= i < ft.len() && (#[trigger] ft[i]).0 == c;
        assert(node_has_leaf(candidates(ft)[i].0, c));
    }
}

/// The synthesized tree of a nonempty frequency table with `k`-bit keys is
/// well-formed, and it holds a leaf for every key.
pub proof fn lemma_synth_tree_wf(ft: Seq<(Seq<bool>, nat)>, k: nat, c: Seq<bool>)
    requires
        ft.len() > 0,
        forall|i: int| 0 <= i < ft.len() ==> (#[trigger] ft[i]).0.len() == k,
    ensures
        tree_wf(synth_tree(ft), k),
        table_has(ft, c) ==> tree_has_leaf(synth_tree(ft), c),
{
    lemma_candidates_preserve(ft, k, c);
    lemma_sort_preserves(candidates(ft), k, c);
    lemma_sort_entries_len(candidates(ft));
    lemma_rounds_preserve(sort_entries(candidates(ft)), k, c);
    let fin = synth_rounds(sort_entries(candidates(ft)));
    assert(fin.len() == 1);
    assert(node_wf(fin[0].0, k));
    match fin[0].0 {
        NodeModel::Tree(sub) => {
            assert(tree_wf(synth_tree(ft), k));
            if table_has(ft, c) {
                assert(entries_have(fin, c));
                let i = choose|i: int| 0 <= i < fin.len() && node_has_leaf(fin[i].0, c);
                assert(i == 0);
                assert(node_has_leaf(fin[0].0, c));
            }
        },
        NodeModel::Value(v) => {
            assert(tree_wf(synth_tree(ft), k));
            if table_has(ft, c) {
                assert(entries_have(fin, c));
                let i = choose|i: int| 0 <= i < fin.len() && node_has_leaf(fin[i].0, c);
                assert(i == 0);
                assert(v == c);
            }
        },
        _ => {
            assert(false);
        },
    }
}

/// A bumped table's keys are the old keys and the bumped chunk.
proof fn lemma_bump_has(t: Seq<(Seq<bool>, nat)>, c: Seq<bool>, x: Seq<bool>)
    ensures
        table_has(bump(t, c), x) <==> (table_has(t, x) || x == c),
{
    lemma_key_index(t, c);
    let i = key_index(t, c);
    if i == -1 {
        let r = t.push((c, 1nat));
        assert(forall|j: int| 0 <= j < t.len() ==> r[j] == t[j]);
        assert(r[t.len() as int].0 == c);
        if table_has(r, x) {
            let j = choose|j: int| 0 <= j < r.len() && (#[trigger] r[j]).0 == x;
            if j < t.len() {
                assert(t[j].0 == x);
            }
        }
        if table_has(t, x) {
            let j = choose|j: int| 0 <= j < t.len() && (#[trigger] t[j]).0 == x;
            assert(r[j].0 == x);
        }
    } else {
        let r = t.update(i, (c, (t[i].1 + 1) as nat));
        assert(t[i].0 == c);
        assert(forall|j: int| 0 <= j < r.len() ==> (#[trigger] r[j]).0 == t[j].0);
        if table_has(r, x) {
            let j = choose|j: int| 0 <= j < r.len() && (#[trigger] r[j]).0 == x;
            assert(t[j].0 == x);
        }
        if table_has(t, x) {
            let j = choose|j: int| 0 <= j < t.len() && (#[trigger] t[j]).0 == x;
            assert(r[j].0 == x);
        }
        if x == c {
            assert(r[i].0 == x);
        }
    }
}

/// The frequency table's keys are exactly the chunk values counted.
pub proof fn lemma_freq_table_has(chunks: Seq<Seq<bool>>, x: Seq<bool>)
    ensures
        table_has(freq_table(chunks), x) <==> chunks.contains(x),
    decreases chunks.len(),
{
    if chunks.len() == 0 {
        assert(!chunks.contains(x));
    } else {
        lemma_freq_table_has(chunks.drop_last(), x);
        lemma_bump_has(freq_table(chunks.drop_last()), chunks.last(), x);
        assert(chunks.contains(x) <==> (chunks.drop_last().contains(x) || chunks.last() == x))
            by {
            if chunks.contains(x) {
                let i = choose|i: int| 0 <= i < chunks.len() && chunks[i] == x;
                if i < chunks.len() - 1 {
                    assert(chunks.drop_last()[i] == x);
                }
            }
            if chunks.drop_last().contains(x) {
                let i = choose|i: int|
                    0 <= i < chunks.drop_last().len() && chunks.drop_last()[i] == x;
                assert(chunks[i] == x);
            }
        }
    }
}

// ------------------------------------------------------------------
// The prefix-free law
// ------------------------------------------------------------------

/// No leaf's path is a prefix of another leaf's path: the exact root-to-leaf
/// paths of any tree are prefix-free.
pub proof fn lemma_prefix_free(t: TreeModel, p1: Seq<bool>, p2: Seq<bool>)
    requires
        path_value(t, p1) is Some,
        path_value(t, p2) is Some,
        p1 != p2,
    ensures
        !p1.is_prefix_of(p2),
{
    if p1.is_prefix_of(p2) {
        if p1.len() == p2.len() {
            assert(p2.take(p1.len() as int) =~= p2);
            assert(p1 == p2);
        } else {
            lemma_path_value_prefix_none(t, p2, p1.len() as int);
            assert(path_value(t, p2.take(p1.len() as int)) is None);
        }
    }
}

// ------------------------------------------------------------------
// The round-trip law
// ------------------------------------------------------------------

/// Splitting into chunks and concatenating them back is the identity.
proof fn lemma_cat_chunks(s: Seq<bool>, k: nat)
    requires
        k >= 1,
        s.len() % k == 0,
    ensures
        cat_bits(chunk_list(s, k)) == s,
    decreases s.len(),
{
    if s.len() < k {
        if s.len() > 0 {
            vstd::arithmetic::div_mod::lemma_small_mod(s.len(), k);
        }
        assert(chunk_list(s, k) == Seq::<Seq<bool>>::empty());
        assert(cat_bits(chunk_list(s, k)) =~= s);
    } else {
        assert(chunk_list(s, k) == seq![s.take(k as int)] + chunk_list(s.skip(k as int), k));
        assert(chunk_list(s, k)[0] == s.take(k as int));
        assert(chunk_list(s, k).drop_first() =~= chunk_list(s.skip(k as int), k));
        assert(s.skip(k as int).len() % k == 0) by {
            vstd::arithmetic::div_mod::lemma_mod_sub_multiples_vanish(s.len() as int, k as int);
        }
        lemma_cat_chunks(s.skip(k as int), k);
        assert(cat_bits(chunk_list(s, k)) == s.take(k as int) + cat_bits(
            chunk_list(s, k).drop_first(),
        ));
        assert(s.take(k as int) + s.skip(k as int) =~= s);
    }
}

/// A well-formed slot serializes to at least one shape bit.
proof fn lemma_wf_shape_nonempty(n: NodeModel, is_head: bool, k: nat)
    requires
        node_wf(n, k),
    ensures
        node_shape_bits(n, is_head).len() >= 1,
{
    match n {
        NodeModel::Value(_) => {},
        NodeModel::Tree(_) => {},
        _ => {
            assert(false);
        },
    }
}

/// Decoding an encoded stream restores the input bits exactly, extended by
/// the zero-fill padding of a short trailing chunk (none when the chunk
/// size divides the input's bit length).  This holds for every input,
/// every chunk size the format can carry, and both acceleration settings,
/// which the encoder's and decoder's contracts tie to these two functions.
pub proof fn lemma_round_trip(data: Seq<u8>, k: nat, zerofill: bool)
    requires
        1 <= k < 0x1_0000_0000,
        bytes_bits(data).len() % k == 0 || zerofill,
    ensures
        decode_spec(bits_bytes(encode_spec(data, k, zerofill))) == Some(
            zero_pad(bytes_bits(data), k),
        ),
{
    let bits = bytes_bits(data);
    let padded = zero_pad(bits, k);
    let chunks = chunk_list(padded, k);
    let ft = freq_table(chunks);
    let tree = synth_tree(ft);
    let bc = byte_count(k);
    let hdr = 2 + 8 * bc;
    let hdr_len = (2 + 8 * bc + 3) as int;
    let body = encode_body(data, k, zerofill);
    let r = pad_len(body.len());
    let pbody = body + falses(r);
    let enc = encode_spec(data, k, zerofill);
    lemma_zero_pad_facts(bits, k);
    lemma2_to64();
    assert(header_bits(k).len() == hdr_len);
    assert(body == header_bits(k) + shape_bits(tree) + leaf_bits(tree) + payload_bits(
        tree,
        chunks,
    ));
    assert(body.len() >= hdr_len);
    assert(r < 8);
    assert(enc == pbody.update(hdr as int, val_bits(r, 3)[0]).update(
        hdr as int + 1,
        val_bits(r, 3)[1],
    ).update(hdr as int + 2, val_bits(r, 3)[2]));
    assert(enc.len() == pbody.len());
    // The encoded stream is a whole number of bytes.
    assert(enc.len() % 8 == 0) by {
        let m = body.len() % 8;
        if m == 0 {
            assert(r == 0);
        } else {
            assert(r == 8 - m);
            vstd::arithmetic::div_mod::lemma_add_mod_noop(body.len() as int, r as int, 8);
            vstd::arithmetic::div_mod::lemma_mod_self_0(8);
            vstd::arithmetic::div_mod::lemma_small_mod(r, 8);
        }
    }
    lemma_unpack_pack(enc);
    assert(bytes_bits(bits_bytes(enc)) == enc);
    // The patched bits sit inside the header; everything at or past the
    // header end is still the body's bits.
    assert(forall|i: int| 0 <= i < body.len() && !(hdr <= i < hdr + 3) ==> enc[i] == body[i]);
    assert(forall|i: int| 0 <= i < 3 ==> enc[hdr + i] == val_bits(r, 3)[i]);
    // Header fields decode to what the encoder wrote.
    assert(enc.subrange(0, 2) =~= val_bits((bc - 1) as nat, 2)) by {
        assert(forall|i: int| 0 <= i < 2 ==> #[trigger] body[i] == header_bits(k)[i]);
        assert(forall|i: int|
            0 <= i < 2 ==> #[trigger] header_bits(k)[i] == val_bits((bc - 1) as nat, 2)[i]);
    }
    assert(((bc - 1) as nat) < pow2(2));
    lemma_val_bits_roundtrip((bc - 1) as nat, 2);
    assert(be_val(enc.subrange(0, 2)) == (bc - 1) as nat);
    assert(enc.subrange(2, 2 + 8 * bc as int) =~= val_bits(k, 8 * bc)) by {
        assert(forall|i: int|
            2 <= i < 2 + 8 * bc ==> #[trigger] body[i] == header_bits(k)[i]);
        assert(forall|i: int|
            2 <= i < 2 + 8 * bc ==> #[trigger] header_bits(k)[i] == val_bits(k, 8 * bc)[i - 2]);
    }
    assert(k < pow2((8 * bc) as nat));
    lemma_val_bits_roundtrip(k, 8 * bc);
    assert(be_val(enc.subrange(2, 2 + 8 * bc as int)) == k);
    assert(enc.subrange(hdr as int, hdr_len) =~= val_bits(r, 3));
    assert(r < pow2(3));
    lemma_val_bits_roundtrip(r, 3);
    assert(be_val(enc.subrange(hdr as int, hdr_len)) == r);
    // The effective stream after dropping the padding is the patched body.
    let eff = enc.take((enc.len() - r) as int);
    assert(eff.len() == body.len());
    assert(forall|i: int| 0 <= i < body.len() ==> eff[i] == enc[i]);
    assert(forall|i: int| hdr_len <= i < body.len() ==> eff[i] == body[i]);
    if bits.len() == 0 {
        // Empty input: no chunks, the empty tree, a header-only stream.
        assert(padded == bits);
        assert(chunks == Seq::<Seq<bool>>::empty());
        assert(ft == Seq::<(Seq<bool>, nat)>::empty());
        assert(candidates(ft) =~= Seq::<(NodeModel, nat)>::empty());
        assert(sort_entries(candidates(ft)) == Seq::<(NodeModel, nat)>::empty());
        assert(synth_rounds(sort_entries(candidates(ft))) == Seq::<(NodeModel, nat)>::empty());
        assert(tree == empty_tree_model());
        assert(shape_bits(tree) =~= Seq::<bool>::empty());
        assert(leaf_bits(tree) =~= Seq::<bool>::empty());
        assert(payload_bits(tree, chunks) == Seq::<bool>::empty());
        assert(body =~= header_bits(k));
        assert(eff.len() == hdr_len);
        assert(zero_pad(bits, k) =~= Seq::<bool>::empty());
        assert(decode_spec(bits_bytes(enc)) == Some(Seq::<bool>::empty()));
    } else {
        // At least one chunk: the tree is well-formed and holds every chunk.
        assert(chunks.len() >= 1) by {
            if chunks.len() == 0 {
                assert(padded.len() == 0) by {
                    vstd::arithmetic::mul::lemma_mul_by_zero_is_zero(k as int);
                }
            }
        }
        assert(chunks.contains(chunks[0]));
        lemma_freq_table_has(chunks, chunks[0]);
        assert(ft.len() > 0) by {
            if ft.len() == 0 {
                assert(!table_has(ft, chunks[0]));
            }
        }
        assert(forall|j: int| 0 <= j < chunks.len() ==> (#[trigger] chunks[j]).len() == k) by {
            assert forall|j: int| 0 <= j < chunks.len() implies (#[trigger] chunks[j]).len()
                == k by {
                lemma_chunk_at(padded, k, j);
                vstd::arithmetic::mul::lemma_mul_nonnegative(j, k as int);
                assert(j * k + k <= padded.len()) by {
                    vstd::arithmetic::mul::lemma_mul_is_distributive_add_other_way(
                        k as int,
                        j,
                        1,
                    );
                    vstd::arithmetic::mul::lemma_mul_inequality(
                        j + 1,
                        chunks.len() as int,
                        k as int,
                    );
                }
                assert(padded.subrange(j * k, j * k + k).len() == k);
            }
        }
        assert(forall|i: int| 0 <= i < ft.len() ==> (#[trigger] ft[i]).0.len() == k) by {
            assert forall|i: int| 0 <= i < ft.len() implies (#[trigger] ft[i]).0.len() == k by {
                assert(table_has(ft, ft[i].0));
                lemma_freq_table_has(chunks, ft[i].0);
                let j = choose|j: int| 0 <= j < chunks.len() && chunks[j] == ft[i].0;
                assert(chunks[j].len() == k);
            }
        }
        lemma_synth_tree_wf(ft, k, Seq::<bool>::empty());
        assert(tree_wf(tree, k));
        assert forall|j: int| 0 <= j < chunks.len() implies tree_find(
            tree,
            #[trigger] chunks[j],
        ) is Some by {
            assert(chunks.contains(chunks[j]));
            lemma_freq_table_has(chunks, chunks[j]);
            lemma_synth_tree_wf(ft, k, chunks[j]);
            lemma_has_leaf_find(tree, chunks[j]);
        }
        // The stream is strictly longer than the header.
        lemma_wf_shape_nonempty(tree.head, true, k);
        lemma_wf_shape_nonempty(tree.tail, false, k);
        assert(shape_bits(tree).len() >= 2);
        assert(eff.len() > hdr_len);
        // Shape phase rebuilds the skeleton.
        let sl = shape_bits(tree).len() as int;
        let ll = leaf_bits(tree).len() as int;
        let i2 = hdr_len + sl;
        let i3 = i2 + ll;
        assert(eff.subrange(hdr_len, i2) =~= shape_bits(tree)) by {
            assert(forall|i: int|
                hdr_len <= i < i2 ==> #[trigger] body[i] == shape_bits(tree)[i - hdr_len]);
        }
        lemma_shape_roundtrip(tree, eff, hdr_len, k);
        assert(build_shape(empty_tree_model(), eff, hdr_len) == Some((skeleton_tree(tree), i2)));
        // Fill phase restores the leaves.
        assert(eff.subrange(i2, i3) =~= leaf_bits(tree)) by {
            assert(forall|i: int|
                i2 <= i < i3 ==> #[trigger] body[i] == leaf_bits(tree)[i - i2]);
        }
        lemma_fill_roundtrip(tree, eff, i2, k);
        assert(build_fill(skeleton_tree(tree), eff, i2, k) == Some((tree, i3)));
        // Payload phase replays the chunks.
        assert(eff.subrange(i3, eff.len() as int) =~= payload_bits(tree, chunks)) by {
            assert(forall|i: int|
                i3 <= i < body.len() ==> #[trigger] body[i] == payload_bits(tree, chunks)[i
                    - i3]);
        }
        lemma_replay_payload(tree, chunks);
        lemma_cat_chunks(padded, k);
        assert(replay(tree, eff.subrange(i3, eff.len() as int), 0, Seq::empty()) == padded);
        assert(decode_spec(bits_bytes(enc)) == Some(padded));
    }
}

} // verus!
