//! The symbol tree: a binary tree whose shape and leaf contents are exactly
//! what the wire format serializes.
//!
//! A tree always has two child slots, `head` (the bit-0 branch) and `tail`
//! (the bit-1 branch).  Each slot is one of four variants: `Empty` (shape not
//! yet constructed), `Data` (fixed to be a leaf, value not yet known),
//! `Value` (a concrete leaf), or `Tree` (an internal node owning a subtree).
//!
//! The ghost types `NodeModel` and `TreeModel` mirror the executable types
//! with mathematical leaf values; every contract in the crate speaks of them.

use vstd::prelude::*;

verus! {

/// Ghost mirror of [`NodeType`].
pub enum NodeModel {
    Value(Seq<bool>),
    Data,
    Tree(Box<TreeModel>),
    Empty,
}

/// Ghost mirror of [`Tree`].
pub struct TreeModel {
    pub head: NodeModel,
    pub tail: NodeModel,
}

/// One child slot of a symbol tree.
#[derive(Debug)]
pub enum NodeType {
    Value(Vec<bool>),
    Data,
    Tree(Box<Tree>),
    Empty,
}

/// A symbol tree node with its two child slots.
#[derive(Debug)]
pub struct Tree {
    pub head: NodeType,
    pub tail: NodeType,
}

/// The mathematical value of a child slot.
pub open spec fn node_view(n: NodeType) -> NodeModel
    decreases n,
{
    match n {
        NodeType::Value(v) => NodeModel::Value(v@),
        NodeType::Data => NodeModel::Data,
        NodeType::Tree(sub) => NodeModel::Tree(
            Box::new(TreeModel { head: node_view(sub.head), tail: node_view(sub.tail) }),
        ),
        NodeType::Empty => NodeModel::Empty,
    }
}

impl View for NodeType {
    type V = NodeModel;

    open spec fn view(&self) -> NodeModel {
        node_view(*self)
    }
}

impl View for Tree {
    type V = TreeModel;

    open spec fn view(&self) -> TreeModel {
        TreeModel { head: node_view(self.head), tail: node_view(self.tail) }
    }
}

/// A tree with both slots still unconstructed.
pub open spec fn empty_tree_model() -> TreeModel {
    TreeModel { head: NodeModel::Empty, tail: NodeModel::Empty }
}

impl Tree {
    /// A fresh tree with both slots `Empty`.
    pub fn new() -> (tree: Tree)
        ensures
            tree@ == empty_tree_model(),
    {
        Tree { head: NodeType::Empty, tail: NodeType::Empty }
    }
}

impl NodeType {
    /// Whether this slot is still unconstructed.
    pub fn _is_null(&self) -> (r: bool)
        ensures
            r == (self@ is Empty),
    {
        matches!(self, NodeType::Empty)
    }
}

// ------------------------------------------------------------------
// Variant scanning (the completion predicates of the decoder phases)
// ------------------------------------------------------------------

/// Selects one of the four slot variants.
#[derive(Debug, Clone, Copy)]
pub enum NodeKind {
    Value,
    Data,
    Tree,
    Empty,
}

/// Whether the slot is of the selected variant.
pub open spec fn node_is_kind(n: NodeModel, kind: NodeKind) -> bool {
    match kind {
        NodeKind::Value => n is Value,
        NodeKind::Data => n is Data,
        NodeKind::Tree => n is Tree,
        NodeKind::Empty => n is Empty,
    }
}

/// Whether the slot, or any slot below it, is of the selected variant.
pub open spec fn node_contains_kind(n: NodeModel, kind: NodeKind) -> bool
    decreases n,
{
    node_is_kind(n, kind) || (match n {
        NodeModel::Tree(sub) => node_contains_kind(sub.head, kind) || node_contains_kind(
            sub.tail,
            kind,
        ),
        _ => false,
    })
}

/// Whether any slot of the tree is of the selected variant.
pub open spec fn tree_contains_kind(t: TreeModel, kind: NodeKind) -> bool {
    node_contains_kind(t.head, kind) || node_contains_kind(t.tail, kind)
}

fn kind_matches(n: &NodeType, kind: NodeKind) -> (r: bool)
    ensures
        r == node_is_kind(n@, kind),
{
    match kind {
        NodeKind::Value => matches!(n, NodeType::Value(_)),
        NodeKind::Data => matches!(n, NodeType::Data),
        NodeKind::Tree => matches!(n, NodeType::Tree(_)),
        NodeKind::Empty => matches!(n, NodeType::Empty),
    }
}

fn check_node(n: &NodeType, kind: NodeKind) -> (r: bool)
    ensures
        r == !node_contains_kind(n@, kind),
    decreases n,
{
    if kind_matches(n, kind) {
        false
    } else {
        match n {
            NodeType::Tree(sub) => check_tree(sub, kind),
            _ => true,
        }
    }
}

/// True when no slot anywhere in the tree is of the selected variant.
pub fn check_tree(tree: &Tree, kind: NodeKind) -> (r: bool)
    ensures
        r == !tree_contains_kind(tree@, kind),
    decreases tree,
{
    check_node(&tree.head, kind) && check_node(&tree.tail, kind)
}

// ------------------------------------------------------------------
// Shape serialization
// ------------------------------------------------------------------

/// Shape bits of one slot.  A head slot emits `1` for a leaf and `0` followed
/// by the subtree for an internal node; a tail slot uses the opposite sense.
/// `Data` and `Empty` slots emit nothing.
pub open spec fn node_shape_bits(n: NodeModel, is_head: bool) -> Seq<bool>
    decreases n,
{
    match n {
        NodeModel::Value(_) => seq![is_head],
        NodeModel::Tree(sub) => seq![!is_head] + node_shape_bits(sub.head, true)
            + node_shape_bits(sub.tail, false),
        _ => Seq::empty(),
    }
}

/// Shape bits of a whole tree: head slot first, then tail slot.
pub open spec fn shape_bits(t: TreeModel) -> Seq<bool> {
    node_shape_bits(t.head, true) + node_shape_bits(t.tail, false)
}

fn deconstruct_node(n: &NodeType, is_head: bool) -> (r: Vec<bool>)
    ensures
        r@ == node_shape_bits(n@, is_head),
    decreases n,
{
    match n {
        NodeType::Value(_) => {
            let mut v: Vec<bool> = Vec::new();
            v.push(is_head);
            proof {
                assert(v@ =~= node_shape_bits(n@, is_head));
            }
            v
        },
        NodeType::Tree(sub) => {
            let mut v: Vec<bool> = Vec::new();
            v.push(!is_head);
            let mut rest = deconstruct_tree(sub);
            v.append(&mut rest);
            proof {
                assert(v@ =~= node_shape_bits(n@, is_head));
            }
            v
        },
        _ => Vec::new(),
    }
}

/// Serializes the shape of the tree, depth first, head before tail.
pub fn deconstruct_tree(tree: &Tree) -> (r: Vec<bool>)
    ensures
        r@ == shape_bits(tree@),
    decreases tree,
{
    let mut r = deconstruct_node(&tree.head, true);
    let mut t = deconstruct_node(&tree.tail, false);
    r.append(&mut t);
    r
}

/// Routes one shape bit into a slot: the first `Empty` found in depth-first,
/// head-before-tail order becomes `Data` or a fresh subtree.  `None` when the
/// slot has no `Empty` left.
pub open spec fn node_construct(n: NodeModel, bit: bool, is_head: bool) -> Option<NodeModel>
    decreases n,
{
    match n {
        NodeModel::Empty => Some(
            if bit == is_head {
                NodeModel::Data
            } else {
                NodeModel::Tree(Box::new(empty_tree_model()))
            },
        ),
        NodeModel::Tree(sub) => match node_construct(sub.head, bit, true) {
            Some(h) => Some(NodeModel::Tree(Box::new(TreeModel { head: h, tail: sub.tail }))),
            None => match node_construct(sub.tail, bit, false) {
                Some(tl) => Some(
                    NodeModel::Tree(Box::new(TreeModel { head: sub.head, tail: tl })),
                ),
                None => None,
            },
        },
        _ => None,
    }
}

/// Routes one shape bit into a tree, head slot before tail slot.
pub open spec fn tree_construct(t: TreeModel, bit: bool) -> Option<TreeModel> {
    match node_construct(t.head, bit, true) {
        Some(h) => Some(TreeModel { head: h, tail: t.tail }),
        None => match node_construct(t.tail, bit, false) {
            Some(tl) => Some(TreeModel { head: t.head, tail: tl }),
            None => None,
        },
    }
}

fn construct_node(n: NodeType, bit: bool, is_head: bool) -> (r: (NodeType, bool))
    ensures
        match node_construct(n@, bit, is_head) {
            Some(m) => r.1 && r.0@ == m,
            None => !r.1 && r.0@ == n@,
        },
    decreases n,
{
    match n {
        NodeType::Empty => {
            if bit == is_head {
                (NodeType::Data, true)
            } else {
                (NodeType::Tree(Box::new(Tree::new())), true)
            }
        },
        NodeType::Tree(sub) => {
            let (t2, consumed) = construct_tree_owned(*sub, bit);
            (NodeType::Tree(Box::new(t2)), consumed)
        },
        other => (other, false),
    }
}

fn construct_tree_owned(t: Tree, bit: bool) -> (r: (Tree, bool))
    ensures
        match tree_construct(t@, bit) {
            Some(m) => r.1 && r.0@ == m,
            None => !r.1 && r.0@ == t@,
        },
    decreases t,
{
    let Tree { head, tail } = t;
    let (head2, c1) = construct_node(head, bit, true);
    if c1 {
        (Tree { head: head2, tail }, true)
    } else {
        let (tail2, c2) = construct_node(tail, bit, false);
        (Tree { head: head2, tail: tail2 }, c2)
    }
}

/// Routes one shape bit into the tree; returns whether the bit was consumed
/// (it is not once no `Empty` slot remains).
pub fn construct_tree(tree: &mut Tree, bit: bool) -> (consumed: bool)
    ensures
        match tree_construct(old(tree)@, bit) {
            Some(m) => consumed && final(tree)@ == m,
            None => !consumed && final(tree)@ == old(tree)@,
        },
{
    let mut tmp = Tree { head: NodeType::Empty, tail: NodeType::Empty };
    core::mem::swap(tree, &mut tmp);
    let (t2, consumed) = construct_tree_owned(tmp, bit);
    *tree = t2;
    consumed
}

/// A shape bit is consumed exactly while an `Empty` slot remains.
pub proof fn lemma_node_construct_some(n: NodeModel, bit: bool, is_head: bool)
    ensures
        node_construct(n, bit, is_head) is Some <==> node_contains_kind(n, NodeKind::Empty),
    decreases n,
{
    match n {
        NodeModel::Tree(sub) => {
            lemma_node_construct_some(sub.head, bit, true);
            lemma_node_construct_some(sub.tail, bit, false);
        },
        _ => {},
    }
}

/// A shape bit is consumed exactly while the tree has an `Empty` slot.
pub proof fn lemma_tree_construct_some(t: TreeModel, bit: bool)
    ensures
        tree_construct(t, bit) is Some <==> tree_contains_kind(t, NodeKind::Empty),
{
    lemma_node_construct_some(t.head, bit, true);
    lemma_node_construct_some(t.tail, bit, false);
}

// ------------------------------------------------------------------
// Leaf values
// ------------------------------------------------------------------

/// The leaf bits of one slot, depth first, head before tail.
pub open spec fn node_leaf_bits(n: NodeModel) -> Seq<bool>
    decreases n,
{
    match n {
        NodeModel::Value(v) => v,
        NodeModel::Tree(sub) => node_leaf_bits(sub.head) + node_leaf_bits(sub.tail),
        _ => Seq::empty(),
    }
}

/// All leaf bits of the tree in serialization order.
pub open spec fn leaf_bits(t: TreeModel) -> Seq<bool> {
    node_leaf_bits(t.head) + node_leaf_bits(t.tail)
}

/// The leaf values of one slot as a list, depth first, head before tail.
pub open spec fn node_leaves(n: NodeModel) -> Seq<Seq<bool>>
    decreases n,
{
    match n {
        NodeModel::Value(v) => seq![v],
        NodeModel::Tree(sub) => node_leaves(sub.head) + node_leaves(sub.tail),
        _ => Seq::empty(),
    }
}

/// The leaf values of the tree in serialization order.
pub open spec fn tree_leaves(t: TreeModel) -> Seq<Seq<bool>> {
    node_leaves(t.head) + node_leaves(t.tail)
}

fn concat_node(n: &NodeType) -> (r: Vec<bool>)
    ensures
        r@ == node_leaf_bits(n@),
    decreases n,
{
    match n {
        NodeType::Value(v) => copy_bits(v),
        NodeType::Tree(sub) => concat_tree(sub),
        _ => Vec::new(),
    }
}

/// Serializes every leaf value of the tree, depth first, head before tail.
pub fn concat_tree(tree: &Tree) -> (r: Vec<bool>)
    ensures
        r@ == leaf_bits(tree@),
    decreases tree,
{
    let mut r = concat_node(&tree.head);
    let mut t = concat_node(&tree.tail);
    r.append(&mut t);
    r
}

/// Routes one leaf value into a slot: the first `Data` found in depth-first,
/// head-before-tail order becomes a `Value`.  `None` when no `Data` is left.
pub open spec fn node_fill(n: NodeModel, v: Seq<bool>) -> Option<NodeModel>
    decreases n,
{
    match n {
        NodeModel::Data => Some(NodeModel::Value(v)),
        NodeModel::Tree(sub) => match node_fill(sub.head, v) {
            Some(h) => Some(NodeModel::Tree(Box::new(TreeModel { head: h, tail: sub.tail }))),
            None => match node_fill(sub.tail, v) {
                Some(tl) => Some(
                    NodeModel::Tree(Box::new(TreeModel { head: sub.head, tail: tl })),
                ),
                None => None,
            },
        },
        _ => None,
    }
}

/// Routes one leaf value into a tree, head slot before tail slot.
pub open spec fn tree_fill(t: TreeModel, v: Seq<bool>) -> Option<TreeModel> {
    match node_fill(t.head, v) {
        Some(h) => Some(TreeModel { head: h, tail: t.tail }),
        None => match node_fill(t.tail, v) {
            Some(tl) => Some(TreeModel { head: t.head, tail: tl }),
            None => None,
        },
    }
}

fn fill_node(n: NodeType, data: &[bool]) -> (r: (NodeType, bool))
    ensures
        match node_fill(n@, data@) {
            Some(m) => r.1 && r.0@ == m,
            None => !r.1 && r.0@ == n@,
        },
    decreases n,
{
    match n {
        NodeType::Data => (NodeType::Value(bools_to_vec(data)), true),
        NodeType::Tree(sub) => {
            let (t2, filled) = fill_tree_owned(*sub, data);
            (NodeType::Tree(Box::new(t2)), filled)
        },
        other => (other, false),
    }
}

fn fill_tree_owned(t: Tree, data: &[bool]) -> (r: (Tree, bool))
    ensures
        match tree_fill(t@, data@) {
            Some(m) => r.1 && r.0@ == m,
            None => !r.1 && r.0@ == t@,
        },
    decreases t,
{
    let Tree { head, tail } = t;
    let (head2, f1) = fill_node(head, data);
    if f1 {
        (Tree { head: head2, tail }, true)
    } else {
        let (tail2, f2) = fill_node(tail, data);
        (Tree { head: head2, tail: tail2 }, f2)
    }
}

/// Routes one leaf value into the tree; returns whether it was placed
/// (it is not once no `Data` slot remains).
pub fn fill_tree(tree: &mut Tree, data: &[bool]) -> (filled: bool)
    ensures
        match tree_fill(old(tree)@, data@) {
            Some(m) => filled && final(tree)@ == m,
            None => !filled && final(tree)@ == old(tree)@,
        },
{
    let mut tmp = Tree { head: NodeType::Empty, tail: NodeType::Empty };
    core::mem::swap(tree, &mut tmp);
    let (t2, filled) = fill_tree_owned(tmp, data);
    *tree = t2;
    filled
}

/// A leaf value is placed exactly while a `Data` slot remains.
pub proof fn lemma_node_fill_some(n: NodeModel, v: Seq<bool>)
    ensures
        node_fill(n, v) is Some <==> node_contains_kind(n, NodeKind::Data),
    decreases n,
{
    match n {
        NodeModel::Tree(sub) => {
            lemma_node_fill_some(sub.head, v);
            lemma_node_fill_some(sub.tail, v);
        },
        _ => {},
    }
}

/// A leaf value is placed exactly while the tree has a `Data` slot.
pub proof fn lemma_tree_fill_some(t: TreeModel, v: Seq<bool>)
    ensures
        tree_fill(t, v) is Some <==> tree_contains_kind(t, NodeKind::Data),
{
    lemma_node_fill_some(t.head, v);
    lemma_node_fill_some(t.tail, v);
}

// ------------------------------------------------------------------
// Walking and searching
// ------------------------------------------------------------------

/// Walks the path from the root and returns the first leaf value reached;
/// bits beyond that leaf are ignored.  `None` when the path ends on an
/// internal node or reaches a slot that holds no value.
pub open spec fn tree_read(t: TreeModel, path: Seq<bool>) -> Option<Seq<bool>>
    decreases path.len(),
{
    if path.len() == 0 {
        None
    } else {
        let node = if !path[0] {
            t.head
        } else {
            t.tail
        };
        match node {
            NodeModel::Tree(sub) => if path.len() > 1 {
                tree_read(*sub, path.drop_first())
            } else {
                None
            },
            NodeModel::Value(v) => Some(v),
            _ => None,
        }
    }
}

/// The leaf value at exactly this path: the walk must pass through internal
/// nodes only and end precisely on a leaf.
pub open spec fn path_value(t: TreeModel, path: Seq<bool>) -> Option<Seq<bool>>
    decreases path.len(),
{
    if path.len() == 0 {
        None
    } else {
        let node = if !path[0] {
            t.head
        } else {
            t.tail
        };
        match node {
            NodeModel::Tree(sub) => if path.len() > 1 {
                path_value(*sub, path.drop_first())
            } else {
                None
            },
            NodeModel::Value(v) => if path.len() == 1 {
                Some(v)
            } else {
                None
            },
            _ => None,
        }
    }
}

/// When no proper prefix of the path reaches a leaf, walking the path finds
/// a leaf exactly when the path ends on one.
pub proof fn lemma_read_is_exact(t: TreeModel, path: Seq<bool>)
    requires
        forall|j: int| 1 <= j < path.len() ==> path_value(t, #[trigger] path.take(j)) is None,
    ensures
        tree_read(t, path) == path_value(t, path),
    decreases path.len(),
{
    if path.len() > 0 {
        let node = if !path[0] {
            t.head
        } else {
            t.tail
        };
        match node {
            NodeModel::Tree(sub) => {
                if path.len() > 1 {
                    assert forall|j: int|
                        1 <= j < path.drop_first().len() implies path_value(
                        *sub,
                        #[trigger] path.drop_first().take(j),
                    ) is None by {
                        assert(path.take(j + 1).drop_first() =~= path.drop_first().take(j));
                        assert(path.take(j + 1)[0] == path[0]);
                        assert(path_value(t, path.take(j + 1)) is None);
                    }
                    lemma_read_is_exact(*sub, path.drop_first());
                }
            },
            NodeModel::Value(v) => {
                if path.len() > 1 {
                    assert(path.take(1)[0] == path[0]);
                    assert(path.take(1).len() == 1);
                    assert(path_value(t, path.take(1)) == Some(v));
                    assert(false);
                }
            },
            _ => {},
        }
    }
}

/// Walks the path from the root and returns the first leaf value reached.
pub fn read_tree(tree: &Tree, path: &[bool]) -> (r: Option<Vec<bool>>)
    ensures
        match r {
            Some(v) => tree_read(tree@, path@) == Some(v@),
            None => tree_read(tree@, path@) is None,
        },
    decreases path.len(),
{
    if path.len() == 0 {
        return None;
    }
    let node = if !path[0] {
        &tree.head
    } else {
        &tree.tail
    };
    match node {
        NodeType::Tree(sub) => {
            if path.len() > 1 {
                let r = read_tree(sub, &path[1..path.len()]);
                proof {
                    assert(path@.subrange(1, path@.len() as int) =~= path@.drop_first());
                }
                r
            } else {
                None
            }
        },
        NodeType::Value(v) => Some(copy_bits(v)),
        _ => None,
    }
}

/// The depth-first-first path to a leaf holding the chunk, searching below
/// one slot; the path is relative to that slot's subtree.
pub open spec fn slot_find(n: NodeModel, chunk: Seq<bool>) -> Option<Seq<bool>>
    decreases n,
{
    match n {
        NodeModel::Value(v) => if v == chunk {
            Some(Seq::empty())
        } else {
            None
        },
        NodeModel::Tree(sub) => tree_find(*sub, chunk),
        _ => None,
    }
}

/// The depth-first-first root-to-leaf path to a leaf holding the chunk.
pub open spec fn tree_find(t: TreeModel, chunk: Seq<bool>) -> Option<Seq<bool>>
    decreases t,
{
    match slot_find(t.head, chunk) {
        Some(p) => Some(seq![false] + p),
        None => match slot_find(t.tail, chunk) {
            Some(p) => Some(seq![true] + p),
            None => None,
        },
    }
}

fn find_node(n: &NodeType, chunk: &[bool], branch: bool) -> (r: Option<Vec<bool>>)
    ensures
        match slot_find(n@, chunk@) {
            Some(p) => r is Some && r->0@ == seq![branch] + p,
            None => r is None,
        },
    decreases n,
{
    match n {
        NodeType::Value(v) => {
            if bits_eq(v, chunk) {
                let mut path: Vec<bool> = Vec::new();
                path.push(branch);
                proof {
                    assert(path@ =~= seq![branch] + Seq::<bool>::empty());
                }
                Some(path)
            } else {
                None
            }
        },
        NodeType::Tree(sub) => {
            match _find_tree(sub, chunk) {
                Some(mut p) => {
                    let mut path: Vec<bool> = Vec::new();
                    path.push(branch);
                    path.append(&mut p);
                    proof {
                        assert(path@ =~= seq![branch] + slot_find(n@, chunk@)->0);
                    }
                    Some(path)
                },
                None => None,
            }
        },
        _ => None,
    }
}

/// Finds the depth-first-first root-to-leaf path to a leaf holding `chunk`.
pub fn _find_tree(tree: &Tree, chunk: &[bool]) -> (r: Option<Vec<bool>>)
    ensures
        match tree_find(tree@, chunk@) {
            Some(p) => r is Some && r->0@ == p,
            None => r is None,
        },
    decreases tree,
{
    let rh = find_node(&tree.head, chunk, false);
    match rh {
        Some(p) => Some(p),
        None => find_node(&tree.tail, chunk, true),
    }
}

// ------------------------------------------------------------------
// Well-formedness and shape skeletons
// ------------------------------------------------------------------

/// A fully valued slot whose leaves all hold `k`-bit chunks: every branch
/// ends in a `Value` of length `k`, with no placeholder anywhere.
pub open spec fn node_wf(n: NodeModel, k: nat) -> bool
    decreases n,
{
    match n {
        NodeModel::Value(v) => v.len() == k,
        NodeModel::Tree(sub) => node_wf(sub.head, k) && node_wf(sub.tail, k),
        _ => false,
    }
}

/// A fully valued tree whose leaves all hold `k`-bit chunks.
pub open spec fn tree_wf(t: TreeModel, k: nat) -> bool {
    node_wf(t.head, k) && node_wf(t.tail, k)
}

/// The slot with every leaf value forgotten: what the decoder's shape phase
/// reconstructs before the fill phase.
pub open spec fn skeleton_node(n: NodeModel) -> NodeModel
    decreases n,
{
    match n {
        NodeModel::Value(_) => NodeModel::Data,
        NodeModel::Tree(sub) => NodeModel::Tree(
            Box::new(
                TreeModel { head: skeleton_node(sub.head), tail: skeleton_node(sub.tail) },
            ),
        ),
        other => other,
    }
}

/// The tree with every leaf value forgotten.
pub open spec fn skeleton_tree(t: TreeModel) -> TreeModel {
    TreeModel { head: skeleton_node(t.head), tail: skeleton_node(t.tail) }
}

/// Whether some leaf below this slot holds the chunk.
pub open spec fn node_has_leaf(n: NodeModel, c: Seq<bool>) -> bool
    decreases n,
{
    match n {
        NodeModel::Value(v) => v == c,
        NodeModel::Tree(sub) => node_has_leaf(sub.head, c) || node_has_leaf(sub.tail, c),
        _ => false,
    }
}

/// Whether some leaf of the tree holds the chunk.
pub open spec fn tree_has_leaf(t: TreeModel, c: Seq<bool>) -> bool {
    node_has_leaf(t.head, c) || node_has_leaf(t.tail, c)
}

// ------------------------------------------------------------------
// Small executable helpers
// ------------------------------------------------------------------

/// Copies a bit vector.
pub fn copy_bits(v: &Vec<bool>) -> (r: Vec<bool>)
    ensures
        r@ == v@,
{
    let mut r: Vec<bool> = Vec::new();
    let mut i: usize = 0;
    while i < v.len()
        invariant
            i <= v.len(),
            r@ == v@.take(i as int),
        decreases v.len() - i,
    {
        r.push(v[i]);
        proof {
            assert(v@.take(i + 1) =~= v@.take(i as int).push(v@[i as int]));
        }
        i = i + 1;
    }
    proof {
        assert(v@.take(v@.len() as int) =~= v@);
    }
    r
}

/// Copies a bit slice into a vector.
pub fn bools_to_vec(s: &[bool]) -> (r: Vec<bool>)
    ensures
        r@ == s@,
{
    let mut r: Vec<bool> = Vec::new();
    let mut i: usize = 0;
    while i < s.len()
        invariant
            i <= s.len(),
            r@ == s@.take(i as int),
        decreases s.len() - i,
    {
        r.push(s[i]);
        proof {
            assert(s@.take(i + 1) =~= s@.take(i as int).push(s@[i as int]));
        }
        i = i + 1;
    }
    proof {
        assert(s@.take(s@.len() as int) =~= s@);
    }
    r
}

/// Compares a bit vector with a bit slice.
pub fn bits_eq(a: &Vec<bool>, b: &[bool]) -> (r: bool)
    ensures
        r == (a@ == b@),
{
    if a.len() != b.len() {
        proof {
            assert(a@ != b@);
        }
        return false;
    }
    let mut i: usize = 0;
    while i < a.len()
        invariant
            i <= a.len(),
            a@.len() == b@.len(),
            forall|j: int| 0 <= j < i ==> a@[j] == b@[j],
        decreases a.len() - i,
    {
        if a[i] != b[i] {
            proof {
                assert(a@[i as int] != b@[i as int]);
            }
            return false;
        }
        i = i + 1;
    }
    proof {
        assert(a@ =~= b@);
    }
    true
}

} // verus!
