//! The tree synthesizer: merges the frequency-sorted candidate list pairwise
//! into parent nodes, round after round, until a single candidate remains;
//! that candidate's subtree is the symbol tree used for encoding.
//!
//! Each round sorts the candidates ascending by weight (a stable insertion
//! sort: equal weights keep their order), merges consecutive pairs into one
//! internal node whose weight is the pair's sum, and passes an unpaired
//! trailing candidate through unchanged.

use vstd::prelude::*;
use crate::freq::{freq_view, sum_counts};
use crate::tree::{NodeModel, NodeType, Tree, TreeModel, copy_bits, empty_tree_model, node_view};

verus! {

/// The mathematical value of one executable candidate entry.
pub open spec fn entry_view(e: (NodeType, usize)) -> (NodeModel, nat) {
    (node_view(e.0), e.1 as nat)
}

/// The mathematical value of an executable candidate list.
pub open spec fn entries_view(s: Seq<(NodeType, usize)>) -> Seq<(NodeModel, nat)> {
    Seq::new(s.len(), |i: int| entry_view(s[i]))
}

/// The initial candidates: one singleton leaf per frequency entry, weighted
/// by its count.
pub open spec fn candidates(ft: Seq<(Seq<bool>, nat)>) -> Seq<(NodeModel, nat)> {
    Seq::new(ft.len(), |i: int| (NodeModel::Value(ft[i].0), ft[i].1))
}

/// Inserts an entry before the first strictly heavier entry, keeping the
/// list sorted ascending by weight and the insertion stable.
pub open spec fn insert_sorted(t: Seq<(NodeModel, nat)>, e: (NodeModel, nat)) -> Seq<
    (NodeModel, nat),
>
    decreases t.len(),
{
    if t.len() == 0 {
        seq![e]
    } else if t[0].1 <= e.1 {
        seq![t[0]] + insert_sorted(t.drop_first(), e)
    } else {
        seq![e] + t
    }
}

/// Stable insertion sort ascending by weight.
pub open spec fn sort_entries(s: Seq<(NodeModel, nat)>) -> Seq<(NodeModel, nat)>
    decreases s.len(),
{
    if s.len() == 0 {
        Seq::empty()
    } else {
        insert_sorted(sort_entries(s.drop_last()), s.last())
    }
}

/// One merge round: consecutive pairs become internal nodes (first of the
/// pair as head, second as tail) with summed weight; an unpaired trailing
/// candidate passes through.
pub open spec fn merge_round(s: Seq<(NodeModel, nat)>) -> Seq<(NodeModel, nat)>
    decreases s.len(),
{
    if s.len() < 2 {
        s
    } else {
        seq![
            (
                NodeModel::Tree(Box::new(TreeModel { head: s[0].0, tail: s[1].0 })),
                (s[0].1 + s[1].1) as nat,
            ),
        ] + merge_round(s.skip(2))
    }
}

/// Inserting grows the list by one.
pub proof fn lemma_insert_sorted_len(t: Seq<(NodeModel, nat)>, e: (NodeModel, nat))
    ensures
        insert_sorted(t, e).len() == t.len() + 1,
    decreases t.len(),
{
    if t.len() > 0 && t[0].1 <= e.1 {
        lemma_insert_sorted_len(t.drop_first(), e);
    }
}

/// Sorting keeps the length.
pub proof fn lemma_sort_entries_len(s: Seq<(NodeModel, nat)>)
    ensures
        sort_entries(s).len() == s.len(),
    decreases s.len(),
{
    if s.len() > 0 {
        lemma_sort_entries_len(s.drop_last());
        lemma_insert_sorted_len(sort_entries(s.drop_last()), s.last());
    }
}

/// A merge round shrinks a list of two or more candidates.
pub proof fn lemma_merge_round_len(s: Seq<(NodeModel, nat)>)
    ensures
        s.len() >= 2 ==> merge_round(s).len() < s.len(),
        merge_round(s).len() <= s.len(),
        s.len() >= 1 ==> merge_round(s).len() >= 1,
    decreases s.len(),
{
    if s.len() >= 2 {
        lemma_merge_round_len(s.skip(2));
    }
}

/// Repeated merge-and-sort rounds until at most one candidate remains.
pub open spec fn synth_rounds(s: Seq<(NodeModel, nat)>) -> Seq<(NodeModel, nat)>
    decreases s.len(),
        via synth_rounds_decreases
{
    if s.len() <= 1 {
        s
    } else {
        synth_rounds(sort_entries(merge_round(s)))
    }
}

#[via_fn]
proof fn synth_rounds_decreases(s: Seq<(NodeModel, nat)>) {
    if s.len() > 1 {
        lemma_merge_round_len(s);
        lemma_sort_entries_len(merge_round(s));
    }
}

/// The tree synthesized from a frequency table.  No entries give the empty
/// tree.  A single distinct symbol gives a tree holding that symbol in both
/// slots, so that the wire format (which always serializes two child slots)
/// can carry it; its code is the single bit of the head branch.
pub open spec fn synth_tree(ft: Seq<(Seq<bool>, nat)>) -> TreeModel {
    let fin = synth_rounds(sort_entries(candidates(ft)));
    if fin.len() == 0 {
        empty_tree_model()
    } else {
        match fin[0].0 {
            NodeModel::Tree(sub) => *sub,
            NodeModel::Value(v) => TreeModel {
                head: NodeModel::Value(v),
                tail: NodeModel::Value(v),
            },
            _ => empty_tree_model(),
        }
    }
}

/// The total weight of a candidate list.
pub open spec fn weight_sum(s: Seq<(NodeModel, nat)>) -> nat
    decreases s.len(),
{
    if s.len() == 0 {
        0
    } else {
        s[0].1 + weight_sum(s.drop_first())
    }
}

/// Inserting adds the entry's weight to the total.
pub proof fn lemma_weight_insert_sorted(t: Seq<(NodeModel, nat)>, e: (NodeModel, nat))
    ensures
        weight_sum(insert_sorted(t, e)) == weight_sum(t) + e.1,
    decreases t.len(),
{
    if t.len() == 0 {
        assert(insert_sorted(t, e) == seq![e]);
        assert(insert_sorted(t, e)[0] == e);
        assert(insert_sorted(t, e).drop_first() =~= Seq::<(NodeModel, nat)>::empty());
        assert(weight_sum(insert_sorted(t, e)) == e.1 + weight_sum(
            insert_sorted(t, e).drop_first(),
        ));
        assert(weight_sum(insert_sorted(t, e).drop_first()) == 0);
        assert(weight_sum(t) == 0);
    } else if t[0].1 <= e.1 {
        lemma_weight_insert_sorted(t.drop_first(), e);
        assert(insert_sorted(t, e) == seq![t[0]] + insert_sorted(t.drop_first(), e));
        assert(insert_sorted(t, e)[0] == t[0]);
        assert(insert_sorted(t, e).drop_first() =~= insert_sorted(t.drop_first(), e));
        assert(weight_sum(insert_sorted(t, e)) == t[0].1 + weight_sum(
            insert_sorted(t.drop_first(), e),
        ));
        assert(weight_sum(t) == t[0].1 + weight_sum(t.drop_first()));
    } else {
        assert(insert_sorted(t, e) == seq![e] + t);
        assert(insert_sorted(t, e)[0] == e);
        assert(insert_sorted(t, e).drop_first() =~= t);
        assert(weight_sum(insert_sorted(t, e)) == e.1 + weight_sum(
            insert_sorted(t, e).drop_first(),
        ));
    }
}

/// Sorting keeps the total weight.
pub proof fn lemma_weight_sort(s: Seq<(NodeModel, nat)>)
    ensures
        weight_sum(sort_entries(s)) == weight_sum(s),
    decreases s.len(),
{
    if s.len() > 0 {
        lemma_weight_sort(s.drop_last());
        lemma_weight_insert_sorted(sort_entries(s.drop_last()), s.last());
        lemma_weight_drop_last(s);
    }
}

/// The total weight splits off the last entry.
proof fn lemma_weight_drop_last(s: Seq<(NodeModel, nat)>)
    requires
        s.len() > 0,
    ensures
        weight_sum(s) == weight_sum(s.drop_last()) + s.last().1,
    decreases s.len(),
{
    if s.len() == 1 {
        assert(s.drop_last() =~= Seq::<(NodeModel, nat)>::empty());
        assert(s.drop_first() =~= Seq::<(NodeModel, nat)>::empty());
    } else {
        lemma_weight_drop_last(s.drop_first());
        assert(s.drop_first().drop_last() =~= s.drop_last().drop_first());
        assert(s.drop_first().last() == s.last());
        assert(weight_sum(s) == s[0].1 + weight_sum(s.drop_first()));
        assert(weight_sum(s.drop_last()) == s[0].1 + weight_sum(s.drop_last().drop_first()));
    }
}

/// A merge round keeps the total weight.
pub proof fn lemma_weight_merge(s: Seq<(NodeModel, nat)>)
    ensures
        weight_sum(merge_round(s)) == weight_sum(s),
    decreases s.len(),
{
    if s.len() >= 2 {
        lemma_weight_merge(s.skip(2));
        let m = merge_round(s);
        assert(m[0].1 == s[0].1 + s[1].1);
        assert(m.drop_first() =~= merge_round(s.skip(2)));
        assert(weight_sum(m) == m[0].1 + weight_sum(m.drop_first()));
        assert(weight_sum(s) == s[0].1 + weight_sum(s.drop_first()));
        assert(weight_sum(s.drop_first()) == s[1].1 + weight_sum(s.drop_first().drop_first()));
        assert(s.drop_first().drop_first() =~= s.skip(2));
        assert(s.drop_first()[0] == s[1]);
    }
}

/// The candidates' weights are the frequency counts.
pub proof fn lemma_weight_candidates(ft: Seq<(Seq<bool>, nat)>)
    ensures
        weight_sum(candidates(ft)) == sum_counts(ft),
    decreases ft.len(),
{
    if ft.len() > 0 {
        lemma_weight_candidates(ft.drop_first());
        assert(candidates(ft).drop_first() =~= candidates(ft.drop_first()));
        assert(weight_sum(candidates(ft)) == candidates(ft)[0].1 + weight_sum(
            candidates(ft).drop_first(),
        ));
    }
}

/// `insert_sorted` inserts exactly at the first strictly heavier position.
proof fn lemma_insert_sorted_at(t: Seq<(NodeModel, nat)>, e: (NodeModel, nat), j: int)
    requires
        0 <= j <= t.len(),
        forall|m: int| 0 <= m < j ==> t[m].1 <= e.1,
        j < t.len() ==> t[j].1 > e.1,
    ensures
        insert_sorted(t, e) == t.take(j) + seq![e] + t.skip(j),
    decreases j,
{
    if j == 0 {
        if t.len() == 0 {
            assert(insert_sorted(t, e) =~= t.take(0) + seq![e] + t.skip(0));
        } else {
            assert(t[0].1 > e.1);
            assert(insert_sorted(t, e) == seq![e] + t);
            assert(insert_sorted(t, e) =~= t.take(0) + seq![e] + t.skip(0));
        }
    } else {
        assert(t[0].1 <= e.1);
        assert(insert_sorted(t, e) == seq![t[0]] + insert_sorted(t.drop_first(), e));
        assert(forall|m: int| 0 <= m < j - 1 ==> t.drop_first()[m].1 <= e.1);
        lemma_insert_sorted_at(t.drop_first(), e, j - 1);
        assert(insert_sorted(t, e) =~= t.take(j) + seq![e] + t.skip(j));
    }
}

/// Inserts one candidate into a weight-sorted list, before the first
/// strictly heavier entry.
#[verifier::loop_isolation(false)]
fn insert_entry(sorted: &mut Vec<(NodeType, usize)>, e: (NodeType, usize))
    ensures
        entries_view(final(sorted)@) == insert_sorted(entries_view(old(sorted)@), entry_view(e)),
{
    let ghost sv = entries_view(sorted@);
    let weight: usize = e.1;
    let mut j: usize = 0;
    while j < sorted.len() && sorted[j].1 <= weight
        invariant
            j <= sorted@.len(),
            sorted@ == old(sorted)@,
            forall|m: int| 0 <= m < j ==> sv[m].1 <= entry_view(e).1,
        decreases sorted@.len() - j,
    {
        j = j + 1;
    }
    proof {
        lemma_insert_sorted_at(sv, entry_view(e), j as int);
    }
    sorted.insert(j, e);
    proof {
        assert(entries_view(sorted@) =~= sv.take(j as int) + seq![entry_view(e)] + sv.skip(
            j as int,
        ));
    }
}

/// Sorts the candidates ascending by weight with a stable insertion sort.
#[verifier::loop_isolation(false)]
fn sort_candidates(src: Vec<(NodeType, usize)>) -> (r: Vec<(NodeType, usize)>)
    ensures
        entries_view(r@) == sort_entries(entries_view(src@)),
{
    let ghost orig = entries_view(src@);
    let mut rest = src;
    let mut sorted: Vec<(NodeType, usize)> = Vec::new();
    proof {
        assert(entries_view(sorted@) =~= sort_entries(orig.take(0)));
    }
    while rest.len() > 0
        invariant
            rest@.len() <= orig.len(),
            entries_view(rest@) == orig.skip(orig.len() - rest@.len()),
            entries_view(sorted@) == sort_entries(orig.take(orig.len() - rest@.len())),
        decreases rest@.len(),
    {
        let ghost i = orig.len() - rest@.len();
        let ghost rv = rest@;
        let e = rest.remove(0);
        proof {
            assert(rest@ =~= rv.drop_first());
            assert(entry_view(e) == entries_view(rv)[0]);
            assert(entries_view(rv)[0] == orig.skip(i)[0]);
            assert(orig.skip(i)[0] == orig[i]);
            assert(entries_view(rest@) =~= entries_view(rv).drop_first());
            assert(entries_view(rv).drop_first() =~= orig.skip(i + 1));
            assert(orig.take(i + 1).drop_last() =~= orig.take(i));
            assert(orig.take(i + 1).last() == orig[i]);
        }
        insert_entry(&mut sorted, e);
        proof {
            assert(entries_view(sorted@) == insert_sorted(sort_entries(orig.take(i)), orig[i]));
            assert(sort_entries(orig.take(i + 1)) == insert_sorted(
                sort_entries(orig.take(i + 1).drop_last()),
                orig.take(i + 1).last(),
            ));
        }
    }
    proof {
        assert(orig.take(orig.len() as int) =~= orig);
    }
    sorted
}

/// Merges consecutive pairs of candidates into internal nodes; an unpaired
/// trailing candidate passes through.
#[verifier::loop_isolation(false)]
fn merge_entries(cands: Vec<(NodeType, usize)>) -> (r: Vec<(NodeType, usize)>)
    requires
        weight_sum(entries_view(cands@)) <= usize::MAX,
    ensures
        entries_view(r@) == merge_round(entries_view(cands@)),
{
    let ghost orig = entries_view(cands@);
    let mut rest = cands;
    let mut out: Vec<(NodeType, usize)> = Vec::new();
    proof {
        assert(entries_view(out@) + merge_round(orig) =~= merge_round(orig));
    }
    while rest.len() >= 2
        invariant
            entries_view(out@) + merge_round(entries_view(rest@)) == merge_round(orig),
            weight_sum(entries_view(rest@)) <= usize::MAX,
        decreases rest@.len(),
    {
        let ghost rv = entries_view(rest@);
        let a = rest.remove(0);
        let b = rest.remove(0);
        proof {
            assert(entry_view(a) == rv[0]);
            assert(entry_view(b) == rv[1]);
            assert(entries_view(rest@) =~= rv.skip(2));
            assert(weight_sum(rv) == rv[0].1 + weight_sum(rv.drop_first()));
            assert(weight_sum(rv.drop_first()) == rv[1].1 + weight_sum(
                rv.drop_first().drop_first(),
            ));
            assert(rv.drop_first()[0] == rv[1]);
            assert(rv.drop_first().drop_first() =~= rv.skip(2));
        }
        let weight: usize = a.1 + b.1;
        out.push((NodeType::Tree(Box::new(Tree { head: a.0, tail: b.0 })), weight));
        proof {
            assert(merge_round(rv) == seq![
                (
                    NodeModel::Tree(Box::new(TreeModel { head: rv[0].0, tail: rv[1].0 })),
                    (rv[0].1 + rv[1].1) as nat,
                ),
            ] + merge_round(rv.skip(2)));
            assert(entries_view(out@) + merge_round(entries_view(rest@)) =~= merge_round(orig));
        }
    }
    if rest.len() == 1 {
        let ghost rv = entries_view(rest@);
        let e = rest.remove(0);
        out.push(e);
        proof {
            assert(merge_round(rv) == rv);
            assert(entry_view(e) == rv[0]);
            assert(entries_view(out@) =~= merge_round(orig));
        }
    } else {
        proof {
            assert(entries_view(rest@) =~= Seq::<(NodeModel, nat)>::empty());
            assert(merge_round(entries_view(rest@)) == entries_view(rest@));
            assert(entries_view(out@) =~= merge_round(orig));
        }
    }
    out
}

/// Synthesizes the symbol tree from a frequency table by tournament pairing:
/// sort ascending by weight, merge consecutive pairs, and repeat until one
/// candidate remains.
#[verifier::loop_isolation(false)]
pub fn synthesize_tree(table: Vec<(Vec<bool>, usize)>) -> (tree: Tree)
    requires
        sum_counts(freq_view(table@)) <= usize::MAX,
    ensures
        tree@ == synth_tree(freq_view(table@)),
{
    let ghost ft = freq_view(table@);
    let mut src = table;
    let mut cands: Vec<(NodeType, usize)> = Vec::new();
    proof {
        assert(entries_view(cands@) =~= candidates(ft).take(0));
    }
    while src.len() > 0
        invariant
            src@.len() <= ft.len(),
            freq_view(src@) == ft.skip(ft.len() - src@.len()),
            entries_view(cands@) == candidates(ft).take(ft.len() - src@.len()),
        decreases src@.len(),
    {
        let ghost i = ft.len() - src@.len();
        let ghost rv = src@;
        let e = src.remove(0);
        proof {
            assert(src@ =~= rv.drop_first());
            assert((e.0@, e.1 as nat) == freq_view(rv)[0]);
            assert(freq_view(rv)[0] == ft.skip(i)[0]);
            assert(ft.skip(i)[0] == ft[i]);
            assert(freq_view(src@) =~= freq_view(rv).drop_first());
            assert(freq_view(rv).drop_first() =~= ft.skip(i + 1));
        }
        cands.push((NodeType::Value(e.0), e.1));
        proof {
            assert(entries_view(cands@) =~= candidates(ft).take(i + 1));
        }
    }
    proof {
        assert(candidates(ft).take(ft.len() as int) =~= candidates(ft));
        lemma_weight_candidates(ft);
    }
    let mut cands = sort_candidates(cands);
    proof {
        lemma_weight_sort(candidates(ft));
        lemma_sort_entries_len(candidates(ft));
    }
    while cands.len() > 1
        invariant
            synth_rounds(entries_view(cands@)) == synth_rounds(sort_entries(candidates(ft))),
            weight_sum(entries_view(cands@)) <= usize::MAX,
        decreases cands@.len(),
    {
        let ghost before = entries_view(cands@);
        proof {
            lemma_merge_round_len(before);
            lemma_sort_entries_len(merge_round(before));
            lemma_weight_merge(before);
            lemma_weight_sort(merge_round(before));
        }
        let merged = merge_entries(cands);
        cands = sort_candidates(merged);
    }
    let ghost fin = synth_rounds(sort_entries(candidates(ft)));
    proof {
        assert(entries_view(cands@) == fin);
    }
    if cands.len() == 0 {
        Tree::new()
    } else {
        let e = cands.remove(0);
        proof {
            assert(entry_view(e) == fin[0]);
        }
        match e.0 {
            NodeType::Tree(sub) => *sub,
            NodeType::Value(v) => {
                let copy = copy_bits(&v);
                Tree { head: NodeType::Value(v), tail: NodeType::Value(copy) }
            },
            _ => Tree::new(),
        }
    }
}

} // verus!
