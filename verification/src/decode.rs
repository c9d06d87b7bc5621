//! The decoder: a single-pass state machine over the encoded bit sequence.
//! It reads the header, drops the recorded tail padding, rebuilds the tree
//! shape one bit at a time, fills the leaves one chunk at a time, and then
//! replays the payload codes back into original-width chunks.

use vstd::prelude::*;
use vstd::arithmetic::power2::lemma2_to64;
use crate::bits::{be_val, bytes_bits, bytes_to_bits, lemma_be_val_bound, read_val_bits};
use crate::table::{lemma_tree_get_path, lookup_tree, pairs_view, table_get, tree_entries};
use crate::tree::{
    NodeKind, Tree, TreeModel, check_tree, construct_tree, empty_tree_model, fill_tree,
    lemma_read_is_exact, lemma_tree_construct_some, lemma_tree_fill_some, path_value, read_tree,
    tree_construct, tree_contains_kind, tree_fill, tree_read,
};

verus! {

/// The stream's header declares a configuration inconsistent with the bits
/// that follow it: the stream cannot be decoded, and no partial output is
/// produced.
#[derive(Debug)]
pub struct MalformedStream;

/// Feeds stream bits one at a time into shape construction until no `Empty`
/// slot remains; `None` when the bits run out first.
pub open spec fn build_shape(t: TreeModel, bits: Seq<bool>, i: int) -> Option<(TreeModel, int)>
    decreases bits.len() - i,
{
    if !tree_contains_kind(t, NodeKind::Empty) {
        Some((t, i))
    } else if i < 0 || i >= bits.len() {
        None
    } else {
        match tree_construct(t, bits[i]) {
            Some(t2) => build_shape(t2, bits, i + 1),
            None => None,
        }
    }
}

/// Feeds `k`-bit groups into leaf-value reconstruction until no `Data` slot
/// remains; `None` when the bits run out first.
pub open spec fn build_fill(t: TreeModel, bits: Seq<bool>, i: int, k: nat) -> Option<
    (TreeModel, int),
>
    decreases bits.len() - i,
{
    if !tree_contains_kind(t, NodeKind::Data) {
        Some((t, i))
    } else if i < 0 || k == 0 || i + k > bits.len() {
        None
    } else {
        match tree_fill(t, bits.subrange(i, i + k)) {
            Some(t2) => build_fill(t2, bits, i + k, k),
            None => None,
        }
    }
}

/// Replays payload bits against the tree: each bit grows the candidate
/// path; the first leaf it reaches emits that leaf's chunk and restarts at
/// the root.  Bits of an unfinished trailing code are dropped.
pub open spec fn replay(root: TreeModel, bits: Seq<bool>, i: int, buf: Seq<bool>) -> Seq<bool>
    decreases bits.len() - i,
{
    if i < 0 || i >= bits.len() {
        Seq::empty()
    } else {
        let buf2 = buf.push(bits[i]);
        match tree_read(root, buf2) {
            Some(v) => v + replay(root, bits, i + 1, Seq::empty()),
            None => replay(root, bits, i + 1, buf2),
        }
    }
}

/// The decoded bit sequence of an encoded stream, or `None` when the stream
/// is malformed.
pub open spec fn decode_spec(data: Seq<u8>) -> Option<Seq<bool>> {
    let stream = bytes_bits(data);
    if stream.len() < 2 {
        None
    } else {
        let bbl = be_val(stream.subrange(0, 2)) + 1;
        let hdr = 2 + 8 * bbl + 3;
        if stream.len() < hdr {
            None
        } else {
            let k = be_val(stream.subrange(2, 2 + 8 * bbl as int));
            let trim = be_val(stream.subrange(2 + 8 * bbl as int, hdr as int));
            if k == 0 {
                None
            } else if trim > stream.len() {
                None
            } else {
                let eff = stream.take((stream.len() - trim) as int);
                if eff.len() < hdr {
                    None
                } else if eff.len() == hdr {
                    Some(Seq::empty())
                } else {
                    match build_shape(empty_tree_model(), eff, hdr as int) {
                        None => None,
                        Some((shaped, i2)) => match build_fill(shaped, eff, i2, k) {
                            None => None,
                            Some((full, i3)) => Some(
                                replay(full, eff.subrange(i3, eff.len() as int), 0, Seq::empty()),
                            ),
                        },
                    }
                }
            }
        }
    }
}

/// Decompresses an encoded stream back into the bit sequence of the
/// original chunks, in encode order.  Fails when the header declares a
/// configuration inconsistent with the remaining bits.  With `hashing` set
/// the codes are resolved through a precomputed path table instead of a
/// tree walk; the output is identical.
#[verifier::loop_isolation(false)]
#[verifier::rlimit(100)]
pub fn decompress_data(data: &[u8], hashing: bool) -> (r: Result<Vec<bool>, MalformedStream>)
    ensures
        match r {
            Ok(out) => decode_spec(data@) == Some(out@),
            Err(_) => decode_spec(data@) is None,
        },
{
    let stream = bytes_to_bits(data);
    let n = stream.len();
    if n < 2 {
        return Err(MalformedStream);
    }
    let code = read_val_bits(&stream, 0, 2);
    proof {
        lemma_be_val_bound(stream@.subrange(0, 2));
        lemma2_to64();
    }
    let bbl: usize = code + 1;
    let hdr: usize = 2 + 8 * bbl + 3;
    if n < hdr {
        return Err(MalformedStream);
    }
    let k = read_val_bits(&stream, 2, 8 * bbl);
    let trim = read_val_bits(&stream, 2 + 8 * bbl, 3);
    proof {
        lemma_be_val_bound(stream@.subrange(2 + 8 * bbl, hdr as int));
    }
    if k == 0 {
        return Err(MalformedStream);
    }
    if trim > n {
        return Err(MalformedStream);
    }
    let efflen: usize = n - trim;
    let ghost eff = stream@.take(efflen as int);
    if efflen < hdr {
        return Err(MalformedStream);
    }
    if efflen == hdr {
        return Ok(Vec::new());
    }
    // Shape phase: route bits into the first free slot until none remains.
    let mut tree = Tree::new();
    let mut cursor: usize = hdr;
    while !check_tree(&tree, NodeKind::Empty)
        invariant
            hdr <= cursor <= efflen,
            build_shape(empty_tree_model(), eff, hdr as int) == build_shape(
                tree@,
                eff,
                cursor as int,
            ),
        decreases efflen - cursor,
    {
        if cursor >= efflen {
            proof {
                assert(build_shape(tree@, eff, cursor as int) is None);
            }
            return Err(MalformedStream);
        }
        let bit = stream[cursor];
        proof {
            assert(eff[cursor as int] == bit);
            lemma_tree_construct_some(tree@, bit);
        }
        construct_tree(&mut tree, bit);
        cursor = cursor + 1;
    }
    let ghost shaped = tree@;
    let ghost shape_end = cursor as int;
    proof {
        assert(build_shape(empty_tree_model(), eff, hdr as int) == Some((shaped, shape_end)));
    }
    // Fill phase: route chunk-sized groups into the remaining leaf slots.
    while !check_tree(&tree, NodeKind::Data)
        invariant
            hdr <= cursor <= efflen,
            k >= 1,
            build_fill(shaped, eff, shape_end, k as nat) == build_fill(
                tree@,
                eff,
                cursor as int,
                k as nat,
            ),
        decreases efflen - cursor,
    {
        if efflen - cursor < k {
            proof {
                assert(build_fill(tree@, eff, cursor as int, k as nat) is None);
            }
            return Err(MalformedStream);
        }
        let mut group: Vec<bool> = Vec::new();
        let mut j: usize = 0;
        proof {
            assert(eff.subrange(cursor as int, cursor as int) =~= Seq::<bool>::empty());
        }
        while j < k
            invariant
                j <= k,
                cursor + k <= efflen,
                group@ == eff.subrange(cursor as int, cursor + j),
            decreases k - j,
        {
            group.push(stream[cursor + j]);
            proof {
                assert(eff[cursor + j] == stream@[cursor + j]);
                assert(eff.subrange(cursor as int, cursor + j + 1) =~= eff.subrange(
                    cursor as int,
                    cursor + j,
                ).push(eff[cursor + j]));
            }
            j = j + 1;
        }
        proof {
            lemma_tree_fill_some(tree@, group@);
        }
        fill_tree(&mut tree, group.as_slice());
        cursor = cursor + k;
    }
    let ghost full = tree@;
    let ghost fill_end = cursor as int;
    proof {
        assert(build_fill(shaped, eff, shape_end, k as nat) == Some((full, fill_end)));
    }
    // Payload phase: replay the codes against the completed tree.
    let ghost payload = eff.subrange(fill_end, eff.len() as int);
    let mut finaldata: Vec<bool> = Vec::new();
    let mut tmpval: Vec<bool> = Vec::new();
    let path_table: Vec<(Vec<bool>, Vec<bool>)> = if hashing {
        let empty_path: Vec<bool> = Vec::new();
        lookup_tree(&tree, empty_path.as_slice(), false)
    } else {
        Vec::new()
    };
    proof {
        if hashing {
            assert(pairs_view(path_table@) == tree_entries(full, Seq::<bool>::empty()));
        }
    }
    let ghost pstart = cursor as int;
    while cursor < efflen
        invariant
            pstart <= cursor <= efflen,
            tree@ == full,
            payload == eff.subrange(pstart, eff.len() as int),
            hashing ==> pairs_view(path_table@) == tree_entries(full, Seq::<bool>::empty()),
            hashing ==> forall|j: int|
                1 <= j <= tmpval@.len() ==> path_value(full, #[trigger] tmpval@.take(j)) is None,
            replay(full, payload, 0, Seq::empty()) == finaldata@ + replay(
                full,
                payload,
                cursor - pstart,
                tmpval@,
            ),
        decreases efflen - cursor,
    {
        let bit = stream[cursor];
        proof {
            assert(eff[cursor as int] == bit);
            assert(payload[cursor - pstart] == bit);
        }
        let ghost tmp_old = tmpval@;
        tmpval.push(bit);
        let ghost buf2 = tmpval@;
        let hit: Option<Vec<bool>> = if hashing {
            proof {
                assert forall|j: int| 1 <= j < buf2.len() implies path_value(
                    full,
                    #[trigger] buf2.take(j),
                ) is None by {
                    assert(buf2.take(j) =~= tmp_old.take(j));
                    assert(path_value(full, tmp_old.take(j)) is None);
                }
                lemma_read_is_exact(full, buf2);
                lemma_tree_get_path(full, Seq::<bool>::empty(), buf2);
                assert(Seq::<bool>::empty() + buf2 =~= buf2);
            }
            table_get(&path_table, &tmpval)
        } else {
            read_tree(&tree, tmpval.as_slice())
        };
        match hit {
            Some(mut v) => {
                proof {
                    assert(tree_read(full, buf2) == Some(v@));
                }
                finaldata.append(&mut v);
                tmpval = Vec::new();
            },
            None => {
                proof {
                    assert(tree_read(full, buf2) is None);
                    if hashing {
                        assert forall|j: int| 1 <= j <= buf2.len() implies path_value(
                            full,
                            #[trigger] buf2.take(j),
                        ) is None by {
                            if j < buf2.len() {
                                assert(buf2.take(j) =~= tmp_old.take(j));
                                assert(path_value(full, tmp_old.take(j)) is None);
                            } else {
                                assert(buf2.take(j) =~= buf2);
                            }
                        }
                    }
                }
            },
        }
        cursor = cursor + 1;
    }
    proof {
        assert(replay(full, payload, efflen - pstart, tmpval@) == Seq::<bool>::empty());
        assert(finaldata@ + Seq::<bool>::empty() =~= finaldata@);
        assert(decode_spec(data@) == Some(replay(full, payload, 0, Seq::<bool>::empty())));
    }
    Ok(finaldata)
}

} // verus!
