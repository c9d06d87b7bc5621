//! The encoder: assembles header metadata, the serialized symbol tree, and
//! the per-chunk codes into the final bit sequence, padded to a whole number
//! of bytes with the padding width recorded in the header's reserved bits.

use vstd::prelude::*;
use vstd::arithmetic::power2::{pow2, lemma2_to64};
use vstd::arithmetic::mul::{
    lemma_mul_inequality, lemma_mul_is_commutative, lemma_mul_is_distributive_add_other_way,
    lemma_mul_is_distributive_sub_other_way,
};
use vstd::arithmetic::div_mod::lemma_small_mod;
use crate::bits::{bytes_bits, bytes_to_bits, push_val_bits, val_bits};
use crate::freq::{
    SpilloverError, build_frequency_table, chunk_list, falses, freq_table, lemma_chunk_at,
    lemma_freq_table_total, lemma_zero_pad_facts, zero_pad,
};
use crate::synth::{synth_tree, synthesize_tree};
use crate::table::{
    flip_entries, lemma_tree_flip_get, lookup_tree, pairs_view, table_get, tree_entries,
};
use crate::tree::{Tree, TreeModel, _find_tree, concat_tree, deconstruct_tree, leaf_bits,
    shape_bits, tree_find};
use vstd::pervasive::VecAdditionalExecFns;

verus! {

/// The smallest byte count whose little-endian bytes beyond it are zero,
/// in other words the smallest width that can hold `k`.
pub open spec fn byte_count(k: nat) -> nat {
    if k < 0x100 {
        1
    } else if k < 0x10000 {
        2
    } else if k < 0x1000000 {
        3
    } else {
        4
    }
}

/// The stream header before the trim count is patched in: the two-bit byte
/// count code, the chunk size big-endian over that many bytes, and three
/// reserved bits.
pub open spec fn header_bits(k: nat) -> Seq<bool> {
    val_bits((byte_count(k) - 1) as nat, 2) + val_bits(k, 8 * byte_count(k)) + falses(3)
}

/// The code emitted for one chunk: its root-to-leaf path, or nothing when
/// the tree holds no leaf with that value.
pub open spec fn path_bits(t: TreeModel, chunk: Seq<bool>) -> Seq<bool> {
    match tree_find(t, chunk) {
        Some(p) => p,
        None => Seq::empty(),
    }
}

/// The concatenated codes of all chunks, in input order.
pub open spec fn payload_bits(t: TreeModel, chunks: Seq<Seq<bool>>) -> Seq<bool>
    decreases chunks.len(),
{
    if chunks.len() == 0 {
        Seq::empty()
    } else {
        path_bits(t, chunks[0]) + payload_bits(t, chunks.drop_first())
    }
}

/// Appending one chunk appends its code.
pub proof fn lemma_payload_bits_push(t: TreeModel, chunks: Seq<Seq<bool>>, c: Seq<bool>)
    ensures
        payload_bits(t, chunks.push(c)) == payload_bits(t, chunks) + path_bits(t, c),
    decreases chunks.len(),
{
    if chunks.len() == 0 {
        assert(chunks.push(c)[0] == c);
        assert(chunks.push(c).drop_first() =~= Seq::<Seq<bool>>::empty());
        assert(payload_bits(t, chunks.push(c).drop_first()) == Seq::<bool>::empty());
        assert(payload_bits(t, chunks.push(c)) =~= payload_bits(t, chunks) + path_bits(t, c));
    } else {
        assert(chunks.push(c)[0] == chunks[0]);
        assert(chunks.push(c).drop_first() =~= chunks.drop_first().push(c));
        lemma_payload_bits_push(t, chunks.drop_first(), c);
        assert(payload_bits(t, chunks.push(c)) == path_bits(t, chunks[0]) + payload_bits(
            t,
            chunks.drop_first().push(c),
        ));
        assert(payload_bits(t, chunks.push(c)) =~= payload_bits(t, chunks) + path_bits(t, c));
    }
}

/// The whole stream body before byte padding: header, tree shape, leaf
/// values, payload codes.
pub open spec fn encode_body(data: Seq<u8>, k: nat, zerofill: bool) -> Seq<bool> {
    let bits = bytes_bits(data);
    let chunks = chunk_list(zero_pad(bits, k), k);
    let tree = synth_tree(freq_table(chunks));
    header_bits(k) + shape_bits(tree) + leaf_bits(tree) + payload_bits(tree, chunks)
}

/// How many zero bits pad a stream of `n` bits to a byte boundary.
pub open spec fn pad_len(n: nat) -> nat {
    (((8 - n % 8) as int) % 8) as nat
}

/// The complete encoded stream: the padded body with the padding width
/// patched into the three reserved header bits, big-endian.
pub open spec fn encode_spec(data: Seq<u8>, k: nat, zerofill: bool) -> Seq<bool> {
    let body = encode_body(data, k, zerofill);
    let r = pad_len(body.len());
    let padded = body + falses(r);
    let pos = 2 + 8 * byte_count(k);
    padded.update(pos as int, val_bits(r, 3)[0]).update(pos as int + 1, val_bits(r, 3)[1]).update(
        pos as int + 2,
        val_bits(r, 3)[2],
    )
}

/// Extracts the chunk starting at `cursor`, zero-filled past the input end.
#[verifier::loop_isolation(false)]
fn extract_chunk(bits: &Vec<bool>, chunksize: usize, cursor: usize, Ghost(padded): Ghost<
    Seq<bool>,
>) -> (c: Vec<bool>)
    requires
        chunksize >= 1,
        cursor <= bits@.len(),
        cursor + chunksize <= padded.len(),
        bits@.len() <= padded.len(),
        forall|m: int| 0 <= m < bits@.len() ==> padded[m] == bits@[m],
        forall|m: int| bits@.len() <= m < padded.len() ==> padded[m] == false,
    ensures
        c@ == padded.subrange(cursor as int, cursor + chunksize),
{
    let avail: usize = bits.len() - cursor;
    let take_n: usize = if avail < chunksize {
        avail
    } else {
        chunksize
    };
    let mut chunk: Vec<bool> = Vec::new();
    proof {
        assert(padded.subrange(cursor as int, cursor as int) =~= Seq::<bool>::empty());
    }
    let mut j: usize = 0;
    while j < take_n
        invariant
            j <= take_n,
            chunk@ == padded.subrange(cursor as int, cursor + j),
        decreases take_n - j,
    {
        chunk.push(bits[cursor + j]);
        proof {
            assert(padded.subrange(cursor as int, cursor + j + 1) =~= padded.subrange(
                cursor as int,
                cursor + j,
            ).push(padded[cursor + j]));
        }
        j = j + 1;
    }
    while chunk.len() < chunksize
        invariant
            take_n <= chunk@.len() <= chunksize,
            chunk@ == padded.subrange(cursor as int, cursor + chunk@.len()),
        decreases chunksize - chunk@.len(),
    {
        chunk.push(false);
        proof {
            let l = chunk@.len() as int;
            assert(padded[cursor + l - 1] == false);
            assert(padded.subrange(cursor as int, cursor + l) =~= padded.subrange(
                cursor as int,
                cursor + l - 1,
            ).push(padded[cursor + l - 1]));
        }
    }
    chunk
}

/// Compresses the input bytes: builds the frequency table and the symbol
/// tree, then emits header, tree shape, leaf values and per-chunk codes as
/// one bit sequence padded to a byte boundary.  Fails with the spillover
/// condition when the input's bit length is not a multiple of `chunksize`
/// and zero-fill is disabled.  With `hashing` set the per-chunk codes come
/// from a precomputed path table instead of a tree search; the output is
/// identical.
#[verifier::loop_isolation(false)]
#[verifier::rlimit(100)]
pub fn compress_data(data: &[u8], chunksize: usize, zerofill: bool, hashing: bool) -> (r: Result<
    Vec<bool>,
    SpilloverError,
>)
    requires
        1 <= chunksize < 0x1_0000_0000,
    ensures
        match r {
            Ok(out) => {
                &&& bytes_bits(data@).len() % (chunksize as nat) == 0 || zerofill
                &&& out@ == encode_spec(data@, chunksize as nat, zerofill)
            },
            Err(e) => {
                &&& !zerofill
                &&& bytes_bits(data@).len() % (chunksize as nat) != 0
                &&& e.missing_bits == chunksize - bytes_bits(data@).len() % (chunksize as nat)
            },
        },
{
    let bits = bytes_to_bits(data);
    let nbits = bits.len();
    let table = match build_frequency_table(&bits, chunksize, zerofill) {
        Ok(t) => t,
        Err(e) => {
            return Err(e);
        },
    };
    let ghost padded = zero_pad(bits@, chunksize as nat);
    let ghost chunks = chunk_list(padded, chunksize as nat);
    proof {
        lemma_zero_pad_facts(bits@, chunksize as nat);
        lemma_freq_table_total(chunks);
    }
    let tree = synthesize_tree(table);
    let ghost tm = synth_tree(freq_table(chunks));
    let mut out: Vec<bool> = Vec::new();
    let bbl: usize = if chunksize < 256 {
        1
    } else if chunksize < 65536 {
        2
    } else if chunksize < 16777216 {
        3
    } else {
        4
    };
    proof {
        lemma2_to64();
        assert(bbl == byte_count(chunksize as nat));
        assert((chunksize as nat) < pow2((8 * bbl) as nat));
        assert(((bbl - 1) as nat) < pow2(2));
    }
    push_val_bits(&mut out, bbl - 1, 2);
    push_val_bits(&mut out, chunksize, 8 * bbl);
    out.push(false);
    out.push(false);
    out.push(false);
    proof {
        assert(out@ =~= header_bits(chunksize as nat));
    }
    let mut shape = deconstruct_tree(&tree);
    out.append(&mut shape);
    let mut leafvals = concat_tree(&tree);
    out.append(&mut leafvals);
    let ghost pre_payload = out@;
    proof {
        assert(pre_payload == header_bits(chunksize as nat) + shape_bits(tm) + leaf_bits(tm));
    }
    // Per-chunk codes, via the path table or the direct tree search.
    let empty_path: Vec<bool> = Vec::new();
    let path_table: Vec<(Vec<bool>, Vec<bool>)> = if hashing {
        lookup_tree(&tree, empty_path.as_slice(), true)
    } else {
        Vec::new()
    };
    proof {
        if hashing {
            assert(pairs_view(path_table@) == flip_entries(tree_entries(tm, empty_path@)));
        }
        assert(payload_bits(tm, chunks.take(0)) == Seq::<bool>::empty());
        assert(out@ =~= pre_payload + payload_bits(tm, chunks.take(0)));
    }
    let mut cursor: usize = 0;
    let mut done: usize = 0;
    while nbits - cursor >= chunksize
        invariant
            cursor <= nbits,
            cursor == done * chunksize,
            done <= chunks.len(),
            out@ == pre_payload + payload_bits(tm, chunks.take(done as int)),
        decreases nbits - cursor,
    {
        proof {
            assert(done < chunks.len()) by {
                lemma_mul_is_distributive_add_other_way(chunksize as int, done as int, 1);
                if done + 1 > chunks.len() {
                    lemma_mul_inequality(chunks.len() as int, done as int, chunksize as int);
                }
            }
            assert(cursor + chunksize <= padded.len()) by {
                lemma_mul_is_distributive_add_other_way(chunksize as int, done as int, 1);
                lemma_mul_inequality(done + 1, chunks.len() as int, chunksize as int);
            }
            lemma_chunk_at(padded, chunksize as nat, done as int);
        }
        let chunk = extract_chunk(&bits, chunksize, cursor, Ghost(padded));
        proof {
            assert(chunk@ == chunks[done as int]);
        }
        emit_code(&mut out, &tree, &path_table, hashing, &chunk, Ghost(tm));
        proof {
            assert(chunks.take(done + 1) =~= chunks.take(done as int).push(chunks[done as int]));
            lemma_payload_bits_push(tm, chunks.take(done as int), chunks[done as int]);
            assert(out@ =~= pre_payload + payload_bits(tm, chunks.take(done + 1)));
            assert((done + 1) * chunksize == done * chunksize + chunksize) by {
                lemma_mul_is_distributive_add_other_way(chunksize as int, done as int, 1);
            }
        }
        cursor = cursor + chunksize;
        done = done + 1;
    }
    proof {
        assert((chunks.len() - done) * chunksize == padded.len() - done * chunksize) by {
            lemma_mul_is_distributive_sub_other_way(
                chunksize as int,
                chunks.len() as int,
                done as int,
            );
        }
    }
    if cursor < nbits {
        // A short trailing chunk remains; the zero-fill policy admitted it.
        proof {
            if bits@.len() % (chunksize as nat) == 0 {
                assert((bits@.len() - cursor) % (chunksize as int) == 0) by {
                    vstd::arithmetic::div_mod::lemma_mod_multiples_vanish(
                        -(done as int),
                        bits@.len() as int,
                        chunksize as int,
                    );
                    lemma_mul_is_commutative(chunksize as int, done as int);
                    vstd::arithmetic::mul::lemma_mul_unary_negation(
                        chunksize as int,
                        done as int,
                    );
                }
                lemma_small_mod((bits@.len() - cursor) as nat, chunksize as nat);
                assert(false);
            }
            assert(done + 1 == chunks.len()) by {
                if done + 1 < chunks.len() {
                    lemma_mul_inequality(2, chunks.len() - done, chunksize as int);
                    assert(padded.len() - done * chunksize >= 2 * chunksize);
                }
                if done >= chunks.len() {
                    assert(padded.len() - done * chunksize <= 0);
                }
            }
            assert(cursor + chunksize == padded.len()) by {
                vstd::arithmetic::mul::lemma_mul_basics(chunksize as int);
            }
            lemma_chunk_at(padded, chunksize as nat, done as int);
        }
        let chunk = extract_chunk(&bits, chunksize, cursor, Ghost(padded));
        proof {
            assert(chunk@ == chunks[done as int]);
        }
        emit_code(&mut out, &tree, &path_table, hashing, &chunk, Ghost(tm));
        proof {
            assert(chunks.take(done + 1) =~= chunks.take(done as int).push(chunks[done as int]));
            lemma_payload_bits_push(tm, chunks.take(done as int), chunks[done as int]);
            assert(chunks.take(done + 1) =~= chunks);
            assert(out@ =~= pre_payload + payload_bits(tm, chunks));
        }
    } else {
        proof {
            assert(done == chunks.len()) by {
                if done < chunks.len() {
                    lemma_mul_inequality(1, chunks.len() - done, chunksize as int);
                    vstd::arithmetic::mul::lemma_mul_basics(chunksize as int);
                    assert(padded.len() - done * chunksize >= chunksize);
                }
                if done > chunks.len() {
                    assert((chunks.len() - done) * chunksize < 0) by {
                        lemma_mul_inequality(chunks.len() - done, -1, chunksize as int);
                    }
                }
            }
            assert(chunks.take(done as int) =~= chunks);
        }
    }
    let ghost body = out@;
    proof {
        assert(body == encode_body(data@, chunksize as nat, zerofill));
    }
    // Pad to a byte boundary and record the padding width in the three
    // reserved header bits.
    let rem: usize = out.len() % 8;
    let trim: usize = if rem == 0 {
        0
    } else {
        8 - rem
    };
    proof {
        assert(trim as nat == pad_len(body.len()));
    }
    let mut padcount: usize = 0;
    while padcount < trim
        invariant
            padcount <= trim,
            out@ == body + falses(padcount as nat),
        decreases trim - padcount,
    {
        out.push(false);
        proof {
            assert(body + falses((padcount + 1) as nat) =~= (body + falses(
                padcount as nat,
            )).push(false));
        }
        padcount = padcount + 1;
    }
    let pos: usize = 2 + 8 * bbl;
    proof {
        lemma2_to64();
        assert(header_bits(chunksize as nat).len() == 2 + 8 * bbl + 3);
        assert(out@.len() >= pos + 3);
        assert(val_bits(trim as nat, 3)[0] == (trim >= 4));
        assert(val_bits(trim as nat, 3)[1] == (trim % 4 >= 2));
        assert(val_bits(trim as nat, 3)[2] == (trim % 2 == 1));
    }
    out.set(pos, trim >= 4);
    out.set(pos + 1, trim % 4 >= 2);
    out.set(pos + 2, trim % 2 == 1);
    proof {
        assert(out@ =~= encode_spec(data@, chunksize as nat, zerofill));
    }
    Ok(out)
}

/// Emits the code of one chunk: a path table lookup under acceleration, a
/// depth-first tree search otherwise.  Both find the same path, so nothing
/// of the output depends on the mode.
#[verifier::loop_isolation(false)]
fn emit_code(
    out: &mut Vec<bool>,
    tree: &Tree,
    path_table: &Vec<(Vec<bool>, Vec<bool>)>,
    hashing: bool,
    chunk: &Vec<bool>,
    Ghost(tm): Ghost<TreeModel>,
)
    requires
        tree@ == tm,
        hashing ==> pairs_view(path_table@) == flip_entries(
            tree_entries(tm, Seq::<bool>::empty()),
        ),
    ensures
        final(out)@ == old(out)@ + path_bits(tm, chunk@),
{
    if hashing {
        proof {
            lemma_tree_flip_get(tm, Seq::<bool>::empty(), chunk@);
        }
        match table_get(path_table, chunk) {
            Some(mut p) => {
                proof {
                    assert(Seq::<bool>::empty() + path_bits(tm, chunk@) =~= path_bits(
                        tm,
                        chunk@,
                    ));
                }
                out.append(&mut p);
            },
            None => {
                proof {
                    assert(out@ =~= out@ + path_bits(tm, chunk@));
                }
            },
        }
    } else {
        match _find_tree(tree, chunk.as_slice()) {
            Some(mut p) => {
                out.append(&mut p);
            },
            None => {
                proof {
                    assert(out@ =~= out@ + path_bits(tm, chunk@));
                }
            },
        }
    }
}

} // verus!
