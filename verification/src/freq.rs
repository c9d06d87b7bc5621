//! The frequency table builder: partitions the input bits into fixed-width
//! chunks and counts the occurrences of each distinct chunk value.
//!
//! A short trailing chunk is right-padded with zero bits when the zero-fill
//! policy is enabled; otherwise the build fails with a spillover condition
//! reporting the shortfall in bits.

use vstd::prelude::*;
use vstd::pervasive::VecAdditionalExecFns;
use vstd::arithmetic::div_mod::{
    lemma_add_mod_noop, lemma_mod_self_0, lemma_mod_sub_multiples_vanish, lemma_small_mod,
};
use vstd::arithmetic::mul::{
    lemma_mul_increases, lemma_mul_inequality, lemma_mul_is_distributive_add_other_way,
    lemma_mul_is_distributive_sub_other_way,
};
use crate::tree::bits_eq;

verus! {

/// The input's bit length is not a multiple of the chunk size and zero-fill
/// is disabled; `missing_bits` is how many bits short the last chunk falls.
#[derive(Debug)]
pub struct SpilloverError {
    pub missing_bits: usize,
}

/// A sequence of `n` zero bits.
pub open spec fn falses(n: nat) -> Seq<bool> {
    Seq::new(n, |i: int| false)
}

/// The input bits, right-padded with zero bits up to a multiple of `k`.
pub open spec fn zero_pad(bits: Seq<bool>, k: nat) -> Seq<bool> {
    if k == 0 || bits.len() % k == 0 {
        bits
    } else {
        bits + falses((k - bits.len() % k) as nat)
    }
}

/// The consecutive, non-overlapping `k`-bit chunks of a bit sequence whose
/// length is a multiple of `k`.
pub open spec fn chunk_list(bits: Seq<bool>, k: nat) -> Seq<Seq<bool>>
    decreases bits.len(),
{
    if k == 0 || bits.len() < k {
        Seq::empty()
    } else {
        seq![bits.take(k as int)] + chunk_list(bits.skip(k as int), k)
    }
}

/// The first index holding `c` as its chunk value, or `-1` when absent.
pub open spec fn key_index(t: Seq<(Seq<bool>, nat)>, c: Seq<bool>) -> int
    decreases t.len(),
{
    if t.len() == 0 {
        -1
    } else if t[0].0 == c {
        0
    } else {
        let r = key_index(t.drop_first(), c);
        if r == -1 {
            -1
        } else {
            r + 1
        }
    }
}

/// Counts one more occurrence of `c`: bumps its entry, or appends a fresh
/// entry with count one.
pub open spec fn bump(t: Seq<(Seq<bool>, nat)>, c: Seq<bool>) -> Seq<(Seq<bool>, nat)> {
    let i = key_index(t, c);
    if i == -1 {
        t.push((c, 1nat))
    } else {
        t.update(i, (c, (t[i].1 + 1) as nat))
    }
}

/// The frequency table of a chunk sequence: one entry per distinct chunk
/// value, in first-occurrence order, counts summed over all occurrences.
pub open spec fn freq_table(chunks: Seq<Seq<bool>>) -> Seq<(Seq<bool>, nat)>
    decreases chunks.len(),
{
    if chunks.len() == 0 {
        Seq::empty()
    } else {
        bump(freq_table(chunks.drop_last()), chunks.last())
    }
}

/// The mathematical value of an executable frequency table.
pub open spec fn freq_view(s: Seq<(Vec<bool>, usize)>) -> Seq<(Seq<bool>, nat)> {
    Seq::new(s.len(), |i: int| (s[i].0@, s[i].1 as nat))
}

/// The sum of all counts of a frequency table.
pub open spec fn sum_counts(t: Seq<(Seq<bool>, nat)>) -> nat
    decreases t.len(),
{
    if t.len() == 0 {
        0
    } else {
        t[0].1 + sum_counts(t.drop_first())
    }
}

/// `key_index` is `-1` or a position that holds its key.
pub proof fn lemma_key_index(t: Seq<(Seq<bool>, nat)>, c: Seq<bool>)
    ensures
        key_index(t, c) == -1 || (0 <= key_index(t, c) < t.len() && t[key_index(t, c)].0 == c),
    decreases t.len(),
{
    if t.len() > 0 && t[0].0 != c {
        lemma_key_index(t.drop_first(), c);
    }
}

/// Bumping one count raises the sum of counts by one.
#[verifier::rlimit(50)]
pub proof fn lemma_sum_counts_bump(t: Seq<(Seq<bool>, nat)>, c: Seq<bool>)
    ensures
        sum_counts(bump(t, c)) == sum_counts(t) + 1,
    decreases t.len(),
{
    lemma_key_index(t, c);
    if t.len() == 0 {
        assert(key_index(t, c) == -1);
        assert(bump(t, c) == t.push((c, 1nat)));
        assert(bump(t, c)[0] == (c, 1nat));
        assert(bump(t, c).drop_first() =~= Seq::<(Seq<bool>, nat)>::empty());
        assert(sum_counts(bump(t, c).drop_first()) == 0);
        assert(sum_counts(bump(t, c)) == 1);
        assert(sum_counts(t) == 0);
    } else if t[0].0 == c {
        assert(key_index(t, c) == 0);
        assert(bump(t, c) == t.update(0, (c, (t[0].1 + 1) as nat)));
        assert(bump(t, c)[0].1 == t[0].1 + 1);
        assert(bump(t, c).drop_first() =~= t.drop_first());
        assert(sum_counts(bump(t, c)) == bump(t, c)[0].1 + sum_counts(bump(t, c).drop_first()));
        assert(sum_counts(t) == t[0].1 + sum_counts(t.drop_first()));
    } else {
        lemma_key_index(t.drop_first(), c);
        let i = key_index(t, c);
        let r = key_index(t.drop_first(), c);
        lemma_sum_counts_bump(t.drop_first(), c);
        if i == -1 {
            assert(r == -1);
            assert(bump(t.drop_first(), c) == t.drop_first().push((c, 1nat)));
            assert(bump(t, c) == t.push((c, 1nat)));
            assert(bump(t, c).drop_first() =~= t.drop_first().push((c, 1nat)));
            assert(bump(t, c)[0] == t[0]);
            assert(sum_counts(bump(t, c)) == bump(t, c)[0].1 + sum_counts(
                bump(t, c).drop_first(),
            ));
            assert(sum_counts(bump(t, c).drop_first()) == sum_counts(bump(t.drop_first(), c)));
            assert(sum_counts(t) == t[0].1 + sum_counts(t.drop_first()));
        } else {
            assert(r == i - 1);
            assert(0 <= i < t.len());
            assert(t.drop_first()[i - 1] == t[i]);
            assert(bump(t, c) == t.update(i, (c, (t[i].1 + 1) as nat)));
            assert(bump(t.drop_first(), c) == t.drop_first().update(
                i - 1,
                (c, (t[i].1 + 1) as nat),
            ));
            assert(bump(t, c).drop_first() =~= t.drop_first().update(
                i - 1,
                (c, (t[i].1 + 1) as nat),
            ));
            assert(bump(t, c)[0] == t[0]);
            assert(sum_counts(bump(t, c)) == bump(t, c)[0].1 + sum_counts(
                bump(t, c).drop_first(),
            ));
            assert(sum_counts(bump(t, c).drop_first()) == sum_counts(bump(t.drop_first(), c)));
            assert(sum_counts(t) == t[0].1 + sum_counts(t.drop_first()));
        }
    }
}

/// Every single count is bounded by the sum of counts.
pub proof fn lemma_count_le_sum(t: Seq<(Seq<bool>, nat)>, i: int)
    requires
        0 <= i < t.len(),
    ensures
        t[i].1 <= sum_counts(t),
    decreases t.len(),
{
    if i > 0 {
        lemma_count_le_sum(t.drop_first(), i - 1);
    }
}

/// The counts of a frequency table sum to the number of chunks counted.
pub proof fn lemma_freq_table_total(chunks: Seq<Seq<bool>>)
    ensures
        sum_counts(freq_table(chunks)) == chunks.len(),
    decreases chunks.len(),
{
    if chunks.len() > 0 {
        lemma_freq_table_total(chunks.drop_last());
        lemma_sum_counts_bump(freq_table(chunks.drop_last()), chunks.last());
    }
}

/// A sequence whose length is a multiple of `k` splits into exactly
/// `len / k` chunks.
pub proof fn lemma_chunk_list_len(bits: Seq<bool>, k: nat)
    requires
        k >= 1,
        bits.len() % k == 0,
    ensures
        chunk_list(bits, k).len() * k == bits.len(),
    decreases bits.len(),
{
    if bits.len() < k {
        if bits.len() > 0 {
            lemma_small_mod(bits.len(), k);
        }
        assert(bits.len() == 0);
        assert(chunk_list(bits, k).len() == 0);
    } else {
        lemma_mod_sub_multiples_vanish(bits.len() as int, k as int);
        assert(bits.skip(k as int).len() % k == 0);
        lemma_chunk_list_len(bits.skip(k as int), k);
        let r = chunk_list(bits.skip(k as int), k).len();
        assert(chunk_list(bits, k).len() == 1 + r);
        assert((1 + r) * (k as int) == k + r * (k as int)) by {
            lemma_mul_is_distributive_add_other_way(k as int, 1, r as int);
        }
    }
}

/// Chunk `i` of the list is the corresponding subrange of the bits.
pub proof fn lemma_chunk_at(bits: Seq<bool>, k: nat, i: int)
    requires
        k >= 1,
        bits.len() % k == 0,
        0 <= i < chunk_list(bits, k).len(),
    ensures
        chunk_list(bits, k)[i] == bits.subrange(i * k, i * k + k),
    decreases i,
{
    lemma_chunk_list_len(bits, k);
    let l = chunk_list(bits, k).len() as int;
    if bits.len() < k {
        assert(l == 0);
    }
    assert(bits.len() >= k);
    assert(i * k + k <= bits.len()) by {
        lemma_mul_is_distributive_add_other_way(k as int, i, 1);
        lemma_mul_inequality(i + 1, l, k as int);
    }
    assert(chunk_list(bits, k) == seq![bits.take(k as int)] + chunk_list(
        bits.skip(k as int),
        k,
    ));
    if i == 0 {
        assert(i * k == 0) by {
            vstd::arithmetic::mul::lemma_mul_by_zero_is_zero(k as int);
        }
        assert(chunk_list(bits, k)[0] == bits.take(k as int));
        assert(bits.take(k as int) =~= bits.subrange(0, k as int));
    } else {
        lemma_mod_sub_multiples_vanish(bits.len() as int, k as int);
        assert(bits.skip(k as int).len() % k == 0);
        lemma_chunk_at(bits.skip(k as int), k, i - 1);
        assert(k <= i * k) by {
            lemma_mul_inequality(1, i, k as int);
        }
        assert((i - 1) * k == i * k - k) by {
            lemma_mul_is_distributive_sub_other_way(k as int, i, 1);
        }
        assert(chunk_list(bits, k)[i] == chunk_list(bits.skip(k as int), k)[i - 1]);
        assert(chunk_list(bits.skip(k as int), k)[i - 1] == bits.skip(k as int).subrange(
            (i - 1) * k,
            (i - 1) * k + k,
        ));
        assert(bits.skip(k as int).subrange(i * k - k, i * k) =~= bits.subrange(
            i * k,
            i * k + k,
        ));
    }
}

/// Basic facts about the zero-padded input and its chunk count.
pub proof fn lemma_zero_pad_facts(bits: Seq<bool>, k: nat)
    requires
        k >= 1,
    ensures
        zero_pad(bits, k).len() % k == 0,
        bits.len() <= zero_pad(bits, k).len() < bits.len() + k,
        forall|m: int| 0 <= m < bits.len() ==> zero_pad(bits, k)[m] == bits[m],
        forall|m: int|
            bits.len() <= m < zero_pad(bits, k).len() ==> zero_pad(bits, k)[m] == false,
        chunk_list(zero_pad(bits, k), k).len() * k == zero_pad(bits, k).len(),
        chunk_list(zero_pad(bits, k), k).len() <= bits.len(),
{
    let padded = zero_pad(bits, k);
    assert(padded.len() % k == 0) by {
        if bits.len() % k != 0 {
            let rem = bits.len() % k;
            vstd::arithmetic::div_mod::lemma_mod_division_less_than_divisor(
                bits.len() as int,
                k as int,
            );
            lemma_add_mod_noop(bits.len() as int, (k - rem) as int, k as int);
            lemma_small_mod((k - rem) as nat, k);
            lemma_mod_self_0(k as int);
        }
    }
    lemma_chunk_list_len(padded, k);
    let l = chunk_list(padded, k).len();
    if l > 0 {
        assert((l - 1) * k == l * k - k) by {
            lemma_mul_is_distributive_sub_other_way(k as int, l as int, 1);
        }
        assert(l - 1 <= (l - 1) * k) by {
            if l - 1 > 0 {
                lemma_mul_increases(k as int, l as int - 1);
                vstd::arithmetic::mul::lemma_mul_is_commutative(k as int, l as int - 1);
            }
        }
        assert((l - 1) * k < bits.len());
    }
}

/// Builds the frequency table of the input bits partitioned into chunks of
/// `chunksize` bits.  A short trailing chunk is zero-filled when the policy
/// allows it; otherwise the build reports the spillover.
#[verifier::loop_isolation(false)]
pub fn build_frequency_table(bits: &Vec<bool>, chunksize: usize, zerofill: bool) -> (r: Result<
    Vec<(Vec<bool>, usize)>,
    SpilloverError,
>)
    requires
        chunksize >= 1,
    ensures
        match r {
            Ok(table) => {
                &&& bits@.len() % (chunksize as nat) == 0 || zerofill
                &&& freq_view(table@) == freq_table(
                    chunk_list(zero_pad(bits@, chunksize as nat), chunksize as nat),
                )
            },
            Err(e) => {
                &&& !zerofill
                &&& bits@.len() % (chunksize as nat) != 0
                &&& e.missing_bits == chunksize - bits@.len() % (chunksize as nat)
            },
        },
{
    if !zerofill && bits.len() % chunksize != 0 {
        return Err(SpilloverError { missing_bits: chunksize - bits.len() % chunksize });
    }
    let ghost padded = zero_pad(bits@, chunksize as nat);
    let ghost chunks = chunk_list(padded, chunksize as nat);
    proof {
        assert(padded.len() % (chunksize as nat) == 0) by {
            if bits@.len() % (chunksize as nat) != 0 {
                let rem = bits@.len() % (chunksize as nat);
                vstd::arithmetic::div_mod::lemma_mod_division_less_than_divisor(
                    bits@.len() as int,
                    chunksize as int,
                );
                lemma_add_mod_noop(
                    bits@.len() as int,
                    (chunksize - rem) as int,
                    chunksize as int,
                );
                lemma_small_mod((chunksize - rem) as nat, chunksize as nat);
                lemma_mod_self_0(chunksize as int);
            }
        }
        lemma_chunk_list_len(padded, chunksize as nat);
        assert(forall|m: int| 0 <= m < bits@.len() ==> padded[m] == bits@[m]);
        assert(forall|m: int| bits@.len() <= m < padded.len() ==> padded[m] == false);
    }
    let mut table: Vec<(Vec<bool>, usize)> = Vec::new();
    let mut cursor: usize = 0;
    let mut done: usize = 0;
    proof {
        assert(freq_view(table@) =~= freq_table(chunks.take(0)));
        if bits@.len() == 0 {
            assert(chunks.take(0) =~= chunks);
        }
    }
    while bits.len() - cursor >= chunksize
        invariant
            cursor <= bits@.len(),
            cursor == done * chunksize,
            done <= chunks.len(),
            freq_view(table@) == freq_table(chunks.take(done as int)),
            sum_counts(freq_view(table@)) == done,
        decreases bits@.len() - cursor,
    {
        proof {
            assert(done < chunks.len()) by {
                lemma_mul_is_distributive_add_other_way(chunksize as int, done as int, 1);
                if done + 1 > chunks.len() {
                    lemma_mul_inequality(chunks.len() as int, done as int, chunksize as int);
                }
            }
            assert(done <= cursor) by {
                if done > 0 {
                    lemma_mul_increases(chunksize as int, done as int);
                    vstd::arithmetic::mul::lemma_mul_is_commutative(
                        chunksize as int,
                        done as int,
                    );
                }
            }
            lemma_chunk_at(padded, chunksize as nat, done as int);
            assert(padded.subrange(cursor as int, cursor as int) =~= Seq::<bool>::empty());
        }
        let mut chunk: Vec<bool> = Vec::new();
        let mut j: usize = 0;
        while j < chunksize
            invariant
                j <= chunksize,
                chunk@ == padded.subrange(cursor as int, cursor + j),
            decreases chunksize - j,
        {
            chunk.push(bits[cursor + j]);
            proof {
                assert(padded.subrange(cursor as int, cursor + j + 1) =~= padded.subrange(
                    cursor as int,
                    cursor + j,
                ).push(padded[cursor + j]));
            }
            j = j + 1;
        }
        proof {
            assert(chunk@ == chunks[done as int]);
            assert(chunks.take(done + 1).drop_last() =~= chunks.take(done as int));
            assert(chunks.take(done + 1).last() == chunks[done as int]);
            lemma_sum_counts_bump(freq_table(chunks.take(done as int)), chunks[done as int]);
        }
        bump_table(&mut table, chunk);
        proof {
            assert((done + 1) * chunksize == done * chunksize + chunksize) by {
                lemma_mul_is_distributive_add_other_way(chunksize as int, done as int, 1);
            }
        }
        cursor = cursor + chunksize;
        done = done + 1;
    }
    proof {
        assert((chunks.len() - done) * chunksize == padded.len() - done * chunksize) by {
            lemma_mul_is_distributive_sub_other_way(
                chunksize as int,
                chunks.len() as int,
                done as int,
            );
        }
        assert(done <= cursor) by {
            if done > 0 {
                lemma_mul_increases(chunksize as int, done as int);
                vstd::arithmetic::mul::lemma_mul_is_commutative(chunksize as int, done as int);
            }
        }
    }
    if cursor < bits.len() {
        // A short trailing chunk remains; the zero-fill policy admitted it.
        proof {
            if bits@.len() % (chunksize as nat) == 0 {
                assert((bits@.len() - cursor) % (chunksize as int) == 0) by {
                    vstd::arithmetic::div_mod::lemma_mod_multiples_vanish(
                        -(done as int),
                        bits@.len() as int,
                        chunksize as int,
                    );
                    vstd::arithmetic::mul::lemma_mul_is_commutative(
                        chunksize as int,
                        done as int,
                    );
                    vstd::arithmetic::mul::lemma_mul_unary_negation(
                        chunksize as int,
                        done as int,
                    );
                }
                lemma_small_mod((bits@.len() - cursor) as nat, chunksize as nat);
                assert(false);
            }
            assert(done + 1 == chunks.len()) by {
                if done + 1 < chunks.len() {
                    lemma_mul_inequality(2, chunks.len() - done, chunksize as int);
                    assert(padded.len() - done * chunksize >= 2 * chunksize);
                }
                if done >= chunks.len() {
                    assert(padded.len() - done * chunksize <= 0);
                }
            }
            assert(cursor + chunksize == padded.len()) by {
                vstd::arithmetic::mul::lemma_mul_basics(chunksize as int);
            }
            lemma_chunk_at(padded, chunksize as nat, done as int);
            assert(padded.subrange(cursor as int, cursor as int) =~= Seq::<bool>::empty());
        }
        let take_n: usize = bits.len() - cursor;
        let mut chunk: Vec<bool> = Vec::new();
        let mut j: usize = 0;
        while j < take_n
            invariant
                j <= take_n,
                chunk@ == padded.subrange(cursor as int, cursor + j),
            decreases take_n - j,
        {
            chunk.push(bits[cursor + j]);
            proof {
                assert(padded.subrange(cursor as int, cursor + j + 1) =~= padded.subrange(
                    cursor as int,
                    cursor + j,
                ).push(padded[cursor + j]));
            }
            j = j + 1;
        }
        while chunk.len() < chunksize
            invariant
                take_n <= chunk@.len() <= chunksize,
                chunk@ == padded.subrange(cursor as int, cursor + chunk@.len()),
            decreases chunksize - chunk@.len(),
        {
            chunk.push(false);
            proof {
                let l = chunk@.len() as int;
                assert(padded[cursor + l - 1] == false);
                assert(padded.subrange(cursor as int, cursor + l) =~= padded.subrange(
                    cursor as int,
                    cursor + l - 1,
                ).push(padded[cursor + l - 1]));
            }
        }
        proof {
            assert(chunk@ == chunks[done as int]);
            assert(chunks.take(done + 1).drop_last() =~= chunks.take(done as int));
            assert(chunks.take(done + 1).last() == chunks[done as int]);
            lemma_sum_counts_bump(freq_table(chunks.take(done as int)), chunks[done as int]);
        }
        bump_table(&mut table, chunk);
        proof {
            assert(chunks.take(done + 1) =~= chunks);
        }
    } else {
        proof {
            assert(done == chunks.len()) by {
                if done < chunks.len() {
                    lemma_mul_inequality(1, chunks.len() - done, chunksize as int);
                    vstd::arithmetic::mul::lemma_mul_basics(chunksize as int);
                    assert(padded.len() - done * chunksize >= chunksize);
                }
                if done > chunks.len() {
                    assert((chunks.len() - done) * chunksize < 0) by {
                        lemma_mul_inequality(chunks.len() - done, -1, chunksize as int);
                    }
                }
            }
            assert(chunks.take(done as int) =~= chunks);
        }
    }
    Ok(table)
}

/// Counts one more occurrence of `chunk` in the table.
#[verifier::loop_isolation(false)]
fn bump_table(table: &mut Vec<(Vec<bool>, usize)>, chunk: Vec<bool>)
    requires
        sum_counts(freq_view(old(table)@)) < usize::MAX,
    ensures
        freq_view(final(table)@) == bump(freq_view(old(table)@), chunk@),
{
    let ghost tv = freq_view(table@);
    proof {
        lemma_key_index(tv, chunk@);
    }
    let mut i: usize = 0;
    while i < table.len()
        invariant
            i <= table@.len(),
            table@ == old(table)@,
            forall|j: int| 0 <= j < i ==> tv[j].0 != chunk@,
        decreases table@.len() - i,
    {
        let hit: bool = bits_eq(&table[i].0, chunk.as_slice());
        if hit {
            proof {
                lemma_key_index_found(tv, chunk@, i as int);
                lemma_count_le_sum(tv, i as int);
            }
            let count: usize = table[i].1;
            let key: Vec<bool> = chunk;
            table.set(i, (key, count + 1));
            proof {
                assert(freq_view(table@) =~= bump(tv, chunk@));
            }
            return ;
        }
        i = i + 1;
    }
    proof {
        lemma_key_index_absent(tv, chunk@);
    }
    table.push((chunk, 1));
    proof {
        assert(freq_view(table@) =~= bump(tv, chunk@));
    }
}

/// When the first `i` keys differ from `c` and key `i` matches, `c`'s first
/// index is `i`.
proof fn lemma_key_index_found(t: Seq<(Seq<bool>, nat)>, c: Seq<bool>, i: int)
    requires
        0 <= i < t.len(),
        forall|j: int| 0 <= j < i ==> t[j].0 != c,
        t[i].0 == c,
    ensures
        key_index(t, c) == i,
    decreases i,
{
    if i > 0 {
        assert(t[0].0 != c);
        lemma_key_index_found(t.drop_first(), c, i - 1);
    }
}

/// When no key equals `c`, `c` is absent.
proof fn lemma_key_index_absent(t: Seq<(Seq<bool>, nat)>, c: Seq<bool>)
    requires
        forall|j: int| 0 <= j < t.len() ==> t[j].0 != c,
    ensures
        key_index(t, c) == -1,
    decreases t.len(),
{
    if t.len() > 0 {
        lemma_key_index_absent(t.drop_first(), c);
    }
}

} // verus!
