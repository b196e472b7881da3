//! Erasure coding over groups of blobs in a ring-shaped window.
//!
//! Every `NUM_CODED` consecutive absolute indices form a group: `NUM_DATA`
//! data blobs followed by `MAX_MISSING` parity blobs. `generate_coding`
//! fills the parity blobs of every complete group behind the frontier;
//! `recover` rebuilds up to `MAX_MISSING` missing blobs of a group from
//! the survivors. `generate_coding_blocks` and `decode_blocks` are the
//! same operations on bare byte blocks.

use vstd::prelude::*;
use vstd::pervasive::VecAdditionalExecFns;
use crate::codec::{
    blocks_sized, codeword_of, consistent_with, lemma_shards_len_uniform, parity_of,
    present_count, recover_of,
    rs_encode_sep, rs_reconstruct, shard_views, shards_len, uniform_blocks, unwrap_shards,
    views2,
};
use crate::packet::{
    copy_bytes_range, lemma_overwrite, overwrite, write_bytes_at, zero_vec, Blob, BlobRecycler,
    Meta, BLOB_DATA_SIZE, BLOB_FLAGS_OFFSET, BLOB_HEADER_SIZE, BLOB_INDEX_OFFSET, BLOB_SIZE,
    BLOB_SIZE_OFFSET,
};
use vstd::bytes::{spec_u64_from_le_bytes, spec_u64_to_le_bytes};

verus! {

/// Records per coded group.
pub const NUM_CODED: usize = 20;

/// Parity records per group: the most losses one group can absorb.
pub const MAX_MISSING: usize = 4;

/// Data records per group.
pub const NUM_DATA: usize = NUM_CODED - MAX_MISSING;

/// Everything that can go wrong in the erasure layer.
#[derive(Debug, PartialEq, Eq)]
pub enum ErasureError {
    /// Too few blocks survive to rebuild the missing ones. Kept for
    /// callers that test recoverability themselves; `recover` treats the
    /// condition as "skip the group".
    NotEnoughBlocksToDecode,
    /// More positions erased than parity blocks to rebuild them from.
    DecodeError,
    /// A parity blob rejected being marked as parity. Blobs of this crate
    /// never do; the kind is kept for callers.
    EncodeError,
    /// Blocks of unequal length were handed to the coding primitive, or a
    /// group's blocks would not fit a parity payload.
    InvalidBlockSize,
}

/// Position `j` occurs in the erasure list `es`.
pub open spec fn erased_at(es: Seq<i32>, j: int) -> bool {
    exists|t: int| 0 <= t < es.len() && es[t] == j
}

/// How many of the positions `[0, n)` occur in the erasure list `es`.
pub open spec fn count_erased(es: Seq<i32>, n: int) -> nat
    decreases n,
{
    if n <= 0 {
        0
    } else {
        count_erased(es, n - 1) + (if erased_at(es, n - 1) {
            1nat
        } else {
            0nat
        })
    }
}

/// The shard row that `decode_blocks` hands to the decoder: erased
/// positions are holes, the rest carry the given blocks.
pub open spec fn shards_from_blocks(
    data: Seq<Seq<u8>>,
    coding: Seq<Seq<u8>>,
    es: Seq<i32>,
) -> Seq<Option<Seq<u8>>> {
    Seq::new(
        data.len() + coding.len(),
        |j: int|
            if erased_at(es, j) {
                None
            } else if j < data.len() {
                Some(data[j])
            } else {
                Some(coding[j - data.len()])
            },
    )
}

/// Generate the parity blocks for `data` into `coding`.
///
/// With no data blocks there is nothing to encode. Otherwise every block,
/// data and parity alike, must have the length of the first data block;
/// a mismatch is reported as `InvalidBlockSize` and nothing is written.
/// On success the coding blocks hold exactly the Reed-Solomon parity of
/// the data blocks.
pub fn generate_coding_blocks(coding: &mut Vec<Vec<u8>>, data: &Vec<Vec<u8>>) -> (r: Result<
    (),
    ErasureError,
>)
    requires
        data@.len() + old(coding)@.len() <= 256,
        data@.len() > 0 && old(coding)@.len() > 0 ==> data@[0]@.len() >= 1,
    ensures
        final(coding)@.len() == old(coding)@.len(),
        r is Ok <==> (data@.len() == 0 || (uniform_blocks(views2(data@), data@[0]@.len() as nat)
            && uniform_blocks(views2(old(coding)@), data@[0]@.len() as nat))),
        r is Err ==> r == Err::<(), ErasureError>(ErasureError::InvalidBlockSize),
        r is Err ==> final(coding)@ == old(coding)@,
        data@.len() == 0 || old(coding)@.len() == 0 ==> final(coding)@ == old(coding)@,
        r is Ok && data@.len() > 0 && old(coding)@.len() > 0 ==> views2(final(coding)@)
            == parity_of(views2(data@), old(coding)@.len() as nat),
{
    if data.len() == 0 {
        return Ok(());
    }
    let block_len = data[0].len();
    let k = data.len();
    let m = coding.len();
    let mut i: usize = 0;
    while i < k
        invariant
            i <= k,
            k == data@.len(),
            block_len == data@[0]@.len(),
            forall|j: int| 0 <= j < i ==> (#[trigger] data@[j])@.len() == block_len,
        decreases k - i,
    {
        if data[i].len() != block_len {
            proof {
                assert(views2(data@)[i as int].len() != block_len);
            }
            return Err(ErasureError::InvalidBlockSize);
        }
        i = i + 1;
    }
    let mut i: usize = 0;
    while i < m
        invariant
            i <= m,
            m == coding@.len(),
            coding@ == old(coding)@,
            k == data@.len(),
            k > 0,
            block_len == data@[0]@.len(),
            forall|j: int| 0 <= j < i ==> (#[trigger] coding@[j])@.len() == block_len,
        decreases m - i,
    {
        if coding[i].len() != block_len {
            proof {
                assert(views2(old(coding)@)[i as int].len() != block_len);
            }
            return Err(ErasureError::InvalidBlockSize);
        }
        i = i + 1;
    }
    proof {
        assert forall|j: int| 0 <= j < k implies (#[trigger] views2(data@)[j]).len()
            == block_len by {}
        assert forall|j: int| 0 <= j < m implies (#[trigger] views2(coding@)[j]).len()
            == block_len by {}
    }
    if m == 0 {
        return Ok(());
    }
    rs_encode_sep(data, coding);
    Ok(())
}

/// Rebuild the erased blocks of a codeword row in place.
///
/// `data` and `coding` together form the row; `erasures` lists the erased
/// positions — data positions in `[0, data.len())`, coding positions
/// after — closed by a `-1` terminator. Blocks of unequal length are
/// `InvalidBlockSize`; more erased positions than coding blocks is
/// `DecodeError`. Otherwise every erased block, data and parity alike, is
/// overwritten with its reconstruction, and whenever the surviving blocks
/// agree with some codeword, the rebuilt row is that codeword byte for
/// byte.
pub fn decode_blocks(data: &mut Vec<Vec<u8>>, coding: &mut Vec<Vec<u8>>, erasures: &Vec<i32>) -> (r:
    Result<(), ErasureError>)
    requires
        old(data)@.len() + old(coding)@.len() <= 256,
        old(data)@.len() > 0 ==> old(data)@[0]@.len() >= 1,
        erasures@.len() >= 1,
        erasures@.last() == -1,
        forall|t: int|
            0 <= t < erasures@.len() - 1 ==> 0 <= #[trigger] erasures@[t] < old(data)@.len()
                + old(coding)@.len(),
    ensures
        final(data)@.len() == old(data)@.len(),
        final(coding)@.len() == old(coding)@.len(),
        r is Ok <==> (old(data)@.len() == 0 || (uniform_blocks(
            views2(old(data)@),
            old(data)@[0]@.len() as nat,
        ) && uniform_blocks(views2(old(coding)@), old(data)@[0]@.len() as nat) && count_erased(
            erasures@.drop_last(),
            old(data)@.len() + old(coding)@.len() as int,
        ) as int <= old(coding)@.len())),
        r == Err::<(), ErasureError>(ErasureError::InvalidBlockSize) <==> (old(data)@.len() > 0
            && !(uniform_blocks(views2(old(data)@), old(data)@[0]@.len() as nat)
            && uniform_blocks(views2(old(coding)@), old(data)@[0]@.len() as nat))),
        r == Err::<(), ErasureError>(ErasureError::DecodeError) <==> (old(data)@.len() > 0
            && uniform_blocks(views2(old(data)@), old(data)@[0]@.len() as nat) && uniform_blocks(
            views2(old(coding)@),
            old(data)@[0]@.len() as nat,
        ) && count_erased(erasures@.drop_last(), old(data)@.len() + old(coding)@.len() as int)
            > old(coding)@.len()),
        r is Err ==> final(data)@ == old(data)@ && final(coding)@ == old(coding)@,
        old(data)@.len() == 0 || old(coding)@.len() == 0 ==> final(data)@ == old(data)@
            && final(coding)@ == old(coding)@,
        r is Ok && old(data)@.len() > 0 && old(coding)@.len() > 0 ==> views2(final(data)@)
            + views2(final(coding)@) == recover_of(
            shards_from_blocks(views2(old(data)@), views2(old(coding)@), erasures@.drop_last()),
            old(data)@.len() as nat,
            old(coding)@.len() as nat,
        ),
        r is Ok && old(data)@.len() > 0 && old(coding)@.len() > 0 ==> forall|d: Seq<Seq<u8>>|
            blocks_sized(d, old(data)@.len() as nat, old(data)@[0]@.len() as nat)
                && #[trigger] consistent_with(
                shards_from_blocks(views2(old(data)@), views2(old(coding)@), erasures@.drop_last()),
                codeword_of(d, old(coding)@.len() as nat),
            ) ==> views2(final(data)@) == d && views2(final(coding)@) == parity_of(
                d,
                old(coding)@.len() as nat,
            ),
{
    if data.len() == 0 {
        return Ok(());
    }
    let k = data.len();
    let m = coding.len();
    let n = k + m;
    let block_len = data[0].len();
    let mut i: usize = 0;
    while i < m
        invariant
            i <= m,
            m == coding@.len(),
            coding@ == old(coding)@,
            data@ == old(data)@,
            k == data@.len(),
            k > 0,
            block_len == data@[0]@.len(),
            forall|j: int| 0 <= j < i ==> (#[trigger] coding@[j])@.len() == block_len,
        decreases m - i,
    {
        if coding[i].len() != block_len {
            proof {
                assert(views2(old(coding)@)[i as int].len() != block_len);
            }
            return Err(ErasureError::InvalidBlockSize);
        }
        i = i + 1;
    }
    let mut i: usize = 0;
    while i < k
        invariant
            i <= k,
            k == data@.len(),
            data@ == old(data)@,
            coding@ == old(coding)@,
            m == coding@.len(),
            k > 0,
            block_len == data@[0]@.len(),
            forall|j: int| 0 <= j < i ==> (#[trigger] data@[j])@.len() == block_len,
        decreases k - i,
    {
        if data[i].len() != block_len {
            proof {
                assert(views2(old(data)@)[i as int].len() != block_len);
            }
            return Err(ErasureError::InvalidBlockSize);
        }
        i = i + 1;
    }
    proof {
        assert forall|j: int| 0 <= j < k implies (#[trigger] views2(data@)[j]).len()
            == block_len by {}
        assert forall|j: int| 0 <= j < m implies (#[trigger] views2(coding@)[j]).len()
            == block_len by {}
    }
    let ghost es = erasures@.drop_last();
    let ghost so = shards_from_blocks(views2(old(data)@), views2(old(coding)@), es);
    let mut shards: Vec<Option<Vec<u8>>> = Vec::new();
    let mut present: usize = 0;
    let mut j: usize = 0;
    while j < n
        invariant
            j <= n,
            n == k + m,
            n <= 256,
            k == data@.len(),
            m == coding@.len(),
            k > 0,
            data@ == old(data)@,
            coding@ == old(coding)@,
            block_len == data@[0]@.len(),
            erasures@.len() >= 1,
            forall|t: int| 0 <= t < erasures@.len() - 1 ==> 0 <= #[trigger] erasures@[t] < n,
            es == erasures@.drop_last(),
            so == shards_from_blocks(views2(old(data)@), views2(old(coding)@), es),
            uniform_blocks(views2(data@), block_len as nat),
            uniform_blocks(views2(coding@), block_len as nat),
            shards@.len() == j,
            forall|p: int| 0 <= p < j ==> #[trigger] shard_views(shards@)[p] == so[p],
            present as int == present_count(shard_views(shards@)),
            present as int == j - count_erased(es, j as int),
        decreases n - j,
    {
        let ghost shards_prev = shards@;
        let mut hit = false;
        let mut t: usize = 0;
        while t < erasures.len() - 1
            invariant
                erasures@.len() >= 1,
                t <= erasures@.len() - 1,
                j < n,
                n <= 256,
                hit <==> exists|tt: int| 0 <= tt < t && erasures@[tt] == j,
            decreases erasures@.len() - 1 - t,
        {
            if erasures[t] == j as i32 {
                hit = true;
            }
            t = t + 1;
        }
        proof {
            assert forall|tt: int| 0 <= tt < es.len() implies es[tt] == erasures@[tt] by {}
            if hit {
                let tt = choose|tt: int| 0 <= tt < erasures@.len() - 1 && erasures@[tt] == j;
                assert(es[tt] == j);
                assert(erased_at(es, j as int));
            }
            if erased_at(es, j as int) {
                let tt = choose|tt: int| 0 <= tt < es.len() && es[tt] == j;
                assert(erasures@[tt] == j);
                assert(hit);
            }
        }
        if hit {
            shards.push(None);
        } else {
            let b = if j < k {
                let len = data[j].len();
                copy_bytes_range(&data[j], 0, len)
            } else {
                let len = coding[j - k].len();
                copy_bytes_range(&coding[j - k], 0, len)
            };
            proof {
                if j < k {
                    assert(b@ =~= data@[j as int]@);
                } else {
                    assert(b@ =~= coding@[j - k]@);
                }
            }
            shards.push(Some(b));
            present = present + 1;
        }
        proof {
            assert(shard_views(shards@).drop_last() =~= shard_views(shards_prev));
            assert(count_erased(es, j + 1) == count_erased(es, j as int) + (if erased_at(
                es,
                j as int,
            ) {
                1nat
            } else {
                0nat
            }));
            assert forall|p: int| 0 <= p < j + 1 implies #[trigger] shard_views(shards@)[p]
                == so[p] by {
                if p < j {
                    assert(shards@[p] == shards_prev[p]);
                    assert(shard_views(shards_prev)[p] == so[p]);
                    assert(shard_views(shards@)[p] == shard_views(shards_prev)[p]);
                } else {
                    if hit {
                        assert(shards@[p] is None);
                        assert(erased_at(es, p));
                        assert(so[p] is None);
                    } else {
                        assert(!erased_at(es, p));
                        if p < k {
                            assert(so[p] == Some(views2(old(data)@)[p]));
                        } else {
                            assert(so[p] == Some(views2(old(coding)@)[p - k]));
                        }
                    }
                }
            }
        }
        j = j + 1;
    }
    proof {
        assert(shard_views(shards@) =~= so);
    }
    if present < k {
        return Err(ErasureError::DecodeError);
    }
    if m == 0 {
        return Ok(());
    }
    proof {
        lemma_shards_len_uniform(so, block_len as nat);
    }
    let ok = rs_reconstruct(&mut shards, k, m);
    proof {
        assert(ok);
    }
    let ghost full = shards@;
    let ghost rec = recover_of(so, k as nat, m as nat);
    proof {
        assert(unwrap_shards(shard_views(full)) == rec);
        assert(rec.len() == n);
    }
    proof {
        assert(shards@ =~= full.subrange(0, n as int));
    }
    let mut jj: usize = n;
    while jj > 0
        invariant
            jj <= n,
            n == k + m,
            m >= 1,
            k >= 1,
            data@.len() == k,
            coding@.len() == m,
            shards@ == full.subrange(0, jj as int),
            full.len() == n,
            forall|p: int| 0 <= p < n ==> (#[trigger] shard_views(full)[p]) is Some,
            rec == unwrap_shards(shard_views(full)),
            rec.len() == n,
            forall|p: int| jj <= p < k ==> #[trigger] views2(data@)[p] == rec[p],
            forall|p: int| jj <= p < n && p >= k ==> #[trigger] views2(coding@)[p - k] == rec[p],
            forall|p: int| 0 <= p < jj && p < k ==> #[trigger] data@[p] == old(data)@[p],
            forall|p: int| k <= p < jj ==> #[trigger] coding@[p - k] == old(coding)@[p - k],
        decreases jj,
    {
        jj = jj - 1;
        proof {
            assert(shards@.len() == jj + 1);
            assert(shards@[jj as int] == full[jj as int]);
            assert(shard_views(full)[jj as int] is Some);
        }
        let s = shards.pop().unwrap();
        proof {
            assert(shards@ =~= full.subrange(0, jj as int));
        }
        let b = s.unwrap();
        proof {
            assert(shard_views(full)[jj as int] == Some(b@));
            assert(b@ == unwrap_shards(shard_views(full))[jj as int]);
            assert(b@ == rec[jj as int]);
        }
        let ghost data_pre = data@;
        let ghost coding_pre = coding@;
        if jj < k {
            data[jj] = b;
            proof {
                assert forall|p: int| jj <= p < k implies #[trigger] views2(data@)[p]
                    == rec[p] by {
                    if p == jj {
                        assert(views2(data@)[p] == b@);
                    } else {
                        assert(data@[p] == data_pre[p]);
                        assert(views2(data_pre)[p] == rec[p]);
                    }
                }
                assert forall|p: int| jj <= p < n && p >= k implies #[trigger] views2(coding@)[p
                    - k] == rec[p] by {
                    assert(views2(coding_pre)[p - k] == rec[p]);
                }
            }
        } else {
            coding[jj - k] = b;
            proof {
                assert forall|p: int| jj <= p < k implies #[trigger] views2(data@)[p]
                    == rec[p] by {}
                assert forall|p: int| jj <= p < n && p >= k implies #[trigger] views2(coding@)[p
                    - k] == rec[p] by {
                    if p == jj {
                        assert(views2(coding@)[p - k] == b@);
                    } else {
                        assert(coding@[p - k] == coding_pre[p - k]);
                        assert(views2(coding_pre)[p - k] == rec[p]);
                    }
                }
                assert forall|p: int| k <= p < jj implies #[trigger] coding@[p - k]
                    == old(coding)@[p - k] by {
                    assert(coding@[p - k] == coding_pre[p - k]);
                }
            }
        }
    }
    proof {
        assert forall|i: int| 0 <= i < n implies (views2(data@) + views2(coding@))[i]
            == rec[i] by {
            if i < k {
                assert(views2(data@)[i] == rec[i]);
            } else {
                assert(views2(coding@)[i - k] == rec[i]);
            }
        }
        assert(views2(data@) + views2(coding@) =~= rec);
        assert forall|d: Seq<Seq<u8>>|
            blocks_sized(d, k as nat, block_len as nat) && #[trigger] consistent_with(
                so,
                codeword_of(d, m as nat),
            ) implies views2(data@) == d && views2(coding@) == parity_of(d, m as nat) by {
            assert(rec == codeword_of(d, m as nat));
            assert(parity_of(d, m as nat).len() == m);
            assert(views2(data@) =~= d);
            assert forall|q: int| 0 <= q < m implies views2(coding@)[q] == parity_of(
                d,
                m as nat,
            )[q] by {
                assert((views2(data@) + views2(coding@))[k + q] == views2(coding@)[q]);
                assert(codeword_of(d, m as nat)[k + q] == parity_of(d, m as nat)[k + q
                    - d.len()]);
            }
            assert(views2(coding@) =~= parity_of(d, m as nat));
        }
    }
    Ok(())
}


/// A freshly made parity placeholder: zeroed, payload size zero, marked
/// parity.
pub open spec fn is_coding_placeholder(b: Blob) -> bool {
    &&& b.data@ == overwrite(
        Seq::new(BLOB_SIZE as nat, |i: int| 0u8),
        BLOB_SIZE_OFFSET as int,
        spec_u64_to_le_bytes(BLOB_HEADER_SIZE as u64),
    ).update(BLOB_FLAGS_OFFSET as int, 1u8)
    &&& b.meta.size == BLOB_HEADER_SIZE
    &&& b.meta.addr == 0
    &&& b.meta.port == 0
    &&& !b.meta.v6
}

/// Absolute index `a` is reserved for a parity placeholder when a run of
/// `blobs_len` data blobs is spliced starting at absolute index
/// `consumed`: `a` sits in a group tail whose first parity index falls
/// inside the run.
pub open spec fn coding_pos(consumed: int, blobs_len: int, a: int) -> bool {
    &&& a % (NUM_CODED as int) >= NUM_DATA
    &&& consumed <= a - a % (NUM_CODED as int) + NUM_DATA
    &&& a - a % (NUM_CODED as int) + NUM_DATA < consumed + blobs_len
}

/// How many of the spliced positions `[0, p)` are parity placeholders.
pub open spec fn num_coding_before(consumed: int, blobs_len: int, p: int) -> nat
    decreases p,
{
    if p <= 0 {
        0
    } else {
        num_coding_before(consumed, blobs_len, p - 1) + (if coding_pos(
            consumed,
            blobs_len,
            consumed + p - 1,
        ) {
            1nat
        } else {
            0nat
        })
    }
}

/// Indices in the same parity tail share their group decomposition.
proof fn lemma_same_tail(a: int, x: int)
    requires
        0 <= a,
        a % (NUM_CODED as int) >= NUM_DATA,
        a - a % (NUM_CODED as int) + NUM_DATA <= x,
        x <= a - a % (NUM_CODED as int) + NUM_CODED - 1,
    ensures
        x % (NUM_CODED as int) == x - (a - a % (NUM_CODED as int)),
        x - x % (NUM_CODED as int) == a - a % (NUM_CODED as int),
{
    let g = a - a % (NUM_CODED as int);
    vstd::arithmetic::div_mod::lemma_fundamental_div_mod(a, NUM_CODED as int);
    let k = a / (NUM_CODED as int);
    assert(g == (NUM_CODED as int) * k);
    vstd::arithmetic::div_mod::lemma_fundamental_div_mod_converse(
        x,
        NUM_CODED as int,
        k,
        x - g,
    );
}

/// The index right after a parity tail starts a new group.
proof fn lemma_after_tail(a: int)
    requires
        0 <= a,
        a % (NUM_CODED as int) == NUM_DATA,
    ensures
        (a + MAX_MISSING) % (NUM_CODED as int) == 0,
        (a + MAX_MISSING + 1) % (NUM_CODED as int) == 1,
{
    vstd::arithmetic::div_mod::lemma_fundamental_div_mod(a, NUM_CODED as int);
    let k = a / (NUM_CODED as int);
    vstd::arithmetic::div_mod::lemma_fundamental_div_mod_converse(
        a + MAX_MISSING,
        NUM_CODED as int,
        k + 1,
        0,
    );
    vstd::arithmetic::div_mod::lemma_fundamental_div_mod_converse(
        a + MAX_MISSING + 1,
        NUM_CODED as int,
        k + 1,
        1,
    );
}

/// A parity position whose predecessor is none starts its tail.
proof fn lemma_tail_begins(consumed: int, blobs_len: int, a: int)
    requires
        1 <= a,
        coding_pos(consumed, blobs_len, a),
        !coding_pos(consumed, blobs_len, a - 1),
    ensures
        a % (NUM_CODED as int) == NUM_DATA,
{
    if a % (NUM_CODED as int) > NUM_DATA {
        vstd::arithmetic::div_mod::lemma_fundamental_div_mod(a, NUM_CODED as int);
        let k = a / (NUM_CODED as int);
        vstd::arithmetic::div_mod::lemma_fundamental_div_mod_converse(
            a - 1,
            NUM_CODED as int,
            k,
            a % (NUM_CODED as int) - 1,
        );
        assert(coding_pos(consumed, blobs_len, a - 1));
    }
}

/// Whether absolute index `a` is reserved for a parity placeholder, as
/// executable code.
fn is_coding_pos(consumed: u64, blobs_len: u64, a: u64) -> (r: bool)
    requires
        consumed <= a,
        a <= u64::MAX - 20,
        consumed + blobs_len <= u64::MAX,
    ensures
        r == coding_pos(consumed as int, blobs_len as int, a as int),
{
    let off = a % (NUM_CODED as u64);
    proof {
        assert(0 <= a as int % (NUM_CODED as int) <= a as int) by (nonlinear_arith);
    }
    let tail = a - off + (NUM_DATA as u64);
    off >= NUM_DATA as u64 && tail >= consumed && tail < consumed + blobs_len
}

/// Splice parity placeholder blobs into a run of data blobs.
///
/// The blobs of `blobs` are about to be assigned consecutive absolute
/// indices starting at `consumed`. At every group tail whose first parity
/// index falls inside the run, `MAX_MISSING` fresh placeholder blobs
/// (payload size zero, marked parity) are spliced in, so that a later
/// indexing pass puts parity records exactly on the parity slots of each
/// group while the data blobs keep their order.
pub fn add_coding_blobs(recycler: &BlobRecycler, blobs: &mut Vec<Blob>, consumed: u64)
    requires
        consumed + 5 * old(blobs)@.len() + 24 <= u64::MAX,
    ensures
        final(blobs)@.len() == old(blobs)@.len() + num_coding_before(
            consumed as int,
            old(blobs)@.len() as int,
            final(blobs)@.len() as int,
        ),
        forall|p: int|
            0 <= p < final(blobs)@.len() && coding_pos(
                consumed as int,
                old(blobs)@.len() as int,
                consumed + p,
            ) ==> is_coding_placeholder(#[trigger] final(blobs)@[p]),
        forall|p: int|
            0 <= p < final(blobs)@.len() && !coding_pos(
                consumed as int,
                old(blobs)@.len() as int,
                consumed + p,
            ) ==> #[trigger] final(blobs)@[p] == old(blobs)@[p - num_coding_before(
                consumed as int,
                old(blobs)@.len() as int,
                p,
            )],
        forall|a: int|
            consumed + final(blobs)@.len() <= a ==> !coding_pos(
                consumed as int,
                old(blobs)@.len() as int,
                a,
            ),
{
    let ghost c = consumed as int;
    let ghost n0 = old(blobs)@.len() as int;
    let n = blobs.len();
    let mut out: Vec<Blob> = Vec::new();
    let mut q: usize = 0;
    while q < n
        invariant
            q <= n,
            n == old(blobs)@.len(),
            blobs@.len() == n,
            forall|i: int| q <= i < n ==> #[trigger] blobs@[i] == old(blobs)@[i],
            c == consumed as int,
            n0 == n as int,
            consumed + 5 * n + 24 <= u64::MAX,
            out@.len() <= 5 * q,
            q as int == out@.len() - num_coding_before(c, n0, out@.len() as int),
            forall|p: int|
                0 <= p < out@.len() && coding_pos(c, n0, c + p) ==> is_coding_placeholder(
                    #[trigger] out@[p],
                ),
            forall|p: int|
                0 <= p < out@.len() && !coding_pos(c, n0, c + p) ==> #[trigger] out@[p]
                    == old(blobs)@[p - num_coding_before(c, n0, p)],
            coding_pos(c, n0, c + out@.len()) ==> (c + out@.len()) % (NUM_CODED as int)
                == NUM_DATA,
        decreases n - q,
    {
        let a = consumed + out.len() as u64;
        if is_coding_pos(consumed, n as u64, a) {
            let ghost p0 = out@.len() as int;
            let ghost out_pre = out@;
            proof {
                assert forall|p: int| p0 <= p < p0 + 4 implies #[trigger] coding_pos(
                    c,
                    n0,
                    c + p,
                ) by {
                    lemma_same_tail(c + p0, c + p);
                }
            }
            let mut r: usize = 0;
            while r < MAX_MISSING
                invariant
                    r <= MAX_MISSING,
                    out@.len() == out_pre.len() + r,
                    forall|p: int| 0 <= p < out_pre.len() ==> #[trigger] out@[p] == out_pre[p],
                    forall|p: int|
                        out_pre.len() <= p < out@.len() ==> is_coding_placeholder(
                            #[trigger] out@[p],
                        ),
                decreases MAX_MISSING - r,
            {
                let mut b = recycler.allocate();
                b.set_size(0);
                b.set_coding();
                proof {
                    assert(is_coding_placeholder(b));
                }
                out.push(b);
                r = r + 1;
            }
            proof {
                lemma_after_tail(c + p0);
                assert(!coding_pos(c, n0, c + p0 + 4));
                assert(num_coding_before(c, n0, p0 + 1) == num_coding_before(c, n0, p0) + 1);
                assert(num_coding_before(c, n0, p0 + 2) == num_coding_before(c, n0, p0) + 2);
                assert(num_coding_before(c, n0, p0 + 3) == num_coding_before(c, n0, p0) + 3);
                assert(num_coding_before(c, n0, p0 + 4) == num_coding_before(c, n0, p0) + 4);
            }
        }
        let ghost out_mid = out@;
        let ghost pd = out@.len() as int;
        proof {
            assert(!coding_pos(c, n0, c + pd));
            assert(num_coding_before(c, n0, pd + 1) == num_coding_before(c, n0, pd));
        }
        let mut taken = recycler.allocate();
        blobs.set_and_swap(q, &mut taken);
        out.push(taken);
        proof {
            assert forall|p: int| 0 <= p < pd implies out@[p] == out_mid[p] by {}
            assert(out@[pd] == old(blobs)@[q as int]);
            if coding_pos(c, n0, c + pd + 1) {
                lemma_tail_begins(c, n0, c + pd + 1);
            }
        }
        q = q + 1;
    }
    proof {
        let el = c + out@.len() as int;
        assert forall|a: int| el <= a implies !coding_pos(c, n0, a) by {
            if coding_pos(c, n0, a) {
                let t = a - a % (NUM_CODED as int) + NUM_DATA;
                assert(t < c + n0);
                assert(out@.len() >= n0);
                assert(t < el);
                lemma_same_tail(a, el);
                assert(coding_pos(c, n0, el));
                assert(el % (NUM_CODED as int) == NUM_DATA as int);
                assert(el == t);
                assert(false);
            }
        }
    }
    let mut done = out;
    core::mem::swap(blobs, &mut done);
}


/// All present blobs of a window are well formed.
pub open spec fn window_wf(w: Seq<Option<Blob>>) -> bool {
    forall|j: int| 0 <= j < w.len() && w[j] is Some ==> (#[trigger] w[j])->Some_0.wf()
}

/// Every slot of the group starting at absolute index `bs` is filled.
pub open spec fn group_complete(w: Seq<Option<Blob>>, bs: int) -> bool {
    forall|x: int|
        0 <= x < NUM_CODED ==> (#[trigger] w[(bs + x) % (w.len() as int)]) is Some
}

/// Largest stored size among the group's first `x` data blobs.
pub open spec fn group_max_size(w: Seq<Option<Blob>>, bs: int, x: int) -> nat
    decreases x,
{
    if x <= 0 {
        0
    } else {
        let prev = group_max_size(w, bs, x - 1);
        let sz = w[(bs + x - 1) % (w.len() as int)]->Some_0.meta.size as nat;
        if sz > prev {
            sz
        } else {
            prev
        }
    }
}

/// The byte blocks handed to the encoder: for each data slot of the
/// group, the first `len` raw bytes, header included.
pub open spec fn group_data_blocks(w: Seq<Option<Blob>>, bs: int, len: nat) -> Seq<Seq<u8>> {
    Seq::new(
        NUM_DATA as nat,
        |x: int| w[(bs + x) % (w.len() as int)]->Some_0.data@.take(len as int),
    )
}

/// How encoding rewrites one parity blob: stored size and metadata size
/// become `len + BLOB_HEADER_SIZE`, the kind flag is set, and the first
/// `len` payload bytes hold the parity block `pb`.
pub open spec fn coded_parity(bold: Blob, bnew: Blob, len: nat, pb: Seq<u8>) -> bool {
    &&& pb.len() == len
    &&& bnew.meta.size == len + BLOB_HEADER_SIZE
    &&& bnew.meta.addr == bold.meta.addr
    &&& bnew.meta.port == bold.meta.port
    &&& bnew.meta.v6 == bold.meta.v6
    &&& bnew.data@ == overwrite(
        overwrite(
            bold.data@,
            BLOB_SIZE_OFFSET as int,
            spec_u64_to_le_bytes((len + BLOB_HEADER_SIZE) as u64),
        ).update(BLOB_FLAGS_OFFSET as int, 1u8),
        BLOB_HEADER_SIZE as int,
        pb,
    )
}

/// The parity block meant for group offset `NUM_DATA + x` of a group
/// with block length `len`.
pub open spec fn group_parity_block(w: Seq<Option<Blob>>, bs: int, len: nat, x: int) -> Seq<u8> {
    if len == 0 {
        Seq::empty()
    } else {
        parity_of(group_data_blocks(w, bs, len), MAX_MISSING as nat)[x]
    }
}

/// The whole effect of encoding the group at `bs`: each parity slot is
/// rewritten from the old window's data blocks.
pub open spec fn group_coded(wo: Seq<Option<Blob>>, wn: Seq<Option<Blob>>, bs: int) -> bool {
    let cap = wo.len() as int;
    let len = group_max_size(wo, bs, NUM_DATA as int);
    &&& (len > 0 ==> parity_of(group_data_blocks(wo, bs, len), MAX_MISSING as nat).len()
        == MAX_MISSING)
    &&& forall|x: int|
        0 <= x < MAX_MISSING ==> ((#[trigger] wn[(bs + NUM_DATA + x) % cap]) is Some
            && coded_parity(
            wo[(bs + NUM_DATA + x) % cap]->Some_0,
            wn[(bs + NUM_DATA + x) % cap]->Some_0,
            len,
            group_parity_block(wo, bs, len, x),
        ))
}

/// Two distinct offsets within one ring revolution land on distinct
/// slots.
proof fn lemma_slot_distinct(cap: int, a1: int, a2: int)
    requires
        1 <= cap,
        0 <= a1,
        0 <= a2,
        a1 < a2,
        a2 - a1 < cap,
    ensures
        a1 % cap != a2 % cap,
{
    vstd::arithmetic::div_mod::lemma_fundamental_div_mod(a1, cap);
    vstd::arithmetic::div_mod::lemma_fundamental_div_mod(a2, cap);
    let k1 = a1 / cap;
    let k2 = a2 / cap;
    if a1 % cap == a2 % cap {
        assert(a2 - a1 == cap * k2 - cap * k1);
        assert(cap * k2 - cap * k1 == cap * (k2 - k1)) by (nonlinear_arith);
        assert(cap * (k2 - k1) == 0 || cap * (k2 - k1) >= cap || cap * (k2 - k1) <= -cap)
            by (nonlinear_arith);
        assert(false);
    }
}

/// Group-level spec functions read only the group's own slots.
proof fn lemma_group_reads(w1: Seq<Option<Blob>>, w2: Seq<Option<Blob>>, bs: int, x: int)
    requires
        w1.len() == w2.len(),
        forall|y: int|
            0 <= y < NUM_CODED ==> #[trigger] w1[(bs + y) % (w1.len() as int)] == w2[(bs + y)
                % (w1.len() as int)],
        0 <= x <= NUM_DATA,
    ensures
        group_max_size(w1, bs, x) == group_max_size(w2, bs, x),
        group_complete(w1, bs) == group_complete(w2, bs),
        forall|len: nat| #[trigger] group_data_blocks(w1, bs, len) == group_data_blocks(
            w2,
            bs,
            len,
        ),
    decreases x,
{
    assert forall|xx: int| 0 <= xx < NUM_CODED implies #[trigger] w2[(bs + xx) % (
        w2.len() as int)] == w1[(bs + xx) % (w1.len() as int)] by {
        assert(w1[(bs + xx) % (w1.len() as int)] == w2[(bs + xx) % (w1.len() as int)]);
    }
    if x > 0 {
        lemma_group_reads(w1, w2, bs, x - 1);
        assert(w1[(bs + (x - 1)) % (w1.len() as int)] == w2[(bs + (x - 1)) % (
            w1.len() as int)]);
    }
    if group_complete(w1, bs) {
        assert forall|xx: int| 0 <= xx < NUM_CODED implies (#[trigger] w2[(bs + xx) % (
            w2.len() as int)]) is Some by {
            assert(w1[(bs + xx) % (w1.len() as int)] is Some);
        }
    }
    if group_complete(w2, bs) {
        assert forall|xx: int| 0 <= xx < NUM_CODED implies (#[trigger] w1[(bs + xx) % (
            w1.len() as int)]) is Some by {
            assert(w2[(bs + xx) % (w2.len() as int)] is Some);
        }
    }
    assert forall|len: nat| #[trigger] group_data_blocks(w1, bs, len) == group_data_blocks(
        w2,
        bs,
        len,
    ) by {
        assert forall|xx: int| 0 <= xx < NUM_DATA implies group_data_blocks(w1, bs, len)[xx]
            == group_data_blocks(w2, bs, len)[xx] by {
            assert(w1[(bs + xx) % (w1.len() as int)] == w2[(bs + xx) % (w1.len() as int)]);
        }
        assert(group_data_blocks(w1, bs, len) =~= group_data_blocks(w2, bs, len));
    }
}

/// Encode one group in place.
///
/// `Ok(false)` and an untouched window when some slot of the group is
/// empty; `InvalidBlockSize` and an untouched window when the blocks
/// would not fit a parity payload; otherwise `Ok(true)` and every parity
/// slot rewritten per `group_coded`.
fn encode_group(window: &mut Vec<Option<Blob>>, block_start: usize) -> (r: Result<
    bool,
    ErasureError,
>)
    requires
        window_wf(old(window)@),
        old(window)@.len() >= NUM_CODED,
        block_start + NUM_CODED <= usize::MAX,
    ensures
        final(window)@.len() == old(window)@.len(),
        window_wf(final(window)@),
        r == Ok::<bool, ErasureError>(false) <==> !group_complete(
            old(window)@,
            block_start as int,
        ),
        r is Err ==> r == Err::<bool, ErasureError>(ErasureError::InvalidBlockSize),
        r == Err::<bool, ErasureError>(ErasureError::InvalidBlockSize) <==> (group_complete(
            old(window)@,
            block_start as int,
        ) && group_max_size(old(window)@, block_start as int, NUM_DATA as int)
            > BLOB_DATA_SIZE),
        r is Err || r == Ok::<bool, ErasureError>(false) ==> final(window)@ == old(window)@,
        r == Ok::<bool, ErasureError>(true) ==> group_coded(
            old(window)@,
            final(window)@,
            block_start as int,
        ),
        r == Ok::<bool, ErasureError>(true) ==> forall|j: int|
            0 <= j < old(window)@.len() && (forall|x: int|
                0 <= x < MAX_MISSING ==> j != #[trigger] ((block_start + NUM_DATA + x) % (
                old(window)@.len() as int))) ==> final(window)@[j] == #[trigger] old(window)@[j],
{
    let cap = window.len();
    let ghost wo = old(window)@;
    let ghost bs = block_start as int;
    let mut x: usize = 0;
    while x < NUM_CODED
        invariant
            x <= NUM_CODED,
            cap == window@.len(),
            cap >= NUM_CODED,
            window@ == old(window)@,
            bs == block_start as int,
            block_start + NUM_CODED <= usize::MAX,
            window_wf(window@),
            forall|y: int|
                0 <= y < x ==> (#[trigger] window@[(bs + y) % (cap as int)]) is Some,
        decreases NUM_CODED - x,
    {
        let j = (block_start + x) % cap;
        if window[j].is_none() {
            proof {
                assert(old(window)@[(bs + x) % (old(window)@.len() as int)] is None);
                assert(!group_complete(old(window)@, bs));
            }
            return Ok(false);
        }
        x = x + 1;
    }
    proof {
        assert forall|xx: int| 0 <= xx < NUM_CODED implies (#[trigger] old(window)@[(bs + xx) % (
            old(window)@.len() as int)]) is Some by {
            assert(window@[(bs + xx) % (cap as int)] is Some);
        }
        assert(group_complete(old(window)@, bs));
    }
    let mut max_size: usize = 0;
    let mut x: usize = 0;
    while x < NUM_DATA
        invariant
            x <= NUM_DATA,
            cap == window@.len(),
            cap >= NUM_CODED,
            window@ == old(window)@,
            bs == block_start as int,
            block_start + NUM_CODED <= usize::MAX,
            window_wf(window@),
            group_complete(window@, bs),
            max_size as nat == group_max_size(window@, bs, x as int),
        decreases NUM_DATA - x,
    {
        let j = (block_start + x) % cap;
        proof {
            assert(window@[(bs + x) % (cap as int)] is Some);
        }
        match &window[j] {
            Some(b) => {
                if b.meta.size > max_size {
                    max_size = b.meta.size;
                }
            },
            None => {
                proof {
                    assert(false);
                }
            },
        }
        x = x + 1;
    }
    proof {
        assert(group_complete(old(window)@, bs));
    }
    if max_size > BLOB_DATA_SIZE {
        return Err(ErasureError::InvalidBlockSize);
    }
    let ghost len = max_size as nat;
    let mut parity: Vec<Vec<u8>> = Vec::new();
    if max_size > 0 {
        let mut data_blocks: Vec<Vec<u8>> = Vec::new();
        let mut x: usize = 0;
        while x < NUM_DATA
            invariant
                x <= NUM_DATA,
                cap == window@.len(),
                cap >= NUM_CODED,
                window@ == old(window)@,
                bs == block_start as int,
                block_start + NUM_CODED <= usize::MAX,
                window_wf(window@),
                group_complete(window@, bs),
                0 < max_size <= BLOB_DATA_SIZE,
                len == max_size as nat,
                len == group_max_size(window@, bs, NUM_DATA as int),
                data_blocks@.len() == x,
                forall|y: int|
                    0 <= y < x ==> #[trigger] views2(data_blocks@)[y] == group_data_blocks(
                        window@,
                        bs,
                        len,
                    )[y],
            decreases NUM_DATA - x,
        {
            let j = (block_start + x) % cap;
            proof {
                assert(window@[(bs + x) % (cap as int)] is Some);
                assert(window@[(bs + x) % (cap as int)]->Some_0.wf());
            }
            let ghost blocks_pre = data_blocks@;
            match &window[j] {
                Some(b) => {
                    let blk = copy_bytes_range(&b.data, 0, max_size);
                    data_blocks.push(blk);
                    proof {
                        assert forall|y: int| 0 <= y < x + 1 implies #[trigger] views2(
                            data_blocks@,
                        )[y] == group_data_blocks(window@, bs, len)[y] by {
                            if y < x {
                                assert(data_blocks@[y] == blocks_pre[y]);
                                assert(views2(blocks_pre)[y] == group_data_blocks(
                                    window@,
                                    bs,
                                    len,
                                )[y]);
                            } else {
                                assert(data_blocks@[y]@ == b.data@.subrange(0, max_size as int));
                                assert(data_blocks@[y]@ =~= group_data_blocks(window@, bs, len)[y]);
                            }
                        }
                    }
                },
                None => {
                    proof {
                        assert(false);
                    }
                },
            }
            x = x + 1;
        }
        let mut x: usize = 0;
        while x < MAX_MISSING
            invariant
                x <= MAX_MISSING,
                parity@.len() == x,
                0 < max_size,
                forall|y: int| 0 <= y < x ==> (#[trigger] parity@[y])@.len() == max_size,
            decreases MAX_MISSING - x,
        {
            parity.push(zero_vec(max_size));
            x = x + 1;
        }
        proof {
            assert forall|y: int| 0 <= y < NUM_DATA implies (#[trigger] views2(data_blocks@)[y]).len()
                == max_size as nat by {
                assert(views2(data_blocks@)[y] == group_data_blocks(window@, bs, len)[y]);
                assert(window@[(bs + y) % (cap as int)]->Some_0.wf());
            }
            assert forall|y: int| 0 <= y < MAX_MISSING implies (#[trigger] views2(parity@)[y]).len()
                == max_size as nat by {}
            assert(views2(data_blocks@)[0].len() == data_blocks@[0]@.len());
        }
        rs_encode_sep(&data_blocks, &mut parity);
        proof {
            assert(views2(data_blocks@) =~= group_data_blocks(window@, bs, len));
            assert(views2(parity@) == parity_of(
                group_data_blocks(window@, bs, len),
                MAX_MISSING as nat,
            ));
            assert forall|y: int| 0 <= y < MAX_MISSING implies (#[trigger] parity@[y])@.len()
                == max_size by {
                assert(views2(parity@)[y].len() == data_blocks@[0]@.len());
            }
        }
    }
    let ghost w_before = window@;
    let mut x: usize = 0;
    while x < MAX_MISSING
        invariant
            x <= MAX_MISSING,
            cap == window@.len(),
            cap >= NUM_CODED,
            bs == block_start as int,
            block_start + NUM_CODED <= usize::MAX,
            w_before == old(window)@,
            w_before.len() == cap,
            window_wf(window@),
            max_size <= BLOB_DATA_SIZE,
            len == max_size as nat,
            len == group_max_size(w_before, bs, NUM_DATA as int),
            group_complete(w_before, bs),
            max_size > 0 ==> parity@.len() == MAX_MISSING && views2(parity@) == parity_of(
                group_data_blocks(w_before, bs, len),
                MAX_MISSING as nat,
            ) && (forall|y: int|
                0 <= y < MAX_MISSING ==> (#[trigger] parity@[y])@.len() == max_size),
            forall|j: int|
                0 <= j < cap && (forall|y: int|
                    0 <= y < x ==> j != #[trigger] ((bs + NUM_DATA + y) % (cap as int)))
                    ==> #[trigger] window@[j] == w_before[j],
            forall|y: int|
                0 <= y < x ==> ((#[trigger] window@[(bs + NUM_DATA + y) % (cap as int)]) is Some
                    && coded_parity(
                    w_before[(bs + NUM_DATA + y) % (cap as int)]->Some_0,
                    window@[(bs + NUM_DATA + y) % (cap as int)]->Some_0,
                    len,
                    group_parity_block(w_before, bs, len, y),
                )),
        decreases MAX_MISSING - x,
    {
        let j = (block_start + NUM_DATA + x) % cap;
        let ghost w_iter = window@;
        proof {
            assert forall|y: int| 0 <= y < x implies j != #[trigger] ((bs + NUM_DATA + y) % (
                cap as int)) by {
                lemma_slot_distinct(cap as int, bs + NUM_DATA + y, bs + NUM_DATA + x);
            }
            assert(window@[j as int] == w_before[j as int]);
            let xx: int = NUM_DATA + x;
            assert(0 <= xx < NUM_CODED);
            assert(w_before[(bs + xx) % (w_before.len() as int)] is Some);
            assert(w_before[(bs + NUM_DATA + x) % (cap as int)] is Some);
        }
        let mut tmp: Option<Blob> = None;
        window.set_and_swap(j, &mut tmp);
        let mut b = tmp.unwrap();
        let ghost b_old = w_before[(bs + NUM_DATA + x) % (cap as int)]->Some_0;
        proof {
            assert(b == b_old);
            assert(b.wf());
        }
        b.set_size(max_size);
        b.set_coding();
        if max_size > 0 {
            proof {
                assert(parity@[x as int]@.len() == max_size);
            }
            write_bytes_at(&mut b.data, BLOB_HEADER_SIZE, &parity[x]);
            proof {
                assert(parity@[x as int]@ == views2(parity@)[x as int]);
                assert(parity@[x as int]@ == group_parity_block(w_before, bs, len, x as int));
                assert(b.data@ == overwrite(
                    overwrite(
                        b_old.data@,
                        BLOB_SIZE_OFFSET as int,
                        spec_u64_to_le_bytes((len + BLOB_HEADER_SIZE) as u64),
                    ).update(BLOB_FLAGS_OFFSET as int, 1u8),
                    BLOB_HEADER_SIZE as int,
                    group_parity_block(w_before, bs, len, x as int),
                ));
            }
        }
        proof {
            if max_size == 0 {
                assert(b.data@ =~= overwrite(
                    overwrite(
                        b_old.data@,
                        BLOB_SIZE_OFFSET as int,
                        spec_u64_to_le_bytes((len + BLOB_HEADER_SIZE) as u64),
                    ).update(BLOB_FLAGS_OFFSET as int, 1u8),
                    BLOB_HEADER_SIZE as int,
                    group_parity_block(w_before, bs, len, x as int),
                ));
            }
            assert(coded_parity(b_old, b, len, group_parity_block(w_before, bs, len, x as int)));
        }
        let ghost w_mid = window@;
        window[j] = Some(b);
        proof {
            assert(window@ == w_mid.update(j as int, Some(b)));
            assert(w_mid == w_iter.update(j as int, None::<Blob>));
            assert forall|jj: int|
                0 <= jj < cap && (forall|y: int|
                    0 <= y < x + 1 ==> jj != #[trigger] ((bs + NUM_DATA + y) % (cap as int)))
                    implies #[trigger] window@[jj] == w_before[jj] by {
                assert(jj != j as int);
                assert(window@[jj] == w_iter[jj]);
            }
            assert forall|y: int| 0 <= y < x + 1 implies ((#[trigger] window@[(bs + NUM_DATA + y)
                % (cap as int)]) is Some && coded_parity(
                w_before[(bs + NUM_DATA + y) % (cap as int)]->Some_0,
                window@[(bs + NUM_DATA + y) % (cap as int)]->Some_0,
                len,
                group_parity_block(w_before, bs, len, y),
            )) by {
                if y < x {
                    assert((bs + NUM_DATA + y) % (cap as int) != j as int);
                    assert(window@[(bs + NUM_DATA + y) % (cap as int)] == w_iter[(bs + NUM_DATA
                        + y) % (cap as int)]);
                } else {
                    assert(window@[(bs + NUM_DATA + y) % (cap as int)] == Some(b));
                }
            }
            assert forall|jj: int| 0 <= jj < cap && window@[jj] is Some implies (#[trigger] window@[jj])->Some_0.wf() by {
                if jj == j as int {
                    assert(window@[jj]->Some_0 == b);
                } else {
                    assert(window@[jj] == w_iter[jj]);
                }
            }
        }
        x = x + 1;
    }
    proof {
        assert(w_before == old(window)@);
        assert(group_complete(old(window)@, bs));
        assert(group_max_size(old(window)@, bs, NUM_DATA as int) == len);
        assert(len <= BLOB_DATA_SIZE);
        assert(group_coded(old(window)@, window@, bs));
    }
    Ok(true)
}


/// The start of the group that the frontier `consumed` falls in.
pub open spec fn first_block_start(consumed: int) -> int {
    consumed - consumed % (NUM_CODED as int)
}

/// Start of the `g`-th group that a scan from frontier `consumed` walks.
pub open spec fn scanned_group(consumed: int, g: int) -> int {
    first_block_start(consumed) + NUM_CODED * g
}

/// Number of group tails inside the scan `[consumed, consumed + num)`.
pub open spec fn tails_in(consumed: int, num: int) -> int {
    (consumed + num) / (NUM_CODED as int) - consumed / (NUM_CODED as int)
}

/// Slot `j` is a parity slot of one of the first `t` groups scanned from
/// `bs0` in a window of `cap` slots.
pub open spec fn parity_slot_written(cap: int, bs0: int, t: int, j: int) -> bool {
    exists|g: int, x: int|
        0 <= g < t && 0 <= x < MAX_MISSING && j == #[trigger] ((bs0 + NUM_CODED * g + NUM_DATA
            + x) % cap)
}

/// What one `generate_coding` call did: the first `t` scanned groups were
/// encoded from the old window, no other slot moved, and the scan stopped
/// at its end, at an incomplete group, or at an oversized group.
pub open spec fn generate_coding_outcome(
    wo: Seq<Option<Blob>>,
    wn: Seq<Option<Blob>>,
    consumed: int,
    num: int,
    t: int,
    r: Result<(), ErasureError>,
) -> bool {
    let cap = wo.len() as int;
    &&& 0 <= t <= tails_in(consumed, num)
    &&& forall|g: int|
        0 <= g < t ==> (group_complete(wo, #[trigger] scanned_group(consumed, g))
            && group_max_size(wo, scanned_group(consumed, g), NUM_DATA as int)
            <= BLOB_DATA_SIZE && group_coded(wo, wn, scanned_group(consumed, g)))
    &&& forall|j: int|
        0 <= j < cap && !parity_slot_written(cap, first_block_start(consumed), t, j)
            ==> #[trigger] wn[j] == wo[j]
    &&& if t == tails_in(consumed, num) {
        r is Ok
    } else if !group_complete(wo, scanned_group(consumed, t)) {
        r is Ok
    } else {
        group_max_size(wo, scanned_group(consumed, t), NUM_DATA as int) > BLOB_DATA_SIZE && r
            == Err::<(), ErasureError>(ErasureError::InvalidBlockSize)
    }
}

/// `group_coded` keeps holding when the group's parity slots are left
/// alone.
proof fn lemma_group_coded_stable(
    wo: Seq<Option<Blob>>,
    w1: Seq<Option<Blob>>,
    w2: Seq<Option<Blob>>,
    bs: int,
)
    requires
        group_coded(wo, w1, bs),
        w1.len() == wo.len(),
        w2.len() == wo.len(),
        forall|x: int|
            0 <= x < MAX_MISSING ==> #[trigger] w2[(bs + NUM_DATA + x) % (wo.len() as int)]
                == w1[(bs + NUM_DATA + x) % (wo.len() as int)],
    ensures
        group_coded(wo, w2, bs),
{
    let cap = wo.len() as int;
    let len = group_max_size(wo, bs, NUM_DATA as int);
    assert forall|x: int| 0 <= x < MAX_MISSING implies ((#[trigger] w2[(bs + NUM_DATA + x)
        % cap]) is Some && coded_parity(
        wo[(bs + NUM_DATA + x) % cap]->Some_0,
        w2[(bs + NUM_DATA + x) % cap]->Some_0,
        len,
        group_parity_block(wo, bs, len, x),
    )) by {
        assert(w2[(bs + NUM_DATA + x) % (wo.len() as int)] == w1[(bs + NUM_DATA + x) % (
            wo.len() as int)]);
        assert(w1[(bs + NUM_DATA + x) % cap] is Some);
    }
}

/// Walk the window behind the frontier and encode every complete group.
///
/// `consumed` is the frontier and `num_blobs` the records appended since;
/// every group whose tail index falls inside `[consumed, consumed +
/// num_blobs)` is encoded in order, stopping early — with `Ok`, as
/// encoding is best effort — at the first group with an empty slot, or
/// with `InvalidBlockSize` at the first group whose blocks would not fit
/// a parity payload.
pub fn generate_coding(window: &mut Vec<Option<Blob>>, consumed: usize, num_blobs: usize) -> (r:
    Result<(), ErasureError>)
    requires
        window_wf(old(window)@),
        old(window)@.len() >= NUM_CODED,
        consumed + num_blobs <= usize::MAX,
        NUM_CODED * tails_in(consumed as int, num_blobs as int) <= old(window)@.len(),
    ensures
        final(window)@.len() == old(window)@.len(),
        window_wf(final(window)@),
        exists|t: int|
            #[trigger] generate_coding_outcome(
                old(window)@,
                final(window)@,
                consumed as int,
                num_blobs as int,
                t,
                r,
            ),
{
    let cap = window.len();
    proof {
        assert(0 <= consumed as int % (NUM_CODED as int) <= consumed as int)
            by (nonlinear_arith);
    }
    let tails = (consumed + num_blobs) / NUM_CODED - consumed / NUM_CODED;
    let mut block_start = consumed - (consumed % NUM_CODED);
    let ghost wo = old(window)@;
    let ghost bs0 = first_block_start(consumed as int);
    proof {
        assert(block_start as int == bs0);
    }
    let ghost tt = tails_in(consumed as int, num_blobs as int);
    proof {
        vstd::arithmetic::div_mod::lemma_fundamental_div_mod(consumed as int, NUM_CODED as int);
        vstd::arithmetic::div_mod::lemma_fundamental_div_mod(
            consumed as int + num_blobs as int,
            NUM_CODED as int,
        );
        assert(tails as int == tt);
        assert(bs0 == (NUM_CODED as int) * (consumed as int / (NUM_CODED as int)));
        assert((NUM_CODED as int) * ((consumed as int + num_blobs as int) / (NUM_CODED as int))
            <= consumed as int + num_blobs as int);
        assert(bs0 + (NUM_CODED as int) * tt == (NUM_CODED as int) * ((consumed as int
            + num_blobs as int) / (NUM_CODED as int))) by (nonlinear_arith)
            requires
                tt == (consumed as int + num_blobs as int) / (NUM_CODED as int) - consumed as int
                    / (NUM_CODED as int),
                bs0 == (NUM_CODED as int) * (consumed as int / (NUM_CODED as int)),
        ;
        assert(bs0 + NUM_CODED * tt <= consumed + num_blobs);
    }
    let mut t: usize = 0;
    while t < tails
        invariant
            t <= tails,
            cap == window@.len(),
            cap == wo.len(),
            cap >= NUM_CODED,
            wo == old(window)@,
            window_wf(window@),
            tails as int == tt,
            tt == tails_in(consumed as int, num_blobs as int),
            bs0 == first_block_start(consumed as int),
            0 <= bs0 <= consumed,
            block_start as int == bs0 + NUM_CODED * t,
            bs0 + NUM_CODED * tt <= consumed + num_blobs,
            consumed + num_blobs <= usize::MAX,
            NUM_CODED * tt <= cap,
            forall|g: int|
                0 <= g < t ==> (group_complete(wo, #[trigger] scanned_group(consumed as int, g))
                    && group_max_size(wo, scanned_group(consumed as int, g), NUM_DATA as int)
                    <= BLOB_DATA_SIZE && group_coded(
                    wo,
                    window@,
                    scanned_group(consumed as int, g),
                )),
            forall|j: int|
                0 <= j < cap && !parity_slot_written(cap as int, bs0, t as int, j)
                    ==> #[trigger] window@[j] == wo[j],
        decreases tails - t,
    {
        proof {
            assert(NUM_CODED * (t + 1) <= NUM_CODED * tt) by (nonlinear_arith)
                requires
                    t + 1 <= tt,
            ;
            assert(block_start + NUM_CODED <= consumed + num_blobs);
        }
        let ghost w_cur = window@;
        let ghost bs = block_start as int;
        proof {
            assert forall|y: int| 0 <= y < NUM_CODED implies #[trigger] w_cur[(bs + y) % (
                w_cur.len() as int)] == wo[(bs + y) % (w_cur.len() as int)] by {
                let jy = (bs + y) % (cap as int);
                if parity_slot_written(cap as int, bs0, t as int, jy) {
                    let (g, x) = choose|g: int, x: int|
                        0 <= g < t && 0 <= x < MAX_MISSING && jy == #[trigger] ((bs0 + NUM_CODED
                            * g + NUM_DATA + x) % (cap as int));
                    assert(NUM_CODED * g + NUM_DATA + x < NUM_CODED * t) by (nonlinear_arith)
                        requires
                            g < t,
                            0 <= x < MAX_MISSING,
                    ;
                    assert(NUM_CODED * t <= NUM_CODED * tt) by (nonlinear_arith)
                        requires
                            t <= tt,
                    ;
                    lemma_slot_distinct(
                        cap as int,
                        bs0 + NUM_CODED * g + NUM_DATA + x,
                        bs0 + NUM_CODED * t + y,
                    );
                    assert(false);
                }
                assert(window@[jy] == wo[jy]);
            }
            lemma_group_reads(w_cur, wo, bs, NUM_DATA as int);
        }
        let res = encode_group(window, block_start);
        match res {
            Ok(true) => {
                proof {
                    let cap_i = cap as int;
                    let len = group_max_size(wo, bs, NUM_DATA as int);
                    assert(group_complete(wo, bs));
                    assert(group_max_size(wo, bs, NUM_DATA as int) <= BLOB_DATA_SIZE);
                    assert(group_coded(w_cur, window@, bs));
                    assert forall|x: int| 0 <= x < MAX_MISSING implies ((#[trigger] window@[(bs
                        + NUM_DATA + x) % cap_i]) is Some && coded_parity(
                        wo[(bs + NUM_DATA + x) % cap_i]->Some_0,
                        window@[(bs + NUM_DATA + x) % cap_i]->Some_0,
                        len,
                        group_parity_block(wo, bs, len, x),
                    )) by {
                        let yy: int = NUM_DATA + x;
                        assert(w_cur[(bs + yy) % (w_cur.len() as int)] == wo[(bs + yy) % (
                            w_cur.len() as int)]);
                        assert(group_parity_block(w_cur, bs, len, x) == group_parity_block(
                            wo,
                            bs,
                            len,
                        x));
                    }
                    assert(group_coded(wo, window@, bs));
                    assert forall|g: int| 0 <= g < t + 1 implies (group_complete(
                        wo,
                        #[trigger] scanned_group(consumed as int, g),
                    ) && group_max_size(wo, scanned_group(consumed as int, g), NUM_DATA as int)
                        <= BLOB_DATA_SIZE && group_coded(
                        wo,
                        window@,
                        scanned_group(consumed as int, g),
                    )) by {
                        if g < t {
                            let bsg = bs0 + NUM_CODED * g;
                            assert(bsg == scanned_group(consumed as int, g));
                            assert(group_complete(wo, scanned_group(consumed as int, g)));
                            assert(group_coded(wo, w_cur, scanned_group(consumed as int, g)));
                            assert(group_coded(wo, w_cur, bsg));
                            assert forall|x: int| 0 <= x < MAX_MISSING implies #[trigger] window@[(
                                bsg + NUM_DATA + x) % (wo.len() as int)] == w_cur[(bsg + NUM_DATA
                                + x) % (wo.len() as int)] by {
                                assert(NUM_CODED * g + NUM_DATA + x < NUM_CODED * t)
                                    by (nonlinear_arith)
                                    requires
                                        g < t,
                                        0 <= x < MAX_MISSING,
                                ;
                                assert forall|y: int| 0 <= y < MAX_MISSING implies (bsg + NUM_DATA
                                    + x) % (cap as int) != #[trigger] ((bs + NUM_DATA + y) % (
                                    cap as int)) by {
                                    lemma_slot_distinct(
                                        cap as int,
                                        bs0 + NUM_CODED * g + NUM_DATA + x,
                                        bs0 + NUM_CODED * t + NUM_DATA + y,
                                    );
                                }
                            }
                            lemma_group_coded_stable(wo, w_cur, window@, bsg);
                        } else {
                            assert(g == t as int);
                            assert(NUM_CODED * g == NUM_CODED * (t as int));
                            assert(scanned_group(consumed as int, g) == bs);
                            assert(group_complete(wo, scanned_group(consumed as int, g)));
                            assert(group_max_size(
                                wo,
                                scanned_group(consumed as int, g),
                                NUM_DATA as int,
                            ) <= BLOB_DATA_SIZE);
                            assert(group_coded(wo, window@, scanned_group(consumed as int, g)));
                        }
                    }
                    assert forall|j: int|
                        0 <= j < cap && !parity_slot_written(cap as int, bs0, t as int + 1, j)
                            implies #[trigger] window@[j] == wo[j] by {
                        assert(!parity_slot_written(cap as int, bs0, t as int, j));
                        assert forall|x: int| 0 <= x < MAX_MISSING implies j != #[trigger] ((
                            block_start as int + NUM_DATA + x) % (w_cur.len() as int)) by {
                            if j == (block_start as int + NUM_DATA + x) % (w_cur.len() as int) {
                                assert(parity_slot_written(cap as int, bs0, t as int + 1, j));
                            }
                        }
                        assert(window@[j] == w_cur[j]);
                    }
                }
                block_start = block_start + NUM_CODED;
                t = t + 1;
            },
            Ok(false) => {
                proof {
                    assert(window@ == w_cur);
                    assert(!group_complete(w_cur, bs));
                    assert(!group_complete(wo, bs));
                    assert(scanned_group(consumed as int, t as int) == bs);
                    assert(!group_complete(wo, scanned_group(consumed as int, t as int)));
                    assert forall|g: int| 0 <= g < t implies (group_complete(
                        wo,
                        #[trigger] scanned_group(consumed as int, g),
                    ) && group_max_size(wo, scanned_group(consumed as int, g), NUM_DATA as int)
                        <= BLOB_DATA_SIZE && group_coded(
                        wo,
                        window@,
                        scanned_group(consumed as int, g),
                    )) by {
                        assert(group_coded(wo, w_cur, scanned_group(consumed as int, g)));
                    }
                    assert(generate_coding_outcome(
                        wo,
                        window@,
                        consumed as int,
                        num_blobs as int,
                        t as int,
                        Ok::<(), ErasureError>(()),
                    ));
                }
                return Ok(());
            },
            Err(e) => {
                proof {
                    assert(window@ == w_cur);
                    assert(e == ErasureError::InvalidBlockSize);
                    assert(group_complete(w_cur, bs));
                    assert(group_complete(wo, bs));
                    assert(scanned_group(consumed as int, t as int) == bs);
                    assert(group_complete(wo, scanned_group(consumed as int, t as int)));
                    assert(group_max_size(wo, bs, NUM_DATA as int) > BLOB_DATA_SIZE);
                    assert(group_max_size(
                        wo,
                        scanned_group(consumed as int, t as int),
                        NUM_DATA as int,
                    ) > BLOB_DATA_SIZE);
                    assert forall|g: int| 0 <= g < t implies (group_complete(
                        wo,
                        #[trigger] scanned_group(consumed as int, g),
                    ) && group_max_size(wo, scanned_group(consumed as int, g), NUM_DATA as int)
                        <= BLOB_DATA_SIZE && group_coded(
                        wo,
                        window@,
                        scanned_group(consumed as int, g),
                    )) by {
                        assert(group_coded(wo, w_cur, scanned_group(consumed as int, g)));
                    }
                    assert(generate_coding_outcome(
                        wo,
                        window@,
                        consumed as int,
                        num_blobs as int,
                        t as int,
                        Err::<(), ErasureError>(ErasureError::InvalidBlockSize),
                    ));
                }
                return Err(e);
            },
        }
    }
    proof {
        assert forall|g: int| 0 <= g < tails implies (group_complete(
            wo,
            #[trigger] scanned_group(consumed as int, g),
        ) && group_max_size(wo, scanned_group(consumed as int, g), NUM_DATA as int)
            <= BLOB_DATA_SIZE && group_coded(wo, window@, scanned_group(consumed as int, g)))
            by {
            assert(t == tails);
            assert(0 <= g < t);
        }
        assert(generate_coding_outcome(
            wo,
            window@,
            consumed as int,
            num_blobs as int,
            tails as int,
            Ok::<(), ErasureError>(()),
        ));
    }
    Ok(())
}


/// Count of empty slots among group offsets `[from, to)` of the group at
/// `bs`.
pub open spec fn missing_in(w: Seq<Option<Blob>>, bs: int, from: int, to: int) -> nat
    decreases to - from,
{
    if to <= from {
        0
    } else {
        missing_in(w, bs, from, to - 1) + (if w[(bs + to - 1) % (w.len() as int)] is Some {
            0nat
        } else {
            1nat
        })
    }
}

/// Splitting a missing-slot count at a middle offset.
proof fn lemma_missing_in_split(w: Seq<Option<Blob>>, bs: int, from: int, mid: int, to: int)
    requires
        from <= mid <= to,
    ensures
        missing_in(w, bs, from, to) == missing_in(w, bs, from, mid) + missing_in(w, bs, mid, to),
    decreases to - mid,
{
    if to > mid {
        lemma_missing_in_split(w, bs, from, mid, to - 1);
    }
}

/// First present offset of the group at `bs`, searching from `from`;
/// `NUM_CODED` if none.
pub open spec fn first_present_from(w: Seq<Option<Blob>>, bs: int, from: int) -> int
    decreases NUM_CODED - from,
{
    if from < 0 || from >= NUM_CODED {
        NUM_CODED as int
    } else if w[(bs + from) % (w.len() as int)] is Some {
        from
    } else {
        first_present_from(w, bs, from + 1)
    }
}

/// Metadata adopted by rebuilt data blobs: that of the group's first
/// present blob.
pub open spec fn group_meta_ref(w: Seq<Option<Blob>>, bs: int) -> Meta {
    w[(bs + first_present_from(w, bs, 0)) % (w.len() as int)]->Some_0.meta
}

/// Block length used to rebuild the group at `bs`: the payload length
/// recorded by the first present parity blob; zero (nothing to decode)
/// when there is none or it records no payload.
pub open spec fn group_len_ref(w: Seq<Option<Blob>>, bs: int) -> int {
    let fp = first_present_from(w, bs, NUM_DATA as int);
    if fp >= NUM_CODED {
        0
    } else {
        let sz = w[(bs + fp) % (w.len() as int)]->Some_0.meta.size;
        if sz <= BLOB_HEADER_SIZE {
            0
        } else {
            sz - BLOB_HEADER_SIZE
        }
    }
}

/// The shard row handed to the decoder for the group at `bs`: holes for
/// empty slots, raw bytes for data blobs, the parity payload region for
/// parity blobs.
pub open spec fn group_shards(w: Seq<Option<Blob>>, bs: int, len: int) -> Seq<Option<Seq<u8>>> {
    Seq::new(
        NUM_CODED as nat,
        |x: int|
            if w[(bs + x) % (w.len() as int)] is Some {
                if x < NUM_DATA {
                    Some(w[(bs + x) % (w.len() as int)]->Some_0.data@.take(len))
                } else {
                    Some(w[(bs + x) % (w.len() as int)]->Some_0.data@.subrange(
                        BLOB_HEADER_SIZE as int,
                        BLOB_HEADER_SIZE + len,
                    ))
                }
            } else {
                None
            },
    )
}

/// The recoverer leaves the group at `bs` alone: nothing is missing, too
/// much is missing, or no parity payload length is on record.
pub open spec fn group_skip(w: Seq<Option<Blob>>, bs: int) -> bool {
    ||| missing_in(w, bs, 0, NUM_DATA as int) == 0
    ||| missing_in(w, bs, 0, NUM_DATA as int) + missing_in(w, bs, NUM_DATA as int, NUM_CODED as int)
        > MAX_MISSING
    ||| group_len_ref(w, bs) <= 0
}

/// The group's slots are the same in both windows.
pub open spec fn group_untouched(wo: Seq<Option<Blob>>, wn: Seq<Option<Blob>>, bs: int) -> bool {
    forall|x: int|
        0 <= x < NUM_CODED ==> #[trigger] wn[(bs + x) % (wo.len() as int)] == wo[(bs + x) % (
            wo.len() as int)]
}

/// A blob rebuilt into a data slot with absolute index `a`: a fresh
/// zeroed blob whose first `len_ref` bytes the decoder wrote (`block`),
/// then the index stored, the size fields set from the rebuilt header
/// (zero if that header is unusable), the kind flag cleared, and the
/// metadata of a sibling adopted.
pub open spec fn recovered_data_blob(b: Blob, a: int, meta_ref: Meta, block: Seq<u8>) -> bool {
    let zeros = Seq::new(BLOB_SIZE as nat, |i: int| 0u8);
    let s1 = overwrite(zeros, 0, block);
    let f = spec_u64_from_le_bytes(s1.subrange(BLOB_SIZE_OFFSET as int, BLOB_SIZE_OFFSET + 8));
    let ds: int = if BLOB_HEADER_SIZE <= f <= BLOB_SIZE {
        f - BLOB_HEADER_SIZE
    } else {
        0
    };
    let s2 = overwrite(s1, BLOB_INDEX_OFFSET as int, spec_u64_to_le_bytes(a as u64));
    let s3 = overwrite(
        s2,
        BLOB_SIZE_OFFSET as int,
        spec_u64_to_le_bytes((ds + BLOB_HEADER_SIZE) as u64),
    );
    &&& b.data@ == s3.update(BLOB_FLAGS_OFFSET as int, 0u8)
    &&& b.meta.size == ds + BLOB_HEADER_SIZE
    &&& b.meta.addr == meta_ref.addr
    &&& b.meta.port == meta_ref.port
    &&& b.meta.v6 == meta_ref.v6
}

/// A blob rebuilt into a parity slot with absolute index `a`: a fresh
/// zeroed blob whose parity payload region the decoder wrote, then the
/// index stored and the kind flag set.
pub open spec fn recovered_parity_blob(b: Blob, a: int, block: Seq<u8>) -> bool {
    let zeros = Seq::new(BLOB_SIZE as nat, |i: int| 0u8);
    let s1 = overwrite(zeros, BLOB_HEADER_SIZE as int, block);
    let s2 = overwrite(s1, BLOB_INDEX_OFFSET as int, spec_u64_to_le_bytes(a as u64));
    &&& b.data@ == s2.update(BLOB_FLAGS_OFFSET as int, 1u8)
    &&& b.meta.size == 0
    &&& b.meta.addr == 0
    &&& b.meta.port == 0
    &&& !b.meta.v6
}

/// The whole effect of rebuilding the group at `bs`: present slots kept,
/// every hole filled with its decoded block, data holes with header and
/// metadata fixups, parity holes marked parity.
pub open spec fn group_recovered(wo: Seq<Option<Blob>>, wn: Seq<Option<Blob>>, bs: int) -> bool {
    let cap = wo.len() as int;
    let len = group_len_ref(wo, bs);
    let rec = recover_of(group_shards(wo, bs, len), NUM_DATA as nat, MAX_MISSING as nat);
    forall|x: int|
        0 <= x < NUM_CODED ==> {
            if wo[(bs + x) % cap] is Some {
                (#[trigger] wn[(bs + x) % cap]) == wo[(bs + x) % cap]
            } else {
                wn[(bs + x) % cap] is Some && (if x < NUM_DATA {
                    recovered_data_blob(
                        wn[(bs + x) % cap]->Some_0,
                        bs + x,
                        group_meta_ref(wo, bs),
                        rec[x],
                    )
                } else {
                    recovered_parity_blob(wn[(bs + x) % cap]->Some_0, bs + x, rec[x])
                })
            }
        }
}

/// Whatever survives of a group determines what is rebuilt: if the
/// surviving shards agree with a codeword of some data blocks `d`, the
/// rebuilt row is that codeword.
pub open spec fn group_codeword_clause(wo: Seq<Option<Blob>>, bs: int) -> bool {
    forall|d: Seq<Seq<u8>>|
        blocks_sized(d, NUM_DATA as nat, group_len_ref(wo, bs) as nat) && #[trigger] consistent_with(
            group_shards(wo, bs, group_len_ref(wo, bs)),
            codeword_of(d, MAX_MISSING as nat),
        ) ==> recover_of(group_shards(wo, bs, group_len_ref(wo, bs)), NUM_DATA as nat, MAX_MISSING as nat)
            == codeword_of(d, MAX_MISSING as nat)
}


/// Search the group at `block_start` for its first filled slot, from
/// group offset `from` on.
fn find_first_present(window: &Vec<Option<Blob>>, block_start: usize, from: usize) -> (fp: usize)
    requires
        window@.len() >= NUM_CODED,
        from <= NUM_CODED,
        block_start + NUM_CODED <= usize::MAX,
    ensures
        fp == first_present_from(window@, block_start as int, from as int),
    decreases NUM_CODED - from,
{
    if from >= NUM_CODED {
        return NUM_CODED;
    }
    let j = (block_start + from) % window.len();
    if window[j].is_some() {
        return from;
    }
    find_first_present(window, block_start, from + 1)
}

/// What `first_present_from` finds: a filled slot, or the certainty that
/// the whole rest of the group is empty.
proof fn lemma_first_present(w: Seq<Option<Blob>>, bs: int, from: int)
    requires
        0 <= from <= NUM_CODED,
        w.len() >= NUM_CODED,
    ensures
        from <= first_present_from(w, bs, from) <= NUM_CODED,
        first_present_from(w, bs, from) < NUM_CODED ==> w[(bs + first_present_from(w, bs, from))
            % (w.len() as int)] is Some,
        first_present_from(w, bs, from) == NUM_CODED ==> missing_in(w, bs, from, NUM_CODED as int)
            == NUM_CODED - from,
    decreases NUM_CODED - from,
{
    if from < NUM_CODED && !(w[(bs + from) % (w.len() as int)] is Some) {
        lemma_first_present(w, bs, from + 1);
        lemma_missing_in_split(w, bs, from, from + 1, NUM_CODED as int);
        assert(missing_in(w, bs, from, from + 1) == missing_in(w, bs, from, from) + 1);
    }
}

/// Rebuild the missing blobs of the group at `block_start`, in place.
///
/// The group is left alone when nothing is missing, when more than
/// `MAX_MISSING` slots are missing, or when no present parity blob
/// records a payload length; otherwise every hole is filled with its
/// decoded block per `group_recovered`.
fn recover_group(re: &BlobRecycler, window: &mut Vec<Option<Blob>>, block_start: usize)
    requires
        window_wf(old(window)@),
        old(window)@.len() >= NUM_CODED,
        block_start + NUM_CODED <= usize::MAX,
    ensures
        final(window)@.len() == old(window)@.len(),
        window_wf(final(window)@),
        group_skip(old(window)@, block_start as int) ==> final(window)@ == old(window)@,
        !group_skip(old(window)@, block_start as int) ==> group_recovered(
            old(window)@,
            final(window)@,
            block_start as int,
        ),
        !group_skip(old(window)@, block_start as int) ==> group_codeword_clause(
            old(window)@,
            block_start as int,
        ),
        forall|j: int|
            0 <= j < old(window)@.len() && (forall|x: int|
                0 <= x < NUM_CODED ==> j != #[trigger] ((block_start as int + x) % (
                old(window)@.len() as int))) ==> final(window)@[j] == #[trigger] old(window)@[j],
{
    let cap = window.len();
    let ghost wo = old(window)@;
    let ghost bs = block_start as int;
    let mut data_missing: usize = 0;
    let mut x: usize = 0;
    while x < NUM_DATA
        invariant
            x <= NUM_DATA,
            cap == window@.len(),
            cap >= NUM_CODED,
            window@ == wo,
            wo == old(window)@,
            bs == block_start as int,
            block_start + NUM_CODED <= usize::MAX,
            data_missing <= x,
            data_missing as int == missing_in(wo, bs, 0, x as int),
        decreases NUM_DATA - x,
    {
        let j = (block_start + x) % cap;
        if window[j].is_none() {
            data_missing = data_missing + 1;
        }
        x = x + 1;
    }
    let mut coded_missing: usize = 0;
    let mut x: usize = NUM_DATA;
    while x < NUM_CODED
        invariant
            NUM_DATA <= x <= NUM_CODED,
            cap == window@.len(),
            cap >= NUM_CODED,
            window@ == wo,
            wo == old(window)@,
            bs == block_start as int,
            block_start + NUM_CODED <= usize::MAX,
            coded_missing <= x - NUM_DATA,
            coded_missing as int == missing_in(wo, bs, NUM_DATA as int, x as int),
        decreases NUM_CODED - x,
    {
        let j = (block_start + x) % cap;
        if window[j].is_none() {
            coded_missing = coded_missing + 1;
        }
        x = x + 1;
    }
    if data_missing == 0 {
        return ;
    }
    if data_missing + coded_missing > MAX_MISSING {
        return ;
    }
    let meta_fp = find_first_present(window, block_start, 0);
    proof {
        lemma_first_present(wo, bs, 0);
        if meta_fp >= NUM_CODED {
            lemma_missing_in_split(wo, bs, 0, NUM_DATA as int, NUM_CODED as int);
            assert(false);
        }
    }
    let mref_addr: u64;
    let mref_port: u16;
    let mref_v6: bool;
    match &window[(block_start + meta_fp) % cap] {
        Some(b) => {
            mref_addr = b.meta.addr;
            mref_port = b.meta.port;
            mref_v6 = b.meta.v6;
        },
        None => {
            proof {
                assert(false);
            }
            mref_addr = 0;
            mref_port = 0;
            mref_v6 = false;
        },
    }
    let ghost mref = group_meta_ref(wo, bs);
    proof {
        assert(mref.addr == mref_addr && mref.port == mref_port && mref.v6 == mref_v6);
    }
    let len_fp = find_first_present(window, block_start, NUM_DATA);
    proof {
        lemma_first_present(wo, bs, NUM_DATA as int);
        if len_fp >= NUM_CODED {
            assert(false);
        }
    }
    let size_ref: usize;
    match &window[(block_start + len_fp) % cap] {
        Some(b) => {
            size_ref = b.meta.size;
        },
        None => {
            proof {
                assert(false);
            }
            size_ref = 0;
        },
    }
    if size_ref <= BLOB_HEADER_SIZE {
        proof {
            assert(group_len_ref(wo, bs) <= 0);
            assert(group_skip(wo, bs));
        }
        return ;
    }
    let len = size_ref - BLOB_HEADER_SIZE;
    let ghost glen = group_len_ref(wo, bs);
    proof {
        assert(glen == len);
        assert(1 <= len <= BLOB_DATA_SIZE);
        assert(!group_skip(wo, bs));
    }
    let mut shards: Vec<Option<Vec<u8>>> = Vec::new();
    let mut erasures: Vec<usize> = Vec::new();
    let mut present: usize = 0;
    let mut x: usize = 0;
    while x < NUM_CODED
        invariant
            x <= NUM_CODED,
            cap == window@.len(),
            cap >= NUM_CODED,
            window@ == wo,
            wo == old(window)@,
            window_wf(wo),
            bs == block_start as int,
            block_start + NUM_CODED <= usize::MAX,
            glen == group_len_ref(wo, bs),
            len as int == glen,
            1 <= glen <= BLOB_DATA_SIZE,
            shards@.len() == x,
            forall|p: int|
                0 <= p < x ==> #[trigger] shard_views(shards@)[p] == group_shards(wo, bs, glen)[p],
            present as int == present_count(shard_views(shards@)),
            present as int == x - missing_in(wo, bs, 0, x as int),
            forall|i: int|
                0 <= i < erasures@.len() ==> 0 <= #[trigger] erasures@[i] < x,
            forall|i: int|
                0 <= i < erasures@.len() ==> wo[(bs + erasures@[i]) % (cap as int)] is None,
            forall|i: int, i2: int|
                0 <= i < i2 < erasures@.len() ==> erasures@[i] < erasures@[i2],
            forall|y: int|
                0 <= y < x && (#[trigger] wo[(bs + y) % (cap as int)]) is None ==> exists|i: int|
                    0 <= i < erasures@.len() && #[trigger] erasures@[i] == y,
        decreases NUM_CODED - x,
    {
        let j = (block_start + x) % cap;
        let ghost shards_prev = shards@;
        let ghost erasures_prev = erasures@;
        match &window[j] {
            Some(b) => {
                proof {
                    assert(wo[(bs + x) % (cap as int)]->Some_0.wf());
                }
                let blk = if x < NUM_DATA {
                    copy_bytes_range(&b.data, 0, len)
                } else {
                    copy_bytes_range(&b.data, BLOB_HEADER_SIZE, BLOB_HEADER_SIZE + len)
                };
                shards.push(Some(blk));
                present = present + 1;
            },
            None => {
                shards.push(None);
                erasures.push(x);
            },
        }
        proof {
            assert(shard_views(shards@).drop_last() =~= shard_views(shards_prev));
            assert forall|p: int| 0 <= p < x + 1 implies #[trigger] shard_views(shards@)[p]
                == group_shards(wo, bs, glen)[p] by {
                if p < x {
                    assert(shards@[p] == shards_prev[p]);
                    assert(shard_views(shards_prev)[p] == group_shards(wo, bs, glen)[p]);
                    assert(shard_views(shards@)[p] == shard_views(shards_prev)[p]);
                } else {
                    if wo[(bs + x) % (cap as int)] is Some {
                        if x < NUM_DATA {
                            assert(shards@[p]->Some_0@ =~= wo[(bs + x) % (
                                cap as int)]->Some_0.data@.take(glen));
                        } else {
                            assert(shards@[p]->Some_0@ =~= wo[(bs + x) % (
                                cap as int)]->Some_0.data@.subrange(
                                BLOB_HEADER_SIZE as int,
                                BLOB_HEADER_SIZE + glen,
                            ));
                        }
                    }
                }
            }
            assert forall|y: int|
                0 <= y < x + 1 && (#[trigger] wo[(bs + y) % (cap as int)]) is None implies exists|i: int|
                    0 <= i < erasures@.len() && #[trigger] erasures@[i] == y by {
                if y < x {
                    let i = choose|i: int|
                        0 <= i < erasures_prev.len() && #[trigger] erasures_prev[i] == y;
                    assert(erasures@[i] == y);
                } else {
                    assert(erasures@[erasures@.len() - 1] == y);
                }
            }
        }
        x = x + 1;
    }
    let ghost gshards = group_shards(wo, bs, glen);
    proof {
        assert(shard_views(shards@) =~= gshards);
        lemma_missing_in_split(wo, bs, 0, NUM_DATA as int, NUM_CODED as int);
        assert(present >= NUM_DATA);
        assert forall|i: int|
            0 <= i < gshards.len() && gshards[i] is Some implies (#[trigger] gshards[i])->Some_0.len()
                == glen as nat by {
            assert(wo[(bs + i) % (cap as int)]->Some_0.wf());
        }
        lemma_shards_len_uniform(gshards, glen as nat);
    }
    let ok = rs_reconstruct(&mut shards, NUM_DATA, MAX_MISSING);
    proof {
        assert(ok);
    }
    let ghost full = shards@;
    let ghost rec = recover_of(gshards, NUM_DATA as nat, MAX_MISSING as nat);
    proof {
        assert(unwrap_shards(shard_views(full)) == rec);
        assert(rec.len() == NUM_CODED);
        assert forall|d: Seq<Seq<u8>>|
            blocks_sized(d, NUM_DATA as nat, group_len_ref(wo, bs) as nat)
                && #[trigger] consistent_with(
                group_shards(wo, bs, group_len_ref(wo, bs)),
                codeword_of(d, MAX_MISSING as nat),
            ) implies recover_of(
                group_shards(wo, bs, group_len_ref(wo, bs)),
                NUM_DATA as nat,
                MAX_MISSING as nat,
            ) == codeword_of(d, MAX_MISSING as nat) by {
            assert(shards_len(gshards) == glen as nat);
            assert(consistent_with(gshards, codeword_of(d, MAX_MISSING as nat)));
        }
        assert(group_codeword_clause(wo, bs));
        assert(shards_len(gshards) == glen as nat);
        assert forall|p: int| 0 <= p < NUM_CODED implies (#[trigger] rec[p]).len()
            == glen by {
            assert(shard_views(shards@)[p] is Some);
            assert(shard_views(shards@)[p]->Some_0.len() == glen as nat);
            assert(rec[p] == unwrap_shards(shard_views(shards@))[p]);
        }
    }
    let ne = erasures.len();
    let mut i: usize = 0;
    while i < ne
        invariant
            i <= ne,
            ne == erasures@.len(),
            cap == window@.len(),
            cap >= NUM_CODED,
            wo == old(window)@,
            wo.len() == cap,
            window_wf(window@),
            window_wf(wo),
            bs == block_start as int,
            block_start + NUM_CODED <= usize::MAX,
            glen == group_len_ref(wo, bs),
            1 <= glen <= BLOB_DATA_SIZE,
            mref == group_meta_ref(wo, bs),
            mref.addr == mref_addr,
            mref.port == mref_port,
            mref.v6 == mref_v6,
            rec == recover_of(gshards, NUM_DATA as nat, MAX_MISSING as nat),
            gshards == group_shards(wo, bs, glen),
            rec.len() == NUM_CODED,
            forall|p: int| 0 <= p < NUM_CODED ==> (#[trigger] rec[p]).len() == glen,
            shards@.len() == NUM_CODED,
            full.len() == NUM_CODED,
            forall|p: int| 0 <= p < NUM_CODED ==> (#[trigger] shard_views(full)[p]) is Some,
            unwrap_shards(shard_views(full)) == rec,
            forall|i2: int|
                0 <= i2 < ne ==> 0 <= #[trigger] erasures@[i2] < NUM_CODED,
            forall|i2: int|
                0 <= i2 < ne ==> wo[(bs + erasures@[i2]) % (cap as int)] is None,
            forall|i2: int, i3: int|
                0 <= i2 < i3 < ne ==> erasures@[i2] < erasures@[i3],
            forall|y: int|
                0 <= y < NUM_CODED && (#[trigger] wo[(bs + y) % (cap as int)]) is None ==> exists|i2: int|
                    0 <= i2 < ne && #[trigger] erasures@[i2] == y,
            forall|y: int|
                0 <= y < NUM_CODED && !(exists|i2: int|
                    0 <= i2 < i && #[trigger] erasures@[i2] == y) ==> shards@[y] == full[y],
            forall|j: int|
                0 <= j < cap && (forall|i2: int|
                    0 <= i2 < i ==> j != #[trigger] ((bs + erasures@[i2]) % (cap as int)))
                    ==> #[trigger] window@[j] == wo[j],
            forall|i2: int|
                0 <= i2 < i ==> ((#[trigger] window@[(bs + erasures@[i2]) % (cap as int)]) is Some
                    && (if erasures@[i2] < NUM_DATA {
                    recovered_data_blob(
                        window@[(bs + erasures@[i2]) % (cap as int)]->Some_0,
                        bs + erasures@[i2],
                        mref,
                        rec[erasures@[i2] as int],
                    )
                } else {
                    recovered_parity_blob(
                        window@[(bs + erasures@[i2]) % (cap as int)]->Some_0,
                        bs + erasures@[i2],
                        rec[erasures@[i2] as int],
                    )
                })),
        decreases ne - i,
    {
        let x = erasures[i];
        let j = (block_start + x) % cap;
        let ghost w_iter = window@;
        proof {
            assert(0 <= x < NUM_CODED);
            assert forall|i2: int| 0 <= i2 < i implies #[trigger] erasures@[i2] != x by {
                assert(erasures@[i2] < erasures@[i as int]);
            }
            assert(shards@[x as int] == full[x as int]);
            assert(shard_views(full)[x as int] is Some);
        }
        let mut tmp: Option<Vec<u8>> = None;
        shards.set_and_swap(x, &mut tmp);
        let block = tmp.unwrap();
        proof {
            assert(shard_views(full)[x as int] == Some(block@));
            assert(block@ == unwrap_shards(shard_views(full))[x as int]);
            assert(block@ == rec[x as int]);
            assert(block@.len() == glen);
            assert forall|y: int|
                0 <= y < NUM_CODED && !(exists|i2: int|
                    0 <= i2 < i + 1 && #[trigger] erasures@[i2] == y) implies shards@[y]
                == full[y] by {
                assert(y != x);
            }
        }
        let mut b = re.allocate();
        let ghost zeros = Seq::new(BLOB_SIZE as nat, |ii: int| 0u8);
        if x < NUM_DATA {
            write_bytes_at(&mut b.data, 0, &block);
            let ghost s1 = overwrite(zeros, 0, block@);
            let f = b.get_data_size();
            proof {
                assert(f == spec_u64_from_le_bytes(s1.subrange(
                    BLOB_SIZE_OFFSET as int,
                    BLOB_SIZE_OFFSET + 8,
                )));
            }
            let ds: usize = if f >= BLOB_HEADER_SIZE as u64 && f <= BLOB_SIZE as u64 {
                (f - BLOB_HEADER_SIZE as u64) as usize
            } else {
                0
            };
            b.set_index((block_start + x) as u64);
            b.set_size(ds);
            b.meta = Meta { size: b.meta.size, addr: mref_addr, port: mref_port, v6: mref_v6 };
            b.clear_coding();
            proof {
                assert(recovered_data_blob(b, bs + x, mref, rec[x as int]));
            }
        } else {
            write_bytes_at(&mut b.data, BLOB_HEADER_SIZE, &block);
            b.set_index((block_start + x) as u64);
            b.set_coding();
            proof {
                assert(recovered_parity_blob(b, bs + x, rec[x as int]));
            }
        }
        let ghost w_mid = window@;
        window[j] = Some(b);
        proof {
            assert(w_mid == w_iter);
            assert(window@ == w_iter.update(j as int, Some(b)));
            assert forall|jj: int|
                0 <= jj < cap && (forall|i2: int|
                    0 <= i2 < i + 1 ==> jj != #[trigger] ((bs + erasures@[i2]) % (cap as int)))
                    implies #[trigger] window@[jj] == wo[jj] by {
                assert(jj != j as int);
                assert(window@[jj] == w_iter[jj]);
            }
            assert forall|i2: int| 0 <= i2 < i + 1 implies ((#[trigger] window@[(bs
                + erasures@[i2]) % (cap as int)]) is Some && (if erasures@[i2] < NUM_DATA {
                recovered_data_blob(
                    window@[(bs + erasures@[i2]) % (cap as int)]->Some_0,
                    bs + erasures@[i2],
                    mref,
                    rec[erasures@[i2] as int],
                )
            } else {
                recovered_parity_blob(
                    window@[(bs + erasures@[i2]) % (cap as int)]->Some_0,
                    bs + erasures@[i2],
                    rec[erasures@[i2] as int],
                )
            })) by {
                if i2 < i {
                    let ji2 = (bs + erasures@[i2]) % (cap as int);
                    if erasures@[i2] < erasures@[i as int] {
                        lemma_slot_distinct(cap as int, bs + erasures@[i2], bs + x);
                    } else {
                        lemma_slot_distinct(cap as int, bs + x, bs + erasures@[i2]);
                    }
                    assert(ji2 != j as int);
                    assert(window@[ji2] == w_iter[ji2]);
                } else {
                    assert(erasures@[i2] == x);
                    assert(window@[(bs + x) % (cap as int)] == Some(b));
                }
            }
            assert forall|jj: int| 0 <= jj < cap && window@[jj] is Some implies (#[trigger] window@[jj])->Some_0.wf() by {
                if jj == j as int {
                    assert(window@[jj]->Some_0 == b);
                } else {
                    assert(window@[jj] == w_iter[jj]);
                }
            }
        }
        i = i + 1;
    }
    proof {
        assert forall|x: int| 0 <= x < NUM_CODED implies {
            if wo[(bs + x) % (cap as int)] is Some {
                (#[trigger] window@[(bs + x) % (cap as int)]) == wo[(bs + x) % (cap as int)]
            } else {
                window@[(bs + x) % (cap as int)] is Some && (if x < NUM_DATA {
                    recovered_data_blob(
                        window@[(bs + x) % (cap as int)]->Some_0,
                        bs + x,
                        group_meta_ref(wo, bs),
                        rec[x],
                    )
                } else {
                    recovered_parity_blob(window@[(bs + x) % (cap as int)]->Some_0, bs + x, rec[x])
                })
            }
        } by {
            if wo[(bs + x) % (cap as int)] is Some {
                assert forall|i2: int| 0 <= i2 < ne implies (bs + x) % (cap as int)
                    != #[trigger] ((bs + erasures@[i2]) % (cap as int)) by {
                    assert(wo[(bs + erasures@[i2]) % (cap as int)] is None);
                    if erasures@[i2] < x {
                        lemma_slot_distinct(cap as int, bs + erasures@[i2], bs + x);
                    } else if erasures@[i2] > x {
                        lemma_slot_distinct(cap as int, bs + x, bs + erasures@[i2]);
                    }
                }
                assert(window@[(bs + x) % (cap as int)] == wo[(bs + x) % (cap as int)]);
            } else {
                let i2 = choose|i2: int| 0 <= i2 < ne && #[trigger] erasures@[i2] == x;
                assert(window@[(bs + erasures@[i2]) % (cap as int)] is Some);
            }
        }
        assert(group_recovered(wo, window@, bs));
        assert forall|j: int|
            0 <= j < cap && (forall|x: int|
                0 <= x < NUM_CODED ==> j != #[trigger] ((bs + x) % (cap as int)))
                implies #[trigger] window@[j] == wo[j] by {
            assert forall|i2: int| 0 <= i2 < ne implies j != #[trigger] ((bs + erasures@[i2]) % (
                cap as int)) by {
                assert(0 <= erasures@[i2] < NUM_CODED);
            }
        }
    }
}


/// How many groups one `recover` call walks: full groups between the
/// frontier and the receive mark, capped at one hundred.
pub open spec fn groups_to_recover(consumed: int, received: int) -> int {
    if received <= consumed {
        0
    } else {
        let nb = (received - consumed) / (NUM_CODED as int);
        if nb > 100 {
            100
        } else {
            nb
        }
    }
}

/// Slot `j` belongs to one of the first `t` groups scanned from the
/// frontier's group start.
pub open spec fn slot_in_scan(cap: int, consumed: int, t: int, j: int) -> bool {
    exists|y: int|
        0 <= y < NUM_CODED * t && j == #[trigger] ((first_block_start(consumed) + y) % cap)
}

/// Missing-slot counts agree on windows that agree on the group.
proof fn lemma_missing_in_agree(
    w1: Seq<Option<Blob>>,
    w2: Seq<Option<Blob>>,
    bs: int,
    from: int,
    to: int,
)
    requires
        w1.len() == w2.len(),
        forall|y: int|
            0 <= y < NUM_CODED ==> #[trigger] w1[(bs + y) % (w1.len() as int)] == w2[(bs + y) % (
            w1.len() as int)],
        0 <= from <= to <= NUM_CODED,
    ensures
        missing_in(w1, bs, from, to) == missing_in(w2, bs, from, to),
    decreases to - from,
{
    if to > from {
        lemma_missing_in_agree(w1, w2, bs, from, to - 1);
        assert(w1[(bs + (to - 1)) % (w1.len() as int)] == w2[(bs + (to - 1)) % (
            w1.len() as int)]);
    }
}

/// First-present searches agree on windows that agree on the group.
proof fn lemma_first_present_agree(
    w1: Seq<Option<Blob>>,
    w2: Seq<Option<Blob>>,
    bs: int,
    from: int,
)
    requires
        w1.len() == w2.len(),
        forall|y: int|
            0 <= y < NUM_CODED ==> #[trigger] w1[(bs + y) % (w1.len() as int)] == w2[(bs + y) % (
            w1.len() as int)],
        0 <= from <= NUM_CODED,
    ensures
        first_present_from(w1, bs, from) == first_present_from(w2, bs, from),
    decreases NUM_CODED - from,
{
    if from < NUM_CODED {
        assert(w1[(bs + from) % (w1.len() as int)] == w2[(bs + from) % (w1.len() as int)]);
        if !(w1[(bs + from) % (w1.len() as int)] is Some) {
            lemma_first_present_agree(w1, w2, bs, from + 1);
        }
    }
}

/// Everything the recoverer reads of a group is the same on windows that
/// agree on the group's slots.
proof fn lemma_group_reads_rec(w1: Seq<Option<Blob>>, w2: Seq<Option<Blob>>, bs: int)
    requires
        w1.len() == w2.len(),
        w1.len() >= NUM_CODED,
        forall|y: int|
            0 <= y < NUM_CODED ==> #[trigger] w1[(bs + y) % (w1.len() as int)] == w2[(bs + y) % (
            w1.len() as int)],
    ensures
        group_skip(w1, bs) == group_skip(w2, bs),
        group_len_ref(w1, bs) == group_len_ref(w2, bs),
        first_present_from(w1, bs, 0) < NUM_CODED ==> group_meta_ref(w1, bs) == group_meta_ref(
            w2,
            bs,
        ),
        forall|len: int| #[trigger] group_shards(w1, bs, len) == group_shards(w2, bs, len),
        group_codeword_clause(w1, bs) == group_codeword_clause(w2, bs),
{
    lemma_missing_in_agree(w1, w2, bs, 0, NUM_DATA as int);
    lemma_missing_in_agree(w1, w2, bs, NUM_DATA as int, NUM_CODED as int);
    lemma_first_present_agree(w1, w2, bs, 0);
    lemma_first_present_agree(w1, w2, bs, NUM_DATA as int);
    lemma_first_present(w1, bs, 0);
    lemma_first_present(w1, bs, NUM_DATA as int);
    if first_present_from(w1, bs, 0) < NUM_CODED {
        let fp = first_present_from(w1, bs, 0);
        assert(w1[(bs + fp) % (w1.len() as int)] == w2[(bs + fp) % (w1.len() as int)]);
    }
    if first_present_from(w1, bs, NUM_DATA as int) < NUM_CODED {
        let fp = first_present_from(w1, bs, NUM_DATA as int);
        assert(w1[(bs + fp) % (w1.len() as int)] == w2[(bs + fp) % (w1.len() as int)]);
    }
    assert forall|len: int| #[trigger] group_shards(w1, bs, len) == group_shards(
        w2,
        bs,
        len,
    ) by {
        assert forall|x: int| 0 <= x < NUM_CODED implies group_shards(w1, bs, len)[x]
            == group_shards(w2, bs, len)[x] by {
            assert(w1[(bs + x) % (w1.len() as int)] == w2[(bs + x) % (w1.len() as int)]);
        }
        assert(group_shards(w1, bs, len) =~= group_shards(w2, bs, len));
    }
    assert(group_shards(w1, bs, group_len_ref(w1, bs)) == group_shards(
        w2,
        bs,
        group_len_ref(w2, bs),
    ));
    if group_codeword_clause(w1, bs) {
        assert forall|d: Seq<Seq<u8>>|
            blocks_sized(d, NUM_DATA as nat, group_len_ref(w2, bs) as nat)
                && #[trigger] consistent_with(
                group_shards(w2, bs, group_len_ref(w2, bs)),
                codeword_of(d, MAX_MISSING as nat),
            ) implies recover_of(
                group_shards(w2, bs, group_len_ref(w2, bs)),
                NUM_DATA as nat,
                MAX_MISSING as nat,
            ) == codeword_of(d, MAX_MISSING as nat) by {
            assert(consistent_with(
                group_shards(w1, bs, group_len_ref(w1, bs)),
                codeword_of(d, MAX_MISSING as nat),
            ));
        }
    }
    if group_codeword_clause(w2, bs) {
        assert forall|d: Seq<Seq<u8>>|
            blocks_sized(d, NUM_DATA as nat, group_len_ref(w1, bs) as nat)
                && #[trigger] consistent_with(
                group_shards(w1, bs, group_len_ref(w1, bs)),
                codeword_of(d, MAX_MISSING as nat),
            ) implies recover_of(
                group_shards(w1, bs, group_len_ref(w1, bs)),
                NUM_DATA as nat,
                MAX_MISSING as nat,
            ) == codeword_of(d, MAX_MISSING as nat) by {
            assert(consistent_with(
                group_shards(w2, bs, group_len_ref(w2, bs)),
                codeword_of(d, MAX_MISSING as nat),
            ));
        }
    }
}

/// A rebuilt group stays rebuilt when its slots are left alone.
proof fn lemma_group_claims_stable(
    wo: Seq<Option<Blob>>,
    w1: Seq<Option<Blob>>,
    w2: Seq<Option<Blob>>,
    bs: int,
)
    requires
        w1.len() == wo.len(),
        w2.len() == wo.len(),
        forall|x: int|
            0 <= x < NUM_CODED ==> #[trigger] w2[(bs + x) % (wo.len() as int)] == w1[(bs + x) % (
            wo.len() as int)],
    ensures
        group_recovered(wo, w1, bs) ==> group_recovered(wo, w2, bs),
        group_untouched(wo, w1, bs) ==> group_untouched(wo, w2, bs),
{
    let cap = wo.len() as int;
    if group_recovered(wo, w1, bs) {
        let len = group_len_ref(wo, bs);
        let rec = recover_of(group_shards(wo, bs, len), NUM_DATA as nat, MAX_MISSING as nat);
        assert forall|x: int| 0 <= x < NUM_CODED implies {
            if wo[(bs + x) % cap] is Some {
                (#[trigger] w2[(bs + x) % cap]) == wo[(bs + x) % cap]
            } else {
                w2[(bs + x) % cap] is Some && (if x < NUM_DATA {
                    recovered_data_blob(
                        w2[(bs + x) % cap]->Some_0,
                        bs + x,
                        group_meta_ref(wo, bs),
                        rec[x],
                    )
                } else {
                    recovered_parity_blob(w2[(bs + x) % cap]->Some_0, bs + x, rec[x])
                })
            }
        } by {
            assert(w2[(bs + x) % (wo.len() as int)] == w1[(bs + x) % (wo.len() as int)]);
        }
    }
    if group_untouched(wo, w1, bs) {
        assert forall|x: int| 0 <= x < NUM_CODED implies #[trigger] w2[(bs + x) % (
            wo.len() as int)] == wo[(bs + x) % (wo.len() as int)] by {
            assert(w2[(bs + x) % (wo.len() as int)] == w1[(bs + x) % (wo.len() as int)]);
        }
    }
}

/// What one `recover` call did to the window.
pub open spec fn recover_outcome(
    wo: Seq<Option<Blob>>,
    wn: Seq<Option<Blob>>,
    consumed: int,
    received: int,
) -> bool {
    let cap = wo.len() as int;
    let gg = groups_to_recover(consumed, received);
    &&& forall|g: int|
        0 <= g < gg ==> (if group_skip(wo, #[trigger] scanned_group(consumed, g)) {
            group_untouched(wo, wn, scanned_group(consumed, g))
        } else {
            group_recovered(wo, wn, scanned_group(consumed, g)) && group_codeword_clause(
                wo,
                scanned_group(consumed, g),
            )
        })
    &&& forall|j: int|
        0 <= j < cap && !slot_in_scan(cap, consumed, gg, j) ==> #[trigger] wn[j] == wo[j]
}

/// Rebuild the missing blobs of every complete group between the frontier
/// and the receive mark.
///
/// `consumed` is the frontier, `received` the highest absolute index seen
/// plus one. Up to one hundred groups are walked per call; a group is
/// rebuilt exactly when at least one data blob is missing, no more than
/// `MAX_MISSING` blobs are missing in all, and a present parity blob
/// records the group's block length. Rebuilt blobs are made from fresh
/// pool blobs; everything else stays put, and the call always succeeds.
pub fn recover(
    re: &BlobRecycler,
    window: &mut Vec<Option<Blob>>,
    consumed: usize,
    received: usize,
) -> (r: Result<(), ErasureError>)
    requires
        window_wf(old(window)@),
        old(window)@.len() >= NUM_CODED,
        NUM_CODED * groups_to_recover(consumed as int, received as int) <= old(window)@.len(),
    ensures
        final(window)@.len() == old(window)@.len(),
        window_wf(final(window)@),
        r == Ok::<(), ErasureError>(()),
        recover_outcome(old(window)@, final(window)@, consumed as int, received as int),
{
    let cap = window.len();
    let ghost wo = old(window)@;
    if received <= consumed {
        return Ok(());
    }
    let num_blocks = (received - consumed) / NUM_CODED;
    let groups = if num_blocks > 100 {
        100
    } else {
        num_blocks
    };
    let ghost gg = groups_to_recover(consumed as int, received as int);
    proof {
        assert(groups as int == gg);
        assert(0 <= consumed as int % (NUM_CODED as int) <= consumed as int)
            by (nonlinear_arith);
        vstd::arithmetic::div_mod::lemma_fundamental_div_mod(
            received as int - consumed as int,
            NUM_CODED as int,
        );
        assert((NUM_CODED as int) * ((received as int - consumed as int) / (NUM_CODED as int))
            <= received as int - consumed as int);
        assert(gg <= (received as int - consumed as int) / (NUM_CODED as int));
        assert((NUM_CODED as int) * gg <= (NUM_CODED as int) * ((received as int
            - consumed as int) / (NUM_CODED as int))) by (nonlinear_arith)
            requires
                gg <= (received as int - consumed as int) / (NUM_CODED as int),
        ;
    }
    let mut block_start = consumed - (consumed % NUM_CODED);
    let ghost bs0 = first_block_start(consumed as int);
    proof {
        assert(block_start as int == bs0);
        assert(bs0 + NUM_CODED * gg <= received);
    }
    let mut g: usize = 0;
    while g < groups
        invariant
            g <= groups,
            cap == window@.len(),
            cap == wo.len(),
            cap >= NUM_CODED,
            wo == old(window)@,
            window_wf(window@),
            groups as int == gg,
            gg == groups_to_recover(consumed as int, received as int),
            bs0 == first_block_start(consumed as int),
            0 <= bs0 <= consumed,
            block_start as int == bs0 + NUM_CODED * g,
            bs0 + NUM_CODED * gg <= received,
            received <= usize::MAX,
            NUM_CODED * gg <= cap,
            forall|g2: int|
                0 <= g2 < g ==> (if group_skip(wo, #[trigger] scanned_group(consumed as int, g2)) {
                    group_untouched(wo, window@, scanned_group(consumed as int, g2))
                } else {
                    group_recovered(wo, window@, scanned_group(consumed as int, g2))
                        && group_codeword_clause(wo, scanned_group(consumed as int, g2))
                }),
            forall|j: int|
                0 <= j < cap && !slot_in_scan(cap as int, consumed as int, g as int, j)
                    ==> #[trigger] window@[j] == wo[j],
        decreases groups - g,
    {
        proof {
            assert(NUM_CODED * (g + 1) <= NUM_CODED * gg) by (nonlinear_arith)
                requires
                    g + 1 <= gg,
            ;
            assert(block_start + NUM_CODED <= received);
        }
        let ghost w_cur = window@;
        let ghost bs = block_start as int;
        proof {
            assert forall|y: int| 0 <= y < NUM_CODED implies #[trigger] w_cur[(bs + y) % (
                w_cur.len() as int)] == wo[(bs + y) % (w_cur.len() as int)] by {
                let jy = (bs + y) % (cap as int);
                if slot_in_scan(cap as int, consumed as int, g as int, jy) {
                    let y2 = choose|y2: int|
                        0 <= y2 < NUM_CODED * g && jy == #[trigger] ((first_block_start(
                            consumed as int,
                        ) + y2) % (cap as int));
                    assert(NUM_CODED * g <= NUM_CODED * gg) by (nonlinear_arith)
                        requires
                            g <= gg,
                    ;
                    lemma_slot_distinct(cap as int, bs0 + y2, bs0 + NUM_CODED * g + y);
                    assert(false);
                }
                assert(window@[jy] == wo[jy]);
            }
            lemma_group_reads_rec(w_cur, wo, bs);
        }
        recover_group(re, window, block_start);
        proof {
            assert forall|g2: int| 0 <= g2 < g + 1 implies (if group_skip(
                wo,
                #[trigger] scanned_group(consumed as int, g2),
            ) {
                group_untouched(wo, window@, scanned_group(consumed as int, g2))
            } else {
                group_recovered(wo, window@, scanned_group(consumed as int, g2))
                    && group_codeword_clause(wo, scanned_group(consumed as int, g2))
            }) by {
                if g2 < g {
                    let bsg = scanned_group(consumed as int, g2);
                    assert forall|x: int| 0 <= x < NUM_CODED implies #[trigger] window@[(bsg + x)
                        % (wo.len() as int)] == w_cur[(bsg + x) % (wo.len() as int)] by {
                        assert(NUM_CODED * g2 + x < NUM_CODED * g) by (nonlinear_arith)
                            requires
                                g2 < g,
                                0 <= x < NUM_CODED,
                        ;
                        assert forall|y: int| 0 <= y < NUM_CODED implies (bsg + x) % (cap as int)
                            != #[trigger] ((bs + y) % (cap as int)) by {
                            assert(NUM_CODED * g <= NUM_CODED * gg) by (nonlinear_arith)
                                requires
                                    g <= gg,
                            ;
                            lemma_slot_distinct(
                                cap as int,
                                bs0 + NUM_CODED * g2 + x,
                                bs0 + NUM_CODED * g + y,
                            );
                        }
                        assert(window@[(bsg + x) % (cap as int)] == w_cur[(bsg + x) % (
                            cap as int)]);
                    }
                    lemma_group_claims_stable(wo, w_cur, window@, bsg);
                } else {
                    let bsg = scanned_group(consumed as int, g2);
                    assert(bsg == bs);
                    if group_skip(wo, bs) {
                        assert(group_skip(w_cur, bs));
                        assert(window@ == w_cur);
                        assert forall|x: int| 0 <= x < NUM_CODED implies #[trigger] window@[(bs
                            + x) % (wo.len() as int)] == wo[(bs + x) % (wo.len() as int)] by {
                            assert(w_cur[(bs + x) % (w_cur.len() as int)] == wo[(bs + x) % (
                                w_cur.len() as int)]);
                        }
                        assert(group_untouched(wo, window@, bs));
                    } else {
                        assert(!group_skip(w_cur, bs));
                        assert(group_recovered(w_cur, window@, bs));
                        assert(group_codeword_clause(w_cur, bs));
                        assert(group_codeword_clause(wo, bs));
                        let len = group_len_ref(wo, bs);
                        let rec = recover_of(
                            group_shards(wo, bs, len),
                            NUM_DATA as nat,
                            MAX_MISSING as nat,
                        );
                        assert(group_len_ref(w_cur, bs) == len);
                        assert(group_shards(w_cur, bs, len) == group_shards(wo, bs, len));
                        lemma_first_present(w_cur, bs, 0);
                        if first_present_from(w_cur, bs, 0) == NUM_CODED {
                            lemma_missing_in_split(w_cur, bs, 0, NUM_DATA as int, NUM_CODED as int);
                            assert(false);
                        }
                        assert(group_meta_ref(w_cur, bs) == group_meta_ref(wo, bs));
                        assert forall|x: int| 0 <= x < NUM_CODED implies {
                            if wo[(bs + x) % (cap as int)] is Some {
                                (#[trigger] window@[(bs + x) % (cap as int)]) == wo[(bs + x) % (
                                cap as int)]
                            } else {
                                window@[(bs + x) % (cap as int)] is Some && (if x < NUM_DATA {
                                    recovered_data_blob(
                                        window@[(bs + x) % (cap as int)]->Some_0,
                                        bs + x,
                                        group_meta_ref(wo, bs),
                                        rec[x],
                                    )
                                } else {
                                    recovered_parity_blob(
                                        window@[(bs + x) % (cap as int)]->Some_0,
                                        bs + x,
                                        rec[x],
                                    )
                                })
                            }
                        } by {
                            assert(w_cur[(bs + x) % (w_cur.len() as int)] == wo[(bs + x) % (
                                w_cur.len() as int)]);
                            assert(group_meta_ref(w_cur, bs) == group_meta_ref(wo, bs));
                        }
                        assert(group_recovered(wo, window@, bs));
                    }
                }
            }
            assert forall|j: int|
                0 <= j < cap && !slot_in_scan(cap as int, consumed as int, g as int + 1, j)
                    implies #[trigger] window@[j] == wo[j] by {
                assert(!slot_in_scan(cap as int, consumed as int, g as int, j));
                assert forall|x: int| 0 <= x < NUM_CODED implies j != #[trigger] ((
                    block_start as int + x) % (w_cur.len() as int)) by {
                    if j == (block_start as int + x) % (w_cur.len() as int) {
                        assert(0 <= NUM_CODED * (g as int) + x < NUM_CODED * (g as int + 1))
                            by (nonlinear_arith)
                            requires
                                0 <= x < NUM_CODED,
                                0 <= g,
                        ;
                        assert(j == (first_block_start(consumed as int) + (NUM_CODED * (
                        g as int) + x)) % (cap as int));
                        assert(slot_in_scan(cap as int, consumed as int, g as int + 1, j));
                    }
                }
                assert(window@[j] == w_cur[j]);
            }
        }
        block_start = block_start + NUM_CODED;
        g = g + 1;
    }
    Ok(())
}


/// The encoder's reads of a group depend only on its data slots.
proof fn lemma_group_data_reads(w1: Seq<Option<Blob>>, w2: Seq<Option<Blob>>, bs: int, x: int)
    requires
        w1.len() == w2.len(),
        forall|y: int|
            0 <= y < NUM_DATA ==> #[trigger] w1[(bs + y) % (w1.len() as int)] == w2[(bs + y) % (
            w1.len() as int)],
        0 <= x <= NUM_DATA,
    ensures
        group_max_size(w1, bs, x) == group_max_size(w2, bs, x),
        forall|len: nat| #[trigger] group_data_blocks(w1, bs, len) == group_data_blocks(
            w2,
            bs,
            len,
        ),
    decreases x,
{
    if x > 0 {
        lemma_group_data_reads(w1, w2, bs, x - 1);
        assert(w1[(bs + (x - 1)) % (w1.len() as int)] == w2[(bs + (x - 1)) % (
            w1.len() as int)]);
    }
    assert forall|len: nat| #[trigger] group_data_blocks(w1, bs, len) == group_data_blocks(
        w2,
        bs,
        len,
    ) by {
        assert forall|y: int| 0 <= y < NUM_DATA implies group_data_blocks(w1, bs, len)[y]
            == group_data_blocks(w2, bs, len)[y] by {
            assert(w1[(bs + y) % (w1.len() as int)] == w2[(bs + y) % (w1.len() as int)]);
        }
        assert(group_data_blocks(w1, bs, len) =~= group_data_blocks(w2, bs, len));
    }
}

/// Encoding is idempotent. When `w1` arose from `w0` by coding the group
/// at `bs` — which leaves the group's data slots alone — coding the same
/// group again writes back exactly the parity bytes, sizes and metadata
/// that are already there.
pub proof fn lemma_generate_coding_idempotent(
    w0: Seq<Option<Blob>>,
    w1: Seq<Option<Blob>>,
    w2: Seq<Option<Blob>>,
    bs: int,
)
    requires
        w0.len() >= NUM_CODED,
        w1.len() == w0.len(),
        w2.len() == w0.len(),
        window_wf(w0),
        window_wf(w1),
        group_complete(w0, bs),
        group_max_size(w0, bs, NUM_DATA as int) <= BLOB_DATA_SIZE,
        forall|x: int|
            0 <= x < NUM_DATA ==> #[trigger] w1[(bs + x) % (w0.len() as int)] == w0[(bs + x) % (
            w0.len() as int)],
        group_coded(w0, w1, bs),
        group_coded(w1, w2, bs),
    ensures
        forall|x: int|
            NUM_DATA <= x < NUM_CODED ==> ((#[trigger] w2[(bs + x) % (w0.len() as int)]) is Some
                && w1[(bs + x) % (w0.len() as int)] is Some && w2[(bs + x) % (
            w0.len() as int)]->Some_0.data@ == w1[(bs + x) % (w0.len() as int)]->Some_0.data@
                && w2[(bs + x) % (w0.len() as int)]->Some_0.meta == w1[(bs + x) % (
            w0.len() as int)]->Some_0.meta),
{
    let cap = w0.len() as int;
    lemma_group_data_reads(w1, w0, bs, NUM_DATA as int);
    let len = group_max_size(w0, bs, NUM_DATA as int);
    assert(group_max_size(w1, bs, NUM_DATA as int) == len);
    assert forall|x: int| NUM_DATA <= x < NUM_CODED implies ((#[trigger] w2[(bs + x)
        % (w0.len() as int)]) is Some && w1[(bs + x) % (w0.len() as int)] is Some && w2[(bs + x)
        % (w0.len() as int)]->Some_0.data@ == w1[(bs + x) % (w0.len() as int)]->Some_0.data@
        && w2[(bs + x) % (w0.len() as int)]->Some_0.meta == w1[(bs + x) % (
        w0.len() as int)]->Some_0.meta) by {
        let y = x - NUM_DATA;
        assert(0 <= y < MAX_MISSING);
        assert(w1[(bs + NUM_DATA + y) % cap] is Some);
        assert(w2[(bs + NUM_DATA + y) % cap] is Some);
        let b0 = w0[(bs + NUM_DATA + y) % cap]->Some_0;
        let b1 = w1[(bs + NUM_DATA + y) % cap]->Some_0;
        let b2 = w2[(bs + NUM_DATA + y) % cap]->Some_0;
        let pb0 = group_parity_block(w0, bs, len, y);
        let pb1 = group_parity_block(w1, bs, len, y);
        assert(coded_parity(b0, b1, len, pb0));
        assert(coded_parity(b1, b2, len, pb1));
        assert(pb1 == pb0);
        let le = spec_u64_to_le_bytes((len + BLOB_HEADER_SIZE) as u64);
        vstd::bytes::lemma_auto_spec_u64_to_from_le_bytes();
        assert(b1.wf());
        assert(b1.data@.len() == BLOB_SIZE);
        let inner1 = overwrite(b1.data@, BLOB_SIZE_OFFSET as int, le).update(
            BLOB_FLAGS_OFFSET as int,
            1u8,
        );
        lemma_overwrite(b1.data@, BLOB_SIZE_OFFSET as int, le);
        lemma_overwrite(inner1, BLOB_HEADER_SIZE as int, pb0);
        let inner0 = overwrite(b0.data@, BLOB_SIZE_OFFSET as int, le).update(
            BLOB_FLAGS_OFFSET as int,
            1u8,
        );
        assert(b0.wf());
        lemma_overwrite(b0.data@, BLOB_SIZE_OFFSET as int, le);
        lemma_overwrite(inner0, BLOB_HEADER_SIZE as int, pb0);
        assert forall|i: int| 0 <= i < BLOB_SIZE implies b2.data@[i] == b1.data@[i] by {
            if BLOB_HEADER_SIZE <= i < BLOB_HEADER_SIZE + len {
                assert(b2.data@[i] == pb0[i - BLOB_HEADER_SIZE]);
                assert(b1.data@[i] == pb0[i - BLOB_HEADER_SIZE]);
            } else if i == BLOB_FLAGS_OFFSET {
                assert(b2.data@[i] == 1u8);
                assert(b1.data@[i] == 1u8);
            } else if BLOB_SIZE_OFFSET <= i < BLOB_SIZE_OFFSET + 8 {
                assert(b2.data@[i] == le[i - BLOB_SIZE_OFFSET]);
                assert(b1.data@[i] == le[i - BLOB_SIZE_OFFSET]);
            } else {
                assert(b2.data@[i] == b1.data@[i]);
            }
        }
        assert(b2.data@.len() == BLOB_SIZE);
        assert(b2.data@ =~= b1.data@);
        assert(b2.meta.size == b1.meta.size);
        assert(b2.meta == b1.meta);
    }
}

/// A scan too short to contain a group tail encodes nothing: with the
/// frontier on a group boundary and fewer than `NUM_CODED` new records,
/// `generate_coding` leaves the window untouched and succeeds.
pub proof fn lemma_generate_coding_noop(
    wo: Seq<Option<Blob>>,
    wn: Seq<Option<Blob>>,
    consumed: int,
    num: int,
    t: int,
    r: Result<(), ErasureError>,
)
    requires
        generate_coding_outcome(wo, wn, consumed, num, t, r),
        wo.len() == wn.len(),
        0 <= consumed,
        0 <= num < NUM_CODED,
        consumed % (NUM_CODED as int) == 0,
    ensures
        wn =~= wo,
        r is Ok,
{
    vstd::arithmetic::div_mod::lemma_fundamental_div_mod(consumed, NUM_CODED as int);
    vstd::arithmetic::div_mod::lemma_fundamental_div_mod_converse(
        consumed + num,
        NUM_CODED as int,
        consumed / (NUM_CODED as int),
        num,
    );
    assert(tails_in(consumed, num) == 0);
    assert(t == 0);
    assert forall|j: int| 0 <= j < wo.len() implies wn[j] == wo[j] by {
        assert(!parity_slot_written(wo.len() as int, first_block_start(consumed), 0, j));
    }
}

/// Too few new records for one full group make `recover` a no-op: the
/// window comes back untouched.
pub proof fn lemma_recover_noop(
    wo: Seq<Option<Blob>>,
    wn: Seq<Option<Blob>>,
    consumed: int,
    received: int,
)
    requires
        recover_outcome(wo, wn, consumed, received),
        wo.len() == wn.len(),
        0 <= consumed,
        received - consumed < NUM_CODED,
    ensures
        wn =~= wo,
{
    if received > consumed {
        vstd::arithmetic::div_mod::lemma_fundamental_div_mod_converse(
            received - consumed,
            NUM_CODED as int,
            0,
            received - consumed,
        );
    }
    assert(groups_to_recover(consumed, received) == 0);
    assert forall|j: int| 0 <= j < wo.len() implies wn[j] == wo[j] by {
        assert(!slot_in_scan(wo.len() as int, consumed, 0, j));
    }
}

/// `recover` touches at most one hundred groups in one call, however far
/// the receive mark is ahead of the frontier: every slot outside that
/// bounded scan keeps its value.
pub proof fn lemma_recover_bounded(
    wo: Seq<Option<Blob>>,
    wn: Seq<Option<Blob>>,
    consumed: int,
    received: int,
    j: int,
)
    requires
        recover_outcome(wo, wn, consumed, received),
        wo.len() == wn.len(),
        0 <= j < wo.len(),
        !slot_in_scan(wo.len() as int, consumed, 100, j),
    ensures
        wn[j] == wo[j],
        groups_to_recover(consumed, received) <= 100,
{
    let gg = groups_to_recover(consumed, received);
    if slot_in_scan(wo.len() as int, consumed, gg, j) {
        let y = choose|y: int|
            0 <= y < NUM_CODED * gg && j == #[trigger] ((first_block_start(consumed) + y) % (
            wo.len() as int));
        assert(NUM_CODED * gg <= NUM_CODED * 100) by (nonlinear_arith)
            requires
                gg <= 100,
        ;
        assert(slot_in_scan(wo.len() as int, consumed, 100, j));
    }
}


/// Every present blob of the group carries its own absolute index — the
/// window invariant that makes ring addressing sound.
pub open spec fn group_aligned(w: Seq<Option<Blob>>, bs: int) -> bool {
    forall|x: int|
        0 <= x < NUM_CODED && (#[trigger] w[(bs + x) % (w.len() as int)]) is Some ==> w[(bs + x)
            % (w.len() as int)]->Some_0.stored_index() as int == bs + x
}

/// Every present blob of the group is marked with the kind its position
/// calls for: parity in the group tail, data elsewhere.
pub open spec fn group_kinds_ok(w: Seq<Option<Blob>>, bs: int) -> bool {
    forall|x: int|
        0 <= x < NUM_CODED && (#[trigger] w[(bs + x) % (w.len() as int)]) is Some ==> (w[(bs + x)
            % (w.len() as int)]->Some_0.is_coding() <==> x >= NUM_DATA)
}

/// Encoding a group keeps the window invariants: indexes stay aligned and
/// kinds keep agreeing with positions, with the parity slots now marked
/// parity.
pub proof fn lemma_generate_coding_keeps_invariants(
    wo: Seq<Option<Blob>>,
    wn: Seq<Option<Blob>>,
    bs: int,
)
    requires
        wo.len() >= NUM_CODED,
        wn.len() == wo.len(),
        window_wf(wo),
        group_complete(wo, bs),
        group_max_size(wo, bs, NUM_DATA as int) <= BLOB_DATA_SIZE,
        group_coded(wo, wn, bs),
        forall|x: int|
            0 <= x < NUM_DATA ==> #[trigger] wn[(bs + x) % (wo.len() as int)] == wo[(bs + x) % (
            wo.len() as int)],
        group_aligned(wo, bs),
        group_kinds_ok(wo, bs),
    ensures
        group_aligned(wn, bs),
        group_kinds_ok(wn, bs),
{
    let cap = wo.len() as int;
    let len = group_max_size(wo, bs, NUM_DATA as int);
    let le = spec_u64_to_le_bytes((len + BLOB_HEADER_SIZE) as u64);
    vstd::bytes::lemma_auto_spec_u64_to_from_le_bytes();
    assert forall|x: int|
        0 <= x < NUM_CODED && (#[trigger] wn[(bs + x) % (wo.len() as int)]) is Some implies (wn[(
        bs + x) % (wo.len() as int)]->Some_0.stored_index() as int == bs + x && (wn[(bs + x) % (
        wo.len() as int)]->Some_0.is_coding() <==> x >= NUM_DATA)) by {
        if x < NUM_DATA {
            assert(wn[(bs + x) % (wo.len() as int)] == wo[(bs + x) % (wo.len() as int)]);
            assert(wo[(bs + x) % (wo.len() as int)] is Some);
        } else {
            let y = x - NUM_DATA;
            assert(0 <= y < MAX_MISSING);
            assert(wn[(bs + NUM_DATA + y) % cap] is Some);
            let b0 = wo[(bs + NUM_DATA + y) % cap]->Some_0;
            let bn = wn[(bs + NUM_DATA + y) % cap]->Some_0;
            let pb = group_parity_block(wo, bs, len, y);
            assert(coded_parity(b0, bn, len, pb));
            assert(wo[(bs + x) % (wo.len() as int)] is Some);
            assert(b0.wf());
            let inner = overwrite(b0.data@, BLOB_SIZE_OFFSET as int, le).update(
                BLOB_FLAGS_OFFSET as int,
                1u8,
            );
            lemma_overwrite(b0.data@, BLOB_SIZE_OFFSET as int, le);
            lemma_overwrite(inner, BLOB_HEADER_SIZE as int, pb);
            assert(bn.data@[BLOB_FLAGS_OFFSET as int] == 1u8);
            assert(bn.is_coding());
            assert forall|i: int| 0 <= i < 8 implies bn.data@[i] == b0.data@[i] by {}
            assert(bn.data@.subrange(0, 8) =~= b0.data@.subrange(0, 8));
            assert(bn.stored_index() == b0.stored_index());
        }
    }
}

/// Rebuilding a group keeps the window invariants: every rebuilt blob
/// stores its own absolute index and the kind its position calls for.
pub proof fn lemma_recover_keeps_invariants(
    wo: Seq<Option<Blob>>,
    wn: Seq<Option<Blob>>,
    bs: int,
)
    requires
        wo.len() >= NUM_CODED,
        wn.len() == wo.len(),
        window_wf(wo),
        group_recovered(wo, wn, bs),
        group_aligned(wo, bs),
        group_kinds_ok(wo, bs),
        0 <= bs,
        bs + NUM_CODED <= u64::MAX,
    ensures
        group_aligned(wn, bs),
        group_kinds_ok(wn, bs),
{
    let cap = wo.len() as int;
    let len = group_len_ref(wo, bs);
    let rec = recover_of(group_shards(wo, bs, len), NUM_DATA as nat, MAX_MISSING as nat);
    let zeros = Seq::new(BLOB_SIZE as nat, |i: int| 0u8);
    vstd::bytes::lemma_auto_spec_u64_to_from_le_bytes();
    assert forall|x: int|
        0 <= x < NUM_CODED && (#[trigger] wn[(bs + x) % (wo.len() as int)]) is Some implies (wn[(
        bs + x) % (wo.len() as int)]->Some_0.stored_index() as int == bs + x && (wn[(bs + x) % (
        wo.len() as int)]->Some_0.is_coding() <==> x >= NUM_DATA)) by {
        if wo[(bs + x) % cap] is Some {
            assert(wn[(bs + x) % cap] == wo[(bs + x) % cap]);
        } else {
            let bn = wn[(bs + x) % cap]->Some_0;
            let le = spec_u64_to_le_bytes((bs + x) as u64);
            if x < NUM_DATA {
                assert(recovered_data_blob(bn, bs + x, group_meta_ref(wo, bs), rec[x]));
                let s1 = overwrite(zeros, 0, rec[x]);
                let f = spec_u64_from_le_bytes(s1.subrange(
                    BLOB_SIZE_OFFSET as int,
                    BLOB_SIZE_OFFSET + 8,
                ));
                let ds: int = if BLOB_HEADER_SIZE <= f <= BLOB_SIZE {
                    f - BLOB_HEADER_SIZE
                } else {
                    0
                };
                let s2 = overwrite(s1, BLOB_INDEX_OFFSET as int, le);
                let s3 = overwrite(
                    s2,
                    BLOB_SIZE_OFFSET as int,
                    spec_u64_to_le_bytes((ds + BLOB_HEADER_SIZE) as u64),
                );
                assert(s2.len() >= 16) by {
                    lemma_overwrite(s2, BLOB_SIZE_OFFSET as int, spec_u64_to_le_bytes((ds
                        + BLOB_HEADER_SIZE) as u64));
                }
                lemma_overwrite(s2, BLOB_SIZE_OFFSET as int, spec_u64_to_le_bytes((ds
                    + BLOB_HEADER_SIZE) as u64));
                assert(bn.data@[BLOB_FLAGS_OFFSET as int] == 0u8);
                assert(!bn.is_coding());
                assert forall|i: int| 0 <= i < 8 implies bn.data@[i] == s2[i] by {}
                assert(s2.subrange(0, 8) =~= le) by {
                    lemma_overwrite(s1, BLOB_INDEX_OFFSET as int, le);
                }
                assert(bn.data@.subrange(0, 8) =~= le);
                assert(bn.stored_index() == (bs + x) as u64);
            } else {
                assert(recovered_parity_blob(bn, bs + x, rec[x]));
                let s1 = overwrite(zeros, BLOB_HEADER_SIZE as int, rec[x]);
                let s2 = overwrite(s1, BLOB_INDEX_OFFSET as int, le);
                lemma_overwrite(s1, BLOB_INDEX_OFFSET as int, le);
                assert(bn.data@[BLOB_FLAGS_OFFSET as int] == 1u8);
                assert(bn.is_coding());
                assert forall|i: int| 0 <= i < 8 implies bn.data@[i] == s2[i] by {}
                assert(s2.subrange(0, 8) =~= le) by {
                    lemma_overwrite(s1, BLOB_INDEX_OFFSET as int, le);
                }
                assert(bn.data@.subrange(0, 8) =~= le);
                assert(bn.stored_index() == (bs + x) as u64);
            }
        }
    }
}


/// The window-level round trip. Take a group that was encoded (`wc` arose
/// from `w0` by coding the group at `bs`) and then damaged (`wd` keeps
/// each slot of `wc` or loses it), with at least one parity blob
/// surviving. Then the surviving shards agree with the codeword of the
/// group's original data blocks — so by `group_codeword_clause`, whatever
/// `recover` rebuilds for this group is byte for byte the original
/// codeword.
pub proof fn lemma_coded_group_shards_consistent(
    w0: Seq<Option<Blob>>,
    wc: Seq<Option<Blob>>,
    wd: Seq<Option<Blob>>,
    bs: int,
)
    requires
        w0.len() >= NUM_CODED,
        wc.len() == w0.len(),
        wd.len() == w0.len(),
        window_wf(w0),
        group_complete(w0, bs),
        1 <= group_max_size(w0, bs, NUM_DATA as int) <= BLOB_DATA_SIZE,
        forall|x: int|
            0 <= x < NUM_DATA ==> #[trigger] wc[(bs + x) % (w0.len() as int)] == w0[(bs + x) % (
            w0.len() as int)],
        group_coded(w0, wc, bs),
        forall|x: int|
            0 <= x < NUM_CODED ==> (#[trigger] wd[(bs + x) % (w0.len() as int)] == wc[(bs + x) % (
            w0.len() as int)] || wd[(bs + x) % (w0.len() as int)] is None),
        first_present_from(wd, bs, NUM_DATA as int) < NUM_CODED,
    ensures
        group_len_ref(wd, bs) == group_max_size(w0, bs, NUM_DATA as int),
        blocks_sized(
            group_data_blocks(w0, bs, group_max_size(w0, bs, NUM_DATA as int)),
            NUM_DATA as nat,
            group_max_size(w0, bs, NUM_DATA as int),
        ),
        consistent_with(
            group_shards(wd, bs, group_len_ref(wd, bs)),
            codeword_of(
                group_data_blocks(w0, bs, group_max_size(w0, bs, NUM_DATA as int)),
                MAX_MISSING as nat,
            ),
        ),
{
    let cap = w0.len() as int;
    let len = group_max_size(w0, bs, NUM_DATA as int);
    let d = group_data_blocks(w0, bs, len);
    let cw = codeword_of(d, MAX_MISSING as nat);
    let fp = first_present_from(wd, bs, NUM_DATA as int);
    lemma_first_present(wd, bs, NUM_DATA as int);
    let fy: int = fp - NUM_DATA;
    assert(0 <= fy < MAX_MISSING);
    assert(wd[(bs + fp) % cap] is Some);
    assert((bs + NUM_DATA + fy) % cap == (bs + fp) % cap);
    assert(wd[(bs + NUM_DATA + fy) % (w0.len() as int)] == wc[(bs + NUM_DATA + fy) % (
        w0.len() as int)] || wd[(bs + NUM_DATA + fy) % (w0.len() as int)] is None);
    assert(wd[(bs + fp) % cap] == wc[(bs + fp) % cap]);
    let bfp = wc[(bs + NUM_DATA + fy) % cap]->Some_0;
    assert(coded_parity(
        w0[(bs + NUM_DATA + fy) % cap]->Some_0,
        bfp,
        len,
        group_parity_block(w0, bs, len, fy),
    ));
    assert(bfp.meta.size == len + BLOB_HEADER_SIZE);
    assert(group_len_ref(wd, bs) == len);
    assert forall|x: int| 0 <= x < NUM_DATA implies (#[trigger] d[x]).len() == len by {
        assert(w0[(bs + x) % cap]->Some_0.wf());
    }
    let gp = parity_of(d, MAX_MISSING as nat);
    assert(gp.len() == MAX_MISSING);
    let gs = group_shards(wd, bs, len as int);
    assert forall|x: int| 0 <= x < gs.len() && gs[x] is Some implies (#[trigger] gs[x])->Some_0
        == cw[x] by {
        assert(wd[(bs + x) % cap] is Some);
        assert(wd[(bs + x) % cap] == wc[(bs + x) % cap]);
        if x < NUM_DATA {
            assert(wc[(bs + x) % cap] == w0[(bs + x) % cap]);
            assert(gs[x]->Some_0 == d[x]);
            assert(cw[x] == d[x]);
        } else {
            let y: int = x - NUM_DATA;
            assert((bs + NUM_DATA + y) % cap == (bs + x) % cap);
            let b0 = w0[(bs + NUM_DATA + y) % cap]->Some_0;
            let bc = wc[(bs + NUM_DATA + y) % cap]->Some_0;
            let pb = group_parity_block(w0, bs, len, y);
            assert(coded_parity(b0, bc, len, pb));
            assert(b0.wf());
            let le = spec_u64_to_le_bytes((len + BLOB_HEADER_SIZE) as u64);
            vstd::bytes::lemma_auto_spec_u64_to_from_le_bytes();
            let inner = overwrite(b0.data@, BLOB_SIZE_OFFSET as int, le).update(
                BLOB_FLAGS_OFFSET as int,
                1u8,
            );
            lemma_overwrite(b0.data@, BLOB_SIZE_OFFSET as int, le);
            lemma_overwrite(inner, BLOB_HEADER_SIZE as int, pb);
            assert(bc.data@.subrange(BLOB_HEADER_SIZE as int, BLOB_HEADER_SIZE + len) =~= pb);
            assert(gs[x]->Some_0 == pb);
            assert(cw[x] == gp[y]);
            assert(pb == gp[y]);
        }
    }
    assert(gs.len() == cw.len());
}

} // verus!
