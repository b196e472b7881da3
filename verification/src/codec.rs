//! The Reed-Solomon coding primitive, taken from the `reed_solomon_erasure`
//! crate and specified here.
//!
//! A codeword is `data_count` data shards followed by `parity_count` parity
//! shards, all byte vectors of one length. The parity shards are a pure
//! function of the data shards, named `parity_of`; reconstruction of a
//! partially erased codeword is a pure function of the surviving shards,
//! named `recover_of`. The trusted wrappers at the bottom state what the
//! crate's source shows about these two functions.

use vstd::prelude::*;

verus! {

/// The byte sequences of a row of byte vectors.
pub open spec fn views2(v: Seq<Vec<u8>>) -> Seq<Seq<u8>> {
    Seq::new(v.len(), |i: int| v[i]@)
}

/// The byte sequences of a row of optional byte vectors.
pub open spec fn shard_views(v: Seq<Option<Vec<u8>>>) -> Seq<Option<Seq<u8>>> {
    Seq::new(
        v.len(),
        |i: int|
            if v[i] is Some {
                Some(v[i]->Some_0@)
            } else {
                None::<Seq<u8>>
            },
    )
}

/// All blocks of `bs` have length `len`.
pub open spec fn uniform_blocks(bs: Seq<Seq<u8>>, len: nat) -> bool {
    forall|i: int| 0 <= i < bs.len() ==> (#[trigger] bs[i]).len() == len
}

/// The parity shards that the Reed-Solomon code assigns to `data`:
/// `parity_count` shards, each as long as a data shard.
pub uninterp spec fn parity_of(data: Seq<Seq<u8>>, parity_count: nat) -> Seq<Seq<u8>>;

/// The full shard row that reconstruction computes from the surviving
/// shards of a codeword with `data_count` data and `parity_count` parity
/// shards: position `i` of the result is what the decoder fills into (or
/// keeps at) position `i`.
pub uninterp spec fn recover_of(
    shards: Seq<Option<Seq<u8>>>,
    data_count: nat,
    parity_count: nat,
) -> Seq<Seq<u8>>;

/// The complete codeword of `data`: the data shards followed by their
/// parity shards.
pub open spec fn codeword_of(data: Seq<Seq<u8>>, parity_count: nat) -> Seq<Seq<u8>> {
    data + parity_of(data, parity_count)
}

/// `d` is `count` blocks of `len` bytes each.
pub open spec fn blocks_sized(d: Seq<Seq<u8>>, count: nat, len: nat) -> bool {
    &&& d.len() == count
    &&& forall|i: int| 0 <= i < d.len() ==> #[trigger] d[i].len() == len
}

/// How many shards of the row are present.
pub open spec fn present_count(shards: Seq<Option<Seq<u8>>>) -> nat
    decreases shards.len(),
{
    if shards.len() == 0 {
        0
    } else {
        present_count(shards.drop_last()) + (if shards.last() is Some {
            1nat
        } else {
            0nat
        })
    }
}

/// Length of the first present shard; zero if none is present.
pub open spec fn shards_len(shards: Seq<Option<Seq<u8>>>) -> nat
    decreases shards.len(),
{
    if shards.len() == 0 {
        0
    } else if shards[0] is Some {
        shards[0]->Some_0.len()
    } else {
        shards_len(shards.drop_first())
    }
}

/// Every present shard has length `len`.
pub open spec fn shards_uniform(shards: Seq<Option<Seq<u8>>>, len: nat) -> bool {
    forall|i: int|
        0 <= i < shards.len() && shards[i] is Some ==> (#[trigger] shards[i])->Some_0.len() == len
}

/// The present shards agree with the row `w`.
pub open spec fn consistent_with(shards: Seq<Option<Seq<u8>>>, w: Seq<Seq<u8>>) -> bool {
    &&& shards.len() == w.len()
    &&& forall|i: int|
        0 <= i < shards.len() && shards[i] is Some ==> (#[trigger] shards[i])->Some_0 == w[i]
}

/// The row with every `Some` unwrapped (meaningful when all are present).
pub open spec fn unwrap_shards(shards: Seq<Option<Seq<u8>>>) -> Seq<Seq<u8>> {
    Seq::new(shards.len(), |i: int| shards[i]->Some_0)
}

/// `present_count` seen from the front of the row.
pub proof fn lemma_present_count_drop_first(s: Seq<Option<Seq<u8>>>)
    requires
        s.len() > 0,
    ensures
        present_count(s) == present_count(s.drop_first()) + (if s[0] is Some {
            1nat
        } else {
            0nat
        }),
    decreases s.len(),
{
    if s.len() == 1 {
        assert(s.drop_last() =~= Seq::<Option<Seq<u8>>>::empty());
        assert(s.drop_first() =~= Seq::<Option<Seq<u8>>>::empty());
    } else {
        let s2 = s.drop_last();
        lemma_present_count_drop_first(s2);
        assert(s.drop_first().drop_last() =~= s2.drop_first());
        assert(s.drop_first().last() == s.last());
        assert(s2[0] == s[0]);
    }
}

/// In a uniform row with a present shard, `shards_len` is that length.
pub proof fn lemma_shards_len_uniform(s: Seq<Option<Seq<u8>>>, len: nat)
    requires
        present_count(s) > 0,
        shards_uniform(s, len),
    ensures
        shards_len(s) == len,
    decreases s.len(),
{
    if s.len() == 0 {
        assert(false);
    } else if s[0] is Some {
    } else {
        lemma_present_count_drop_first(s);
        assert forall|i: int|
            0 <= i < s.drop_first().len() && s.drop_first()[i] is Some implies (#[trigger] s.drop_first()[i])->Some_0.len() == len by {
            assert(s.drop_first()[i] == s[i + 1]);
            assert(s[i + 1]->Some_0.len() == len);
        }
        lemma_shards_len_uniform(s.drop_first(), len);
    }
}

/// Relies on `reed_solomon_erasure::galois_8::ReedSolomon`: `new` accepts
/// these shard counts, and `encode_sep` fills the parity shards as a pure
/// function of the data shards, leaving every shard's length unchanged.
#[verifier::external_body]
pub(crate) fn rs_encode_sep(data: &Vec<Vec<u8>>, parity: &mut Vec<Vec<u8>>)
    requires
        1 <= data@.len(),
        1 <= old(parity)@.len(),
        data@.len() + old(parity)@.len() <= 256,
        1 <= data@[0]@.len(),
        uniform_blocks(views2(data@), data@[0]@.len() as nat),
        uniform_blocks(views2(old(parity)@), data@[0]@.len() as nat),
    ensures
        final(parity)@.len() == old(parity)@.len(),
        views2(final(parity)@) == parity_of(views2(data@), old(parity)@.len() as nat),
        uniform_blocks(views2(final(parity)@), data@[0]@.len() as nat),
{
    let rs = reed_solomon_erasure::galois_8::ReedSolomon::new(data.len(), parity.len()).unwrap();
    rs.encode_sep(data.as_slice(), parity.as_mut_slice()).unwrap();
}

/// Relies on `reed_solomon_erasure::galois_8::ReedSolomon`: `reconstruct`
/// fills the missing shards of a row, succeeding exactly when at least
/// `data_count` shards are present, touching nothing otherwise, keeping
/// the present shards, and computing the filled row as a pure function of
/// the surviving shards. When the present shards agree with a codeword —
/// the crate's documented use — the filled row is that codeword.
#[verifier::external_body]
pub(crate) fn rs_reconstruct(
    shards: &mut Vec<Option<Vec<u8>>>,
    data_count: usize,
    parity_count: usize,
) -> (ok: bool)
    requires
        1 <= data_count,
        1 <= parity_count,
        data_count + parity_count <= 256,
        old(shards)@.len() == data_count + parity_count,
        shards_uniform(shard_views(old(shards)@), shards_len(shard_views(old(shards)@))),
        present_count(shard_views(old(shards)@)) > 0 ==> shards_len(shard_views(old(shards)@))
            >= 1,
    ensures
        final(shards)@.len() == old(shards)@.len(),
        ok <==> present_count(shard_views(old(shards)@)) >= data_count,
        !ok ==> shard_views(final(shards)@) == shard_views(old(shards)@),
        ok ==> forall|i: int|
            0 <= i < final(shards)@.len() ==> (#[trigger] shard_views(final(shards)@)[i]) is Some,
        ok ==> forall|i: int|
            0 <= i < old(shards)@.len() && shard_views(old(shards)@)[i] is Some
                ==> #[trigger] shard_views(final(shards)@)[i] == shard_views(old(shards)@)[i],
        ok ==> shards_uniform(shard_views(final(shards)@), shards_len(shard_views(old(shards)@))),
        ok ==> unwrap_shards(shard_views(final(shards)@)) == recover_of(
            shard_views(old(shards)@),
            data_count as nat,
            parity_count as nat,
        ),
        ok ==> forall|d: Seq<Seq<u8>>|
            blocks_sized(d, data_count as nat, shards_len(shard_views(old(shards)@)))
                && #[trigger] consistent_with(
                shard_views(old(shards)@),
                codeword_of(d, parity_count as nat),
            ) ==> recover_of(shard_views(old(shards)@), data_count as nat, parity_count as nat)
                == codeword_of(d, parity_count as nat),
{
    let rs = reed_solomon_erasure::galois_8::ReedSolomon::new(data_count, parity_count).unwrap();
    rs.reconstruct(shards.as_mut_slice()).is_ok()
}

} // verus!
