use erasure::erasure::{
    add_coding_blobs, decode_blocks, generate_coding, generate_coding_blocks, recover,
    ErasureError, MAX_MISSING, NUM_CODED, NUM_DATA,
};
use erasure::packet::{Blob, BlobRecycler, BLOB_HEADER_SIZE};

fn make_window(
    data_len: usize,
    recycler: &BlobRecycler,
    offset: usize,
    num_blobs: usize,
    capacity: usize,
) -> (Vec<Option<Blob>>, usize) {
    let mut window: Vec<Option<Blob>> = Vec::new();
    for _ in 0..capacity {
        window.push(None);
    }
    let mut blobs: Vec<Blob> = Vec::new();
    for i in 0..num_blobs {
        let mut b = recycler.allocate();
        b.set_size(data_len);
        for k in 0..data_len {
            b.data[BLOB_HEADER_SIZE + k] = (k + i) as u8;
        }
        blobs.push(b);
    }
    add_coding_blobs(recycler, &mut blobs, offset as u64);
    let blobs_len = blobs.len();
    for (i, mut b) in blobs.into_iter().enumerate() {
        let idx = offset + i;
        b.set_index(idx as u64);
        window[idx] = Some(b);
    }
    (window, blobs_len)
}

#[test]
pub fn test_coding() {
    let zero_vec = vec![0; 16];
    let mut vs: Vec<Vec<u8>> = (0..4).map(|i| (i..(16 + i)).collect()).collect();
    let v_orig: Vec<u8> = vs[0].clone();

    let m = 2;
    let mut coding_blocks: Vec<Vec<u8>> = (0..m).map(|_| vec![0u8; 16]).collect();

    assert!(generate_coding_blocks(&mut coding_blocks, &vs).is_ok());

    let erasure: i32 = 1;
    let erasures = vec![erasure, -1];
    // clear an entry
    vs[erasure as usize].copy_from_slice(zero_vec.as_slice());

    assert!(decode_blocks(&mut vs, &mut coding_blocks, &erasures).is_ok());

    assert_eq!(v_orig, vs[0]);
}

#[test]
fn test_coding_restores_erased_block() {
    let mut vs: Vec<Vec<u8>> = (0..4u8).map(|i| (i..(16 + i)).collect()).collect();
    let expected: Vec<u8> = vs[1].clone();
    let mut coding: Vec<Vec<u8>> = (0..2).map(|_| vec![0u8; 16]).collect();
    assert!(generate_coding_blocks(&mut coding, &vs).is_ok());
    for b in vs[1].iter_mut() {
        *b = 0;
    }
    assert!(decode_blocks(&mut vs, &mut coding, &vec![1, -1]).is_ok());
    assert_eq!(vs[1], expected);
    assert_eq!(vs[1], (1u8..17).collect::<Vec<u8>>());
}

#[test]
fn test_coding_rejects_uneven_blocks() {
    let data: Vec<Vec<u8>> = vec![vec![1u8; 16], vec![2u8; 15]];
    let mut coding: Vec<Vec<u8>> = vec![vec![0u8; 16]];
    assert_eq!(
        generate_coding_blocks(&mut coding, &data),
        Err(ErasureError::InvalidBlockSize)
    );
    let mut data2: Vec<Vec<u8>> = vec![vec![1u8; 16], vec![2u8; 16]];
    let mut coding2: Vec<Vec<u8>> = vec![vec![0u8; 8]];
    assert_eq!(
        decode_blocks(&mut data2, &mut coding2, &vec![0, -1]),
        Err(ErasureError::InvalidBlockSize)
    );
}

#[test]
fn test_decode_rejects_too_many_erasures() {
    let mut data: Vec<Vec<u8>> = (0..4u8).map(|i| vec![i; 16]).collect();
    let mut coding: Vec<Vec<u8>> = (0..2).map(|_| vec![0u8; 16]).collect();
    assert!(generate_coding_blocks(&mut coding, &data).is_ok());
    // three erasures, two parity blocks
    assert_eq!(
        decode_blocks(&mut data, &mut coding, &vec![0, 1, 2, -1]),
        Err(ErasureError::DecodeError)
    );
}

#[test]
fn test_encode_idempotent() {
    let data: Vec<Vec<u8>> = (0..4u8).map(|i| (i..(16 + i)).collect()).collect();
    let mut coding1: Vec<Vec<u8>> = (0..2).map(|_| vec![0u8; 16]).collect();
    let mut coding2: Vec<Vec<u8>> = (0..2).map(|_| vec![7u8; 16]).collect();
    assert!(generate_coding_blocks(&mut coding1, &data).is_ok());
    assert!(generate_coding_blocks(&mut coding2, &data).is_ok());
    assert_eq!(coding1, coding2);
    assert!(generate_coding_blocks(&mut coding2, &data).is_ok());
    assert_eq!(coding1, coding2);
}

#[test]
fn test_add_coding_blobs_positions() {
    let recycler = BlobRecycler::default();
    let mut blobs: Vec<Blob> = Vec::new();
    for i in 0..18usize {
        let mut b = recycler.allocate();
        b.set_size(16);
        b.data[BLOB_HEADER_SIZE] = i as u8;
        blobs.push(b);
    }
    add_coding_blobs(&recycler, &mut blobs, 0);
    assert_eq!(blobs.len(), 22);
    for (p, b) in blobs.iter().enumerate() {
        if p >= NUM_DATA && p < NUM_CODED {
            // a parity placeholder: marked parity, no payload
            assert_eq!(b.data[16], 1);
            assert_eq!(b.meta.size, BLOB_HEADER_SIZE);
        } else {
            assert_eq!(b.data[16], 0);
            let q = if p < NUM_DATA { p } else { p - MAX_MISSING };
            assert_eq!(b.data[BLOB_HEADER_SIZE], q as u8);
        }
    }
}

#[test]
pub fn test_window_recover_basic() {
    let data_len = 16;
    let blob_recycler = BlobRecycler::default();

    // Generate a window
    let offset = 1;
    let num_blobs = NUM_DATA + 2;
    let (mut window, blobs_len) = make_window(data_len, &blob_recycler, 0, num_blobs, 32);

    // Generate the coding blocks
    assert!(generate_coding(&mut window, offset, blobs_len).is_ok());

    let erase_offset = offset;
    // Create a hole in the window
    let refwindow = window[erase_offset].clone();
    window[erase_offset] = None;

    // Recover it from coding
    assert!(recover(&blob_recycler, &mut window, offset, offset + blobs_len).is_ok());

    // Check the result
    let window_l2 = window[erase_offset].as_ref().unwrap();
    let ref_l2 = refwindow.as_ref().unwrap();
    assert_eq!(
        window_l2.data[..(data_len + BLOB_HEADER_SIZE)],
        ref_l2.data[..(data_len + BLOB_HEADER_SIZE)]
    );
    assert_eq!(window_l2.meta.size, ref_l2.meta.size);
    assert_eq!(window_l2.meta.addr, ref_l2.meta.addr);
    assert_eq!(window_l2.meta.port, ref_l2.meta.port);
    assert_eq!(window_l2.meta.v6, ref_l2.meta.v6);
    assert_eq!(window_l2.get_index(), erase_offset as u64);
}

#[test]
fn test_window_unrecoverable_group() {
    let blob_recycler = BlobRecycler::default();
    let (mut window, blobs_len) = make_window(16, &blob_recycler, 0, NUM_DATA + 2, 32);
    assert!(generate_coding(&mut window, 1, blobs_len).is_ok());
    // five holes in one group: more than the parity can absorb
    for idx in 2..7 {
        window[idx] = None;
    }
    assert!(recover(&blob_recycler, &mut window, 1, 1 + blobs_len).is_ok());
    for idx in 2..7 {
        assert!(window[idx].is_none());
    }
}

#[test]
fn test_window_two_parity_holes() {
    let blob_recycler = BlobRecycler::default();
    let (mut window, blobs_len) = make_window(16, &blob_recycler, 0, NUM_DATA + 2, 32);
    assert!(generate_coding(&mut window, 1, blobs_len).is_ok());
    let ref1 = window[1].clone().unwrap();
    let ref16 = window[16].clone().unwrap();
    let ref17 = window[17].clone().unwrap();
    // recovery runs only for groups with a data hole, so punch one too
    window[1] = None;
    window[16] = None;
    window[17] = None;
    assert!(recover(&blob_recycler, &mut window, 1, 1 + blobs_len).is_ok());
    let b1 = window[1].as_ref().unwrap();
    assert_eq!(b1.data[..ref1.meta.size], ref1.data[..ref1.meta.size]);
    let block_len = ref16.meta.size - BLOB_HEADER_SIZE;
    // both parity payloads are back, byte for byte
    let b16 = window[16].as_ref().unwrap();
    let b17 = window[17].as_ref().unwrap();
    assert_eq!(
        b16.data[BLOB_HEADER_SIZE..BLOB_HEADER_SIZE + block_len],
        ref16.data[BLOB_HEADER_SIZE..BLOB_HEADER_SIZE + block_len]
    );
    assert_eq!(
        b17.data[BLOB_HEADER_SIZE..BLOB_HEADER_SIZE + block_len],
        ref17.data[BLOB_HEADER_SIZE..BLOB_HEADER_SIZE + block_len]
    );
    assert_eq!(b16.get_index(), 16);
    assert_eq!(b16.data[16], 1);

    // a further decode of the group with one extra data erasure succeeds
    let mut data: Vec<Vec<u8>> = (0..NUM_DATA)
        .map(|x| window[x].as_ref().unwrap().data[..block_len].to_vec())
        .collect();
    let mut coding: Vec<Vec<u8>> = (NUM_DATA..NUM_CODED)
        .map(|x| {
            window[x].as_ref().unwrap().data[BLOB_HEADER_SIZE..BLOB_HEADER_SIZE + block_len]
                .to_vec()
        })
        .collect();
    let expected = data[3].clone();
    for b in data[3].iter_mut() {
        *b = 0;
    }
    assert!(decode_blocks(&mut data, &mut coding, &vec![3, -1]).is_ok());
    assert_eq!(data[3], expected);
}

#[test]
fn test_window_mixed_loss_at_limit() {
    let blob_recycler = BlobRecycler::default();
    let (mut window, blobs_len) = make_window(16, &blob_recycler, 0, NUM_DATA + 2, 32);
    assert!(generate_coding(&mut window, 1, blobs_len).is_ok());
    let refs: Vec<Blob> = vec![
        window[2].clone().unwrap(),
        window[3].clone().unwrap(),
        window[4].clone().unwrap(),
        window[16].clone().unwrap(),
    ];
    window[2] = None;
    window[3] = None;
    window[4] = None;
    window[16] = None;
    assert!(recover(&blob_recycler, &mut window, 1, 1 + blobs_len).is_ok());
    for (r, idx) in refs.iter().zip([2usize, 3, 4, 16]) {
        let b = window[idx].as_ref().unwrap();
        let block_len = r.meta.size;
        if idx < NUM_DATA {
            assert_eq!(b.data[..block_len], r.data[..block_len]);
            assert_eq!(b.meta.size, r.meta.size);
        } else {
            let len = r.meta.size - BLOB_HEADER_SIZE;
            assert_eq!(
                b.data[BLOB_HEADER_SIZE..BLOB_HEADER_SIZE + len],
                r.data[BLOB_HEADER_SIZE..BLOB_HEADER_SIZE + len]
            );
        }
        assert_eq!(b.get_index(), idx as u64);
    }
}

#[test]
fn test_window_cross_group_independence() {
    let blob_recycler = BlobRecycler::default();
    // two full groups: 37 data blobs pick up parity at both group tails
    let (mut window, blobs_len) = make_window(16, &blob_recycler, 0, 37, 64);
    assert_eq!(blobs_len, 45);
    assert!(generate_coding(&mut window, 1, blobs_len).is_ok());
    let ref1 = window[1].clone().unwrap();
    let group1: Vec<Blob> = (20..40).map(|i| window[i].clone().unwrap()).collect();
    window[1] = None;
    window[2] = None;
    assert!(recover(&blob_recycler, &mut window, 1, 1 + blobs_len).is_ok());
    // group 0 is healed
    let b1 = window[1].as_ref().unwrap();
    assert_eq!(b1.data[..ref1.meta.size], ref1.data[..ref1.meta.size]);
    // group 1 bytes are exactly as before
    for (i, r) in group1.iter().enumerate() {
        let b = window[20 + i].as_ref().unwrap();
        assert_eq!(b.data, r.data);
        assert_eq!(b.meta.size, r.meta.size);
    }
}

#[test]
fn test_recover_noop_when_less_than_group() {
    let blob_recycler = BlobRecycler::default();
    let (mut window, _blobs_len) = make_window(16, &blob_recycler, 0, NUM_DATA + 2, 32);
    let before: Vec<Option<Blob>> = window.clone();
    // fewer than NUM_CODED records between frontier and receive mark
    assert!(recover(&blob_recycler, &mut window, 1, 1 + NUM_CODED - 1).is_ok());
    for (b, r) in window.iter().zip(before.iter()) {
        match (b, r) {
            (Some(x), Some(y)) => {
                assert_eq!(x.data, y.data);
                assert_eq!(x.meta.size, y.meta.size);
            }
            (None, None) => {}
            _ => panic!("slot changed"),
        }
    }
}

#[test]
fn test_generate_coding_noop_on_incomplete_group() {
    let blob_recycler = BlobRecycler::default();
    let (mut window, _) = make_window(16, &blob_recycler, 0, NUM_DATA + 2, 32);
    // hole in the group's data: encoding aborts without touching parity
    window[5] = None;
    let p16 = window[16].clone().unwrap();
    assert!(generate_coding(&mut window, 1, 22).is_ok());
    let b16 = window[16].as_ref().unwrap();
    assert_eq!(b16.data, p16.data);
    assert_eq!(b16.meta.size, p16.meta.size);
}

#[test]
fn test_recover_only_complete_groups() {
    let blob_recycler = BlobRecycler::default();
    let (mut window, blobs_len) = make_window(16, &blob_recycler, 0, 36, 64);
    assert!(generate_coding(&mut window, 1, blobs_len).is_ok());
    window[1] = None;
    window[21] = None;
    // receive mark one short of covering group 1: only group 0 is walked
    assert!(recover(&blob_recycler, &mut window, 0, 39).is_ok());
    assert!(window[1].is_some());
    assert!(window[21].is_none());
}

#[test]
fn test_window_invariants_after_recover() {
    let blob_recycler = BlobRecycler::default();
    let (mut window, blobs_len) = make_window(16, &blob_recycler, 0, NUM_DATA + 2, 32);
    assert!(generate_coding(&mut window, 1, blobs_len).is_ok());
    window[3] = None;
    window[17] = None;
    assert!(recover(&blob_recycler, &mut window, 1, 1 + blobs_len).is_ok());
    for idx in 0..NUM_CODED {
        let b = window[idx].as_ref().unwrap();
        assert_eq!(b.get_index(), idx as u64);
        let is_parity = idx % NUM_CODED >= NUM_DATA;
        assert_eq!(b.data[16] != 0, is_parity);
    }
}

#[test]
fn test_error_kinds_are_distinct() {
    let kinds = [
        ErasureError::NotEnoughBlocksToDecode,
        ErasureError::DecodeError,
        ErasureError::EncodeError,
        ErasureError::InvalidBlockSize,
    ];
    for (i, a) in kinds.iter().enumerate() {
        for (j, b) in kinds.iter().enumerate() {
            assert_eq!(a == b, i == j);
        }
    }
}

#[test]
fn test_generate_coding_oversized_group() {
    let blob_recycler = BlobRecycler::default();
    // payloads this large leave no room to store a parity block
    let (mut window, blobs_len) = make_window(961, &blob_recycler, 0, NUM_DATA + 2, 32);
    assert_eq!(
        generate_coding(&mut window, 1, blobs_len),
        Err(ErasureError::InvalidBlockSize)
    );
}

#[test]
fn test_recover_skips_unencoded_group() {
    let blob_recycler = BlobRecycler::default();
    let (mut window, blobs_len) = make_window(16, &blob_recycler, 0, NUM_DATA + 2, 32);
    // no generate_coding: the parity placeholders record no payload
    window[1] = None;
    assert!(recover(&blob_recycler, &mut window, 1, 1 + blobs_len).is_ok());
    assert!(window[1].is_none());
}
