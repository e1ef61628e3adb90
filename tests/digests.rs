use bytepoly::{batcher, digest_elems, into_padded_u32s, BatchError, KeccakBatcher, PolyError};

const P: u128 = 2013265921;

fn lanes(first: &[u32]) -> Vec<u32> {
    let mut v = first.to_vec();
    v.resize(16, 0);
    v
}

#[test]
fn into_padded_u32s_packs_little_endian() {
    // A group holds 16 coefficients, so four coefficients pad to four words.
    assert_eq!(into_padded_u32s(&[1, 2, 3, 4]), Ok(vec![0x04030201, 0, 0, 0]));
    assert_eq!(into_padded_u32s(&[]), Ok(vec![]));
    let full: Vec<i32> = (0..16).collect();
    assert_eq!(
        into_padded_u32s(&full),
        Ok(vec![0x03020100, 0x07060504, 0x0b0a0908, 0x0f0e0d0c])
    );
    let mut long: Vec<i32> = vec![255; 17];
    long[16] = 9;
    let words = into_padded_u32s(&long).unwrap();
    assert_eq!(words.len(), 8);
    assert_eq!(words[3], 0xffff_ffff);
    assert_eq!(words[4], 9);
}

#[test]
fn into_padded_u32s_refuses_unnormalized() {
    assert_eq!(into_padded_u32s(&[1, 256]), Err(PolyError::InvalidCoefficient));
    assert_eq!(into_padded_u32s(&[-1]), Err(PolyError::InvalidCoefficient));
}

#[test]
fn digest_elems_one_group() {
    let w = vec![vec![1, 2, 3]];
    assert_eq!(digest_elems(&w, 1), lanes(&[1, 2, 3]));
    // A partial set of groups is emitted at the end.
    assert_eq!(digest_elems(&w, 2), lanes(&[1, 2, 3]));
    assert_eq!(digest_elems(&vec![], 1), Vec::<u32>::new());
}

#[test]
fn digest_elems_horner_across_groups() {
    let w = vec![vec![1], vec![2]];
    assert_eq!(digest_elems(&w, 2), lanes(&[258]));
    assert_eq!(digest_elems(&w, 0), lanes(&[258]));
    let mut two = lanes(&[1]);
    two.extend(lanes(&[2]));
    assert_eq!(digest_elems(&w, 1), two);
    let long: Vec<i32> = (1..=17).collect();
    let out = digest_elems(&vec![long], 1);
    assert_eq!(out.len(), 32);
    assert_eq!(out[15], 16);
    assert_eq!(out[16], 17);
    assert_eq!(out[17], 0);
}

#[test]
fn digest_elems_reduce_in_the_field() {
    let w = vec![vec![-1]];
    let expect = (((1u128 << 64) - 1) % P) as u32;
    assert_eq!(digest_elems(&w, 1), lanes(&[expect]));
    let w: Vec<Vec<i32>> = (0..5).map(|_| vec![255]).collect();
    let mut lane: u128 = 0;
    for _ in 0..5 {
        lane = (lane * 256 + 255) % P;
    }
    assert_eq!(digest_elems(&w, 0), lanes(&[lane as u32]));
}

#[test]
fn digest_elems_deterministic_and_sensitive() {
    let w = vec![vec![5, 6, 7], vec![8; 20]];
    assert_eq!(digest_elems(&w, 2), digest_elems(&w.clone(), 2));
    for i in 0..20 {
        let mut changed = w.clone();
        changed[1][i] += 1;
        assert_ne!(digest_elems(&changed, 2), digest_elems(&w, 2));
    }
}

#[test]
fn batcher_starts_empty() {
    let b = batcher();
    assert_eq!(b.transcript(), vec![0u8; 8]);
    assert_eq!(b.current_data_length(), 0);
    let d = KeccakBatcher::default();
    assert_eq!(d.transcript(), vec![0u8; 8]);
}

#[test]
fn batcher_lays_out_one_hash() {
    let mut b = batcher();
    assert_eq!(b.write_data(b"abc"), Ok(()));
    assert_eq!(b.current_data_length(), 3);
    assert_eq!(b.write_hash(&[7u8; 32]), Err(BatchError::NotPadded));
    assert_eq!(b.write_padding(), Ok(()));
    assert_eq!(b.current_data_length(), 136);
    assert_eq!(b.write_hash(&[7u8; 32]), Ok(()));
    assert_eq!(b.current_data_length(), 0);
    let t = b.transcript();
    assert_eq!(t.len(), 8 + 136 + 32 + 8);
    assert_eq!(t[0], 1);
    assert_eq!(&t[1..8], &[0u8; 7]);
    assert_eq!(&t[8..11], b"abc");
    assert_eq!(t[11], 0x01);
    assert!(t[12..143].iter().all(|x| *x == 0));
    assert_eq!(t[143], 0x80);
    assert_eq!(&t[144..176], &[7u8; 32]);
    assert_eq!(&t[176..184], &[0u8; 8]);
}

#[test]
fn padding_at_block_end_adds_a_block() {
    let mut b = batcher();
    assert_eq!(b.write_data(&[9u8; 135]), Ok(()));
    assert_eq!(b.write_padding(), Ok(()));
    assert_eq!(b.current_data_length(), 272);
    let mut c = batcher();
    assert_eq!(c.write_data(&[9u8; 134]), Ok(()));
    assert_eq!(c.write_padding(), Ok(()));
    assert_eq!(c.current_data_length(), 136);
}

#[test]
fn batcher_refuses_past_limit() {
    let mut b = batcher();
    assert_eq!(b.write_data(&vec![1u8; 9993]), Err(BatchError::LimitExceeded));
    assert_eq!(b.current_data_length(), 0);
    assert_eq!(b.write_data(&vec![1u8; 9992]), Ok(()));
    assert_eq!(b.write_padding(), Err(BatchError::LimitExceeded));
    assert_eq!(b.finalize(), Err(BatchError::LimitExceeded));
}

#[test]
fn finalize_hashes_the_transcript() {
    let mut a = batcher();
    let mut b = batcher();
    let da = a.finalize().unwrap();
    let db = b.finalize().unwrap();
    assert_eq!(da.len(), 32);
    assert_eq!(da, db);
    assert_ne!(da, vec![0u8; 32]);
    let mut c = batcher();
    c.write_data(b"x").unwrap();
    c.write_padding().unwrap();
    c.write_hash(&[1u8; 32]).unwrap();
    let dc = c.finalize().unwrap();
    assert_ne!(dc, da);
}
