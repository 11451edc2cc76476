use erasure_isa_l::ec::init_tables;
use erasure_isa_l::erasure::{make_table_from_matrix, ErasureCode, Error};
use erasure_isa_l::gf::{gen_cauchy1_matrix, gen_rs_matrix, inv, mul};

const LEN: usize = 256;

fn pattern_blocks(n: usize, len: usize, seed: u32) -> Vec<Vec<u8>> {
    let mut x: u32 = seed.wrapping_mul(2654435761).wrapping_add(12345);
    (0..n)
        .map(|_| {
            (0..len)
                .map(|_| {
                    x = x.wrapping_mul(1103515245).wrapping_add(12345);
                    (x >> 16) as u8
                })
                .collect()
        })
        .collect()
}

fn stripe_of(ec: &ErasureCode, seed: u32) -> (Vec<Vec<u8>>, Vec<Vec<u8>>) {
    let data = pattern_blocks(ec.source_num(), LEN, seed);
    let mut parity = vec![vec![0u8; LEN]; ec.code_num()];
    ec.encode(&data, &mut parity).unwrap();
    (data, parity)
}

fn erase(data: &mut [Vec<u8>], parity: &mut [Vec<u8>], erasures: &[usize]) {
    let k = data.len();
    for &e in erasures {
        if e < k {
            data[e] = vec![0xEE; data[e].len()];
        } else if e - k < parity.len() {
            parity[e - k] = vec![0xEE; parity[e - k].len()];
        }
    }
}

#[test]
fn field_products_and_inverses() {
    assert_eq!(mul(2, 0x80), 0x1d);
    assert_eq!(mul(0x53, 0xCA), mul(0xCA, 0x53));
    assert_eq!(mul(0, 0x35), 0);
    assert_eq!(mul(1, 0x35), 0x35);
    assert_eq!(inv(2), 0x8e);
    assert_eq!(inv(0), 0);
    for a in 1..=255u8 {
        assert_eq!(mul(a, inv(a)), 1);
    }
}

#[test]
fn generated_matrices() {
    let c = gen_cauchy1_matrix(6, 4);
    assert_eq!(c[0], vec![1, 0, 0, 0]);
    assert_eq!(c[3], vec![0, 0, 0, 1]);
    assert_eq!(c[4], vec![0x47, 0xA7, 0x7A, 0xBA]);
    assert_eq!(c[5], vec![0xA7, 0x47, 0xBA, 0x7A]);
    let r = gen_rs_matrix(6, 4);
    assert_eq!(r[1], vec![0, 1, 0, 0]);
    assert_eq!(r[4], vec![1, 1, 1, 1]);
    assert_eq!(r[5], vec![1, 2, 4, 8]);
}

#[test]
fn coefficient_tables() {
    let t = init_tables(&[2, 3]);
    assert_eq!(t.len(), 64);
    assert_eq!(&t[0..4], &[0, 2, 4, 6]);
    assert_eq!(t[16 + 8], mul(2, 0x80));
    assert_eq!(t[32 + 1], 3);
    assert_eq!(t[32 + 16 + 1], mul(3, 0x10));
    let from_matrix = make_table_from_matrix(&[2, 3], 2, 1).unwrap();
    assert_eq!(from_matrix, t);
    assert!(matches!(
        make_table_from_matrix(&[2, 3, 4], 2, 1),
        Err(Error::InvalidArguments(..))
    ));
}

#[test]
fn zero_counts_are_refused() {
    assert!(matches!(ErasureCode::with_cauchy(0, 2), Err(Error::InvalidArguments(..))));
    assert!(matches!(ErasureCode::with_reed_solomon(4, 0), Err(Error::InvalidArguments(..))));
    let ec = ErasureCode::with_cauchy(3, 2).unwrap();
    assert_eq!((ec.source_num(), ec.code_num(), ec.block_num()), (3, 2, 5));
}

#[test]
fn encode_writes_matrix_combination() {
    let ec = ErasureCode::with_cauchy(4, 2).unwrap();
    let data: Vec<Vec<u8>> = vec![vec![1; 32], vec![0; 32], vec![0; 32], vec![0; 32]];
    let mut parity = vec![vec![9u8; 32]; 2];
    ec.encode(&data, &mut parity).unwrap();
    assert_eq!(parity, vec![vec![0x47; 32], vec![0xA7; 32]]);
    let owned = ec.encode_to_owned(&data).unwrap();
    assert_eq!(owned, parity);
    let empty: Vec<Vec<u8>> = vec![vec![]; 4];
    assert!(matches!(ec.encode(&empty, &mut vec![vec![]; 2]), Err(Error::InvalidArguments(..))));
}

#[test]
fn round_trip_every_single_erasure() {
    for ec in [ErasureCode::with_cauchy(5, 3).unwrap(), ErasureCode::with_reed_solomon(5, 3).unwrap()] {
        let (data, parity) = stripe_of(&ec, 7);
        let mut d = data.clone();
        let mut p = parity.clone();
        ec.decode(&mut d, &mut p, vec![]).unwrap();
        assert_eq!((&d, &p), (&data, &parity));
        for e in 0..ec.block_num() {
            let mut d = data.clone();
            let mut p = parity.clone();
            erase(&mut d, &mut p, &[e]);
            ec.decode(&mut d, &mut p, vec![e]).unwrap();
            assert_eq!(d, data);
            assert_eq!(p, parity);
        }
    }
}

#[test]
fn table_reuse_matches_decode() {
    let ec = ErasureCode::with_cauchy(4, 3).unwrap();
    let (data, parity) = stripe_of(&ec, 11);
    for erasures in [vec![1, 5], vec![6, 0, 2], vec![3]] {
        let mut d1 = data.clone();
        let mut p1 = parity.clone();
        erase(&mut d1, &mut p1, &erasures);
        let mut d2 = d1.clone();
        let mut p2 = p1.clone();
        ec.decode(&mut d1, &mut p1, erasures.clone()).unwrap();
        let table = ec.make_decode_table(erasures.clone()).unwrap();
        ec.decode_with_table(&mut d2, &mut p2, &table, erasures.clone()).unwrap();
        assert_eq!(d1, d2);
        assert_eq!(p1, p2);
        assert_eq!(d1, data);
    }
}

#[test]
fn erasure_lists_are_normalized() {
    let ec = ErasureCode::with_reed_solomon(4, 2).unwrap();
    let (data, parity) = stripe_of(&ec, 3);
    let mut d1 = data.clone();
    let mut p1 = parity.clone();
    erase(&mut d1, &mut p1, &[2, 5]);
    let mut d2 = d1.clone();
    let mut p2 = p1.clone();
    ec.decode(&mut d1, &mut p1, vec![2, 5]).unwrap();
    ec.decode(&mut d2, &mut p2, vec![5, 2, 5]).unwrap();
    assert_eq!(d1, d2);
    assert_eq!(p1, p2);
    assert_eq!(d1, data);
    assert_eq!(p1, parity);
}

#[test]
fn boundary_conditions() {
    let ec = ErasureCode::with_cauchy(4, 2).unwrap();
    let (data, parity) = stripe_of(&ec, 5);
    let mut d = data.clone();
    let mut p = parity.clone();
    // Repeats count once: two distinct blocks fit two parity blocks.
    assert!(ec.decode(&mut d, &mut p, vec![1, 1, 4, 4, 1]).is_ok());
    let res = ec.decode(&mut d, &mut p, vec![0, 1, 2]);
    assert!(matches!(res, Err(Error::TooManyErasures(3, 2))));
    // Too many wins over an index out of range.
    let res = ec.decode(&mut d, &mut p, vec![7, 8, 9]);
    assert!(matches!(res, Err(Error::TooManyErasures(3, 2))));
    let res = ec.decode(&mut d, &mut p, vec![6]);
    assert!(matches!(res, Err(Error::InvalidArguments(..))));
    let mut short = d.clone();
    short[3].pop();
    let res = ec.decode(&mut short, &mut p, vec![0]);
    assert!(matches!(res, Err(Error::InvalidArguments(..))));
    let mut short_parity = p.clone();
    short_parity[1].pop();
    let res = ec.decode(&mut d, &mut short_parity, vec![0]);
    assert!(matches!(res, Err(Error::InvalidArguments(..))));
    assert_eq!(d, data);
    // A failing call leaves the buffers alone.
    let mut d3 = data.clone();
    erase(&mut d3, &mut p, &[0]);
    let before = d3.clone();
    let _ = ec.decode(&mut d3, &mut p, vec![0, 1, 2]);
    assert_eq!(d3, before);
}

#[test]
fn update_matches_reencoding() {
    let ec = ErasureCode::with_cauchy(4, 2).unwrap();
    let (mut data, mut parity) = stripe_of(&ec, 19);
    let range = LEN / 4..LEN / 2;
    let delta: Vec<u8> = (0..range.len()).map(|i| (i as u8).wrapping_mul(37) ^ 0xCC).collect();
    let mut slices: Vec<Vec<u8>> = parity.iter().map(|p| p[range.clone()].to_vec()).collect();
    ec.update(0, &delta, &mut slices).unwrap();
    for (p, s) in parity.iter_mut().zip(slices.iter()) {
        p[range.clone()].copy_from_slice(s);
    }
    for (x, d) in data[0][range.clone()].iter_mut().zip(delta.iter()) {
        *x ^= *d;
    }
    let mut expected = vec![vec![0u8; LEN]; 2];
    ec.encode(&data, &mut expected).unwrap();
    assert_eq!(parity, expected);
}

#[test]
fn update_rejects_bad_arguments() {
    let ec = ErasureCode::with_cauchy(4, 2).unwrap();
    let mut code = vec![vec![0u8; 8]; 2];
    assert!(matches!(ec.update(4, &[1; 8], &mut code), Err(Error::InvalidArguments(..))));
    assert!(matches!(ec.update(0, &[1; 7], &mut code), Err(Error::InvalidArguments(..))));
    assert!(matches!(ec.update(0, &[1; 8], &mut code[0..1]), Err(Error::InvalidArguments(..))));
    ec.update(1, &[1; 8], &mut code).unwrap();
    assert_eq!(code, vec![vec![0xA7; 8], vec![0x47; 8]]);
}

#[test]
fn cauchy_decode_matrix_scenario() {
    let ec = ErasureCode::with_cauchy(4, 2).unwrap();
    let m = ec.make_decode_matrix(&[3, 4]).unwrap();
    assert_eq!(&m[0..8], &[0xF5, 0x8F, 0xBB, 0x06, 0x60, 0x40, 0xFE, 0xBB]);
    assert!(m[8..].iter().all(|&x| x == 0));
}

#[test]
fn cauchy_never_fails_to_invert() {
    for (k, m) in [(4, 2), (5, 3), (6, 5), (3, 4)] {
        let ec = ErasureCode::with_cauchy(k, m).unwrap();
        let n = k + m;
        for mask in 0u32..(1 << n) {
            if mask.count_ones() as usize > m {
                continue;
            }
            let erasures: Vec<usize> = (0..n).filter(|i| mask & (1 << i) != 0).collect();
            assert!(ec.make_decode_table(erasures).is_ok());
        }
    }
}

#[test]
fn reed_solomon_known_cases() {
    let ec = ErasureCode::with_reed_solomon(6, 5).unwrap();
    let res = ec.make_decode_table(vec![0, 2, 5, 7, 8]);
    assert!(matches!(res, Err(Error::InternalError(..))));
    let (data, parity) = stripe_of(&ec, 23);
    let mut d = data.clone();
    let mut p = parity.clone();
    let res = ec.decode(&mut d, &mut p, vec![0, 2, 5, 7, 8]);
    assert!(matches!(res, Err(Error::InternalError(..))));
    assert_eq!((d, p), (data.clone(), parity.clone()));
    assert!(ec.make_decode_table(vec![0, 1, 2, 3, 4]).is_ok());
    let cauchy = ErasureCode::with_cauchy(6, 5).unwrap();
    assert!(cauchy.make_decode_table(vec![0, 2, 5, 7, 8]).is_ok());
    let rs = ErasureCode::with_reed_solomon(4, 2).unwrap();
    assert!(rs.make_decode_table(vec![2, 5]).is_ok());
}

#[test]
fn mismatched_table_is_refused() {
    let ec = ErasureCode::with_cauchy(4, 2).unwrap();
    let (mut data, mut parity) = stripe_of(&ec, 2);
    let table = ec.make_decode_table(vec![1]).unwrap();
    let res = ec.decode_with_table(&mut data, &mut parity, &table, vec![1, 4]);
    assert!(matches!(res, Err(Error::InvalidArguments(..))));
}
