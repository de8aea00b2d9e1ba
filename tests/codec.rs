use laz::{CodecError, Coded, ExtraBytesCompressor, ExtraBytesDecompressor};

fn decode_all(count: usize, packets: &[Coded]) -> Vec<Vec<u8>> {
    let mut d = ExtraBytesDecompressor::new(count);
    let mut out = Vec::new();
    for p in packets {
        let mut buf = vec![0u8; count];
        d.decompress_with(p, &mut buf).unwrap();
        out.push(buf);
    }
    out
}

fn encode_all(count: usize, records: &[Vec<u8>]) -> (ExtraBytesCompressor, Vec<Coded>) {
    let mut c = ExtraBytesCompressor::new(count);
    let packets = records.iter().map(|r| c.compress_with(r).unwrap()).collect();
    (c, packets)
}

#[test]
fn three_records_two_slots() {
    let records = vec![vec![10u8, 200], vec![12, 198], vec![12, 0]];
    let (c, packets) = encode_all(2, &records);
    assert_eq!(packets[0], Coded::Raw(vec![10, 200]));
    assert_eq!(packets[1], Coded::Symbols(vec![2, 254]));
    assert_eq!(packets[2], Coded::Symbols(vec![0, 58]));
    assert_eq!(c.model(0).count(2), 2);
    assert_eq!(c.model(0).count(0), 2);
    assert_eq!(c.model(1).count(254), 2);
    assert_eq!(c.model(1).count(58), 2);
    assert_eq!(c.model(1).count(0), 1);
    assert_eq!(decode_all(2, &packets), records);
}

#[test]
fn wrap_around_both_ways() {
    let records = vec![vec![250u8], vec![3], vec![250]];
    let (_, packets) = encode_all(1, &records);
    assert_eq!(packets[1], Coded::Symbols(vec![9]));
    assert_eq!(packets[2], Coded::Symbols(vec![247]));
    assert_eq!(decode_all(1, &packets), records);
}

#[test]
fn decoder_adds_modulo_256() {
    let mut d = ExtraBytesDecompressor::new(1);
    let mut buf = vec![0u8; 1];
    d.decompress_with(&Coded::Raw(vec![250]), &mut buf).unwrap();
    d.decompress_with(&Coded::Symbols(vec![9]), &mut buf).unwrap();
    assert_eq!(buf, vec![3]);
    assert_eq!(d.model(0).count(9), 2);
}

#[test]
fn round_trip_many_records() {
    let count = 5;
    let mut seed: u32 = 12345;
    let mut records = Vec::new();
    for _ in 0..200 {
        let mut r = Vec::new();
        for _ in 0..count {
            seed = seed.wrapping_mul(1103515245).wrapping_add(12345);
            r.push((seed >> 16) as u8);
        }
        records.push(r);
    }
    let (_, packets) = encode_all(count, &records);
    assert_eq!(decode_all(count, &packets), records);
}

#[test]
fn first_record_raw_and_unobserved() {
    let mut c = ExtraBytesCompressor::new(3);
    let p = c.compress_with(&[7, 0, 255]).unwrap();
    assert_eq!(p, Coded::Raw(vec![7, 0, 255]));
    for i in 0..3 {
        for s in 0..=255u8 {
            assert_eq!(c.model(i).count(s), 1);
        }
    }
}

#[test]
fn slots_are_independent() {
    let a = vec![vec![1u8, 9], vec![4, 200], vec![4, 13], vec![0, 77]];
    let b = vec![vec![1u8, 50], vec![4, 51], vec![4, 52], vec![0, 53]];
    let (ca, pa) = encode_all(2, &a);
    let (cb, pb) = encode_all(2, &b);
    for (x, y) in pa.iter().zip(pb.iter()) {
        match (x, y) {
            (Coded::Raw(u), Coded::Raw(v)) => assert_eq!(u[0], v[0]),
            (Coded::Symbols(u), Coded::Symbols(v)) => {
                assert_eq!(u.len(), v.len());
                assert_eq!(u[0], v[0]);
            }
            _ => panic!("packets of different kinds"),
        }
    }
    for s in 0..=255u8 {
        assert_eq!(ca.model(0).count(s), cb.model(0).count(s));
    }
}

#[test]
fn repeated_records_give_zero_symbols() {
    let records = vec![vec![5u8, 6, 7]; 6];
    let (c, packets) = encode_all(3, &records);
    assert_eq!(packets[0], Coded::Raw(vec![5, 6, 7]));
    for p in &packets[1..] {
        assert_eq!(*p, Coded::Symbols(vec![0, 0, 0]));
    }
    for i in 0..3 {
        assert_eq!(c.model(i).count(0), 6);
        for s in 1..=255u8 {
            assert_eq!(c.model(i).count(s), 1);
        }
    }
    assert_eq!(decode_all(3, &packets), records);
}

#[test]
fn zero_slots_do_nothing() {
    let mut c = ExtraBytesCompressor::new(0);
    assert_eq!(c.size_of_field(), 0);
    assert_eq!(c.compress_with(&[]).unwrap(), Coded::Raw(vec![]));
    assert_eq!(c.compress_with(&[]).unwrap(), Coded::Symbols(vec![]));
    let mut d = ExtraBytesDecompressor::new(0);
    let mut buf: Vec<u8> = vec![];
    assert_eq!(d.decompress_with(&Coded::Raw(vec![]), &mut buf), Ok(()));
    assert_eq!(d.decompress_with(&Coded::Symbols(vec![]), &mut buf), Ok(()));
    assert!(buf.is_empty());
}

#[test]
fn size_of_field_is_count() {
    assert_eq!(ExtraBytesCompressor::new(4).size_of_field(), 4);
}

#[test]
fn compress_refuses_wrong_width() {
    let mut c = ExtraBytesCompressor::new(2);
    assert_eq!(c.compress_with(&[1, 2, 3]), Err(CodecError::LengthMismatch));
    assert_eq!(c.compress_with(&[1, 2]).unwrap(), Coded::Raw(vec![1, 2]));
    assert_eq!(c.compress_with(&[1]), Err(CodecError::LengthMismatch));
    assert_eq!(c.compress_with(&[3, 2]).unwrap(), Coded::Symbols(vec![2, 0]));
}

#[test]
fn decompress_refuses_bad_input() {
    let mut d = ExtraBytesDecompressor::new(2);
    let mut buf = vec![0u8; 2];
    let mut short = vec![0u8; 1];
    assert_eq!(
        d.decompress_with(&Coded::Raw(vec![1, 2]), &mut short),
        Err(CodecError::LengthMismatch)
    );
    assert_eq!(
        d.decompress_with(&Coded::Symbols(vec![1, 2]), &mut buf),
        Err(CodecError::UnexpectedPacket)
    );
    assert_eq!(
        d.decompress_with(&Coded::Raw(vec![1, 2, 3]), &mut buf),
        Err(CodecError::LengthMismatch)
    );
    assert_eq!(buf, vec![0, 0]);
    assert_eq!(d.decompress_with(&Coded::Raw(vec![1, 2]), &mut buf), Ok(()));
    assert_eq!(buf, vec![1, 2]);
    assert_eq!(
        d.decompress_with(&Coded::Raw(vec![1, 2]), &mut buf),
        Err(CodecError::UnexpectedPacket)
    );
    assert_eq!(
        d.decompress_with(&Coded::Symbols(vec![1]), &mut buf),
        Err(CodecError::LengthMismatch)
    );
    assert_eq!(d.decompress_with(&Coded::Symbols(vec![1, 255]), &mut buf), Ok(()));
    assert_eq!(buf, vec![2, 1]);
}
