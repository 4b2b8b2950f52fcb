use plasma_ledger::abi_error::ErrorKind;
use plasma_ledger::state_object::{create_object_id, AbiToken, Address, StateObject};

fn word(n: u32) -> Vec<u8> {
    let mut w = vec![0u8; 28];
    w.extend_from_slice(&n.to_be_bytes());
    w
}

fn padded(bytes: &[u8]) -> Vec<u8> {
    let mut p = bytes.to_vec();
    while p.len() % 32 != 0 {
        p.push(0);
    }
    p
}

#[test]
fn test_abi_encode() {
    let parameters_bytes = Vec::from(&b"parameters"[..]);
    let state_object = StateObject::from_range(0, 100, Address::zero(), &parameters_bytes);
    let encoded = state_object.to_abi();
    let decoded: StateObject = StateObject::from_abi(&encoded).unwrap();
    assert_eq!(decoded.predicate(), state_object.predicate());
}

#[test]
fn object_id_is_start_then_end_little_endian() {
    assert_eq!(
        create_object_id(1, 0x0102030405060708),
        vec![1, 0, 0, 0, 0, 0, 0, 0, 8, 7, 6, 5, 4, 3, 2, 1]
    );
    let o = StateObject::from_range(0, 100, Address::zero(), b"d");
    assert_eq!(o.id(), &[0, 0, 0, 0, 0, 0, 0, 0, 100, 0, 0, 0, 0, 0, 0, 0]);
    assert_eq!(o.data(), b"d");
}

#[test]
fn encoding_has_the_fixed_layout() {
    let predicate = Address::new([0x11; 20]);
    let o = StateObject::new(&[1, 2], predicate, b"abc");
    assert_eq!(o.can_encode(), true);
    let mut expected = Vec::new();
    expected.extend(word(96));
    expected.extend(vec![0u8; 12]);
    expected.extend(vec![0x11u8; 20]);
    expected.extend(word(160));
    expected.extend(word(2));
    expected.extend(padded(&[1, 2]));
    expected.extend(word(3));
    expected.extend(padded(b"abc"));
    assert_eq!(expected.len(), 224);
    assert_eq!(o.to_abi(), expected);
}

#[test]
fn encoding_of_empty_fields_has_no_padding_words() {
    let o = StateObject::new(b"", Address::zero(), b"");
    let mut expected = Vec::new();
    expected.extend(word(96));
    expected.extend(vec![0u8; 32]);
    expected.extend(word(128));
    expected.extend(word(0));
    expected.extend(word(0));
    assert_eq!(o.to_abi(), expected);
    assert_eq!(StateObject::from_abi(&expected).unwrap(), o);
}

#[test]
fn decoding_the_encoding_gives_the_object_back() {
    let mut predicate = [0u8; 20];
    for (i, b) in predicate.iter_mut().enumerate() {
        *b = i as u8 + 1;
    }
    for len in [0usize, 1, 31, 32, 33, 64, 100] {
        let data: Vec<u8> = (0..len).map(|i| (i * 7) as u8).collect();
        let o = StateObject::from_range(3, 9, Address::new(predicate), &data);
        let back = StateObject::from_abi(&o.to_abi()).unwrap();
        assert_eq!(back, o);
        assert_eq!(back.id(), o.id());
        assert_eq!(back.predicate().as_bytes(), &predicate);
        assert_eq!(back.data(), &data[..]);
        assert_eq!(back.clone(), o);
    }
}

#[test]
fn malformed_bytes_do_not_decode() {
    let o = StateObject::from_range(0, 100, Address::zero(), b"parameters");
    let encoded = o.to_abi();
    assert_eq!(*StateObject::from_abi(&[]).unwrap_err().kind(), ErrorKind::AbiDecode);
    assert_eq!(*StateObject::from_abi(&encoded[..95]).unwrap_err().kind(), ErrorKind::AbiDecode);
    assert_eq!(*StateObject::from_abi(&encoded[..encoded.len() - 32]).unwrap_err().kind(), ErrorKind::AbiDecode);

    let mut far_offset = encoded.clone();
    far_offset[28..32].copy_from_slice(&0x00ff_ffffu32.to_be_bytes());
    assert!(StateObject::from_abi(&far_offset).is_err());

    let mut wide_offset = encoded.clone();
    wide_offset[0] = 1;
    assert!(StateObject::from_abi(&wide_offset).is_err());

    let mut long_length = encoded.clone();
    long_length[96 + 28..96 + 32].copy_from_slice(&0x0000_ffffu32.to_be_bytes());
    assert!(StateObject::from_abi(&long_length).is_err());
}

#[test]
fn decoding_reads_what_the_offsets_point_at() {
    let o = StateObject::new(&[9], Address::new([7; 20]), b"xy");
    let mut encoded = o.to_abi();
    encoded.extend_from_slice(&[0xee; 5]);
    encoded[0] = 0;
    encoded[12 + 32 - 12] = 0xaa;
    let back = StateObject::from_abi(&encoded).unwrap();
    assert_eq!(back, o);
}

#[test]
fn a_tuple_of_another_shape_is_not_a_state_object() {
    let id = || AbiToken::Bytes(vec![1]);
    let address = || AbiToken::Address(Address::zero());
    let made = StateObject::from_tokens(vec![id(), address(), AbiToken::Bytes(vec![2, 3])]).unwrap();
    assert_eq!(made, StateObject::new(&[1], Address::zero(), &[2, 3]));
    assert_eq!(*StateObject::from_tokens(vec![]).unwrap_err().kind(), ErrorKind::AbiDecode);
    assert_eq!(*StateObject::from_tokens(vec![id(), address()]).unwrap_err().kind(), ErrorKind::AbiDecode);
    assert!(StateObject::from_tokens(vec![id(), address(), id(), id()]).is_err());
    assert!(StateObject::from_tokens(vec![address(), id(), id()]).is_err());
    assert!(StateObject::from_tokens(vec![id(), id(), id()]).is_err());
    assert!(StateObject::from_tokens(vec![id(), address(), address()]).is_err());
    assert!(StateObject::from_tokens(vec![id(), address(), AbiToken::Other]).is_err());
}

fn layout(id: &[u8], predicate: &[u8; 20], data: &[u8]) -> Vec<u8> {
    let mut out = Vec::new();
    out.extend(word(96));
    out.extend(vec![0u8; 12]);
    out.extend_from_slice(predicate);
    out.extend(word(128 + padded(id).len() as u32));
    out.extend(word(id.len() as u32));
    out.extend(padded(id));
    out.extend(word(data.len() as u32));
    out.extend(padded(data));
    out
}

fn peek(bytes: &[u8], at: usize) -> Option<&[u8]> {
    if at + 32 <= bytes.len() {
        Some(&bytes[at..at + 32])
    } else {
        None
    }
}

fn word_value(w: &[u8]) -> Option<usize> {
    if w[..28].iter().any(|b| *b != 0) {
        return None;
    }
    Some((w[28] as usize) * 0x100_0000 + (w[29] as usize) * 0x1_0000 + (w[30] as usize) * 0x100 + w[31] as usize)
}

fn read_bytes(bytes: &[u8], at: usize) -> Option<Vec<u8>> {
    let offset = word_value(peek(bytes, at)?)?;
    let len = word_value(peek(bytes, offset)?)?;
    if offset + 32 + len <= bytes.len() {
        Some(bytes[offset + 32..offset + 32 + len].to_vec())
    } else {
        None
    }
}

fn parse(bytes: &[u8]) -> Option<(Vec<u8>, [u8; 20], Vec<u8>)> {
    let id = read_bytes(bytes, 0)?;
    let w = peek(bytes, 32)?;
    let data = read_bytes(bytes, 64)?;
    let mut predicate = [0u8; 20];
    predicate.copy_from_slice(&w[12..32]);
    Some((id, predicate, data))
}

struct Noise(u64);

impl Noise {
    fn next(&mut self) -> u64 {
        self.0 ^= self.0 << 13;
        self.0 ^= self.0 >> 7;
        self.0 ^= self.0 << 17;
        self.0
    }
}

#[test]
fn encoding_follows_the_layout_for_every_length() {
    let mut noise = Noise(0x9e37_79b9_7f4a_7c15);
    for id_len in 0..70usize {
        for data_len in [0usize, 1, 5, 31, 32, 33, 63, 64, 65, 200] {
            let id: Vec<u8> = (0..id_len).map(|_| noise.next() as u8).collect();
            let data: Vec<u8> = (0..data_len).map(|_| noise.next() as u8).collect();
            let mut predicate = [0u8; 20];
            for b in predicate.iter_mut() {
                *b = noise.next() as u8;
            }
            let o = StateObject::new(&id, Address::new(predicate), &data);
            let encoded = o.to_abi();
            assert_eq!(encoded, layout(&id, &predicate, &data));
            assert_eq!(parse(&encoded), Some((id, predicate, data)));
        }
    }
}

#[test]
fn decoding_accepts_and_rejects_as_the_layout_says() {
    let mut noise = Noise(0x0123_4567_89ab_cdef);
    let mut accepted = 0u32;
    let mut rejected = 0u32;
    for round in 0..4000u32 {
        let id: Vec<u8> = (0..noise.next() % 70).map(|_| noise.next() as u8).collect();
        let data: Vec<u8> = (0..noise.next() % 70).map(|_| noise.next() as u8).collect();
        let mut bytes = layout(&id, &[round as u8; 20], &data);
        match noise.next() % 6 {
            0 => {}
            1 => {
                let keep = (noise.next() as usize) % (bytes.len() + 1);
                bytes.truncate(keep);
            }
            2 => {
                for _ in 0..noise.next() % 40 {
                    bytes.push(noise.next() as u8);
                }
            }
            _ => {
                for _ in 0..1 + noise.next() % 3 {
                    let slot = [0usize, 64, 96, 128, 160][(noise.next() % 5) as usize];
                    let at = slot + 24 + (noise.next() as usize) % 8;
                    if at < bytes.len() {
                        bytes[at] = if noise.next() % 2 == 0 { 0 } else { (noise.next() % 4) as u8 * 32 };
                    }
                }
            }
        }
        let expected = parse(&bytes);
        match StateObject::from_abi(&bytes) {
            Ok(o) => {
                accepted += 1;
                let (id, predicate, data) = expected.expect("decoded what the layout rejects");
                assert_eq!(o.id(), &id[..]);
                assert_eq!(o.predicate().as_bytes(), &predicate);
                assert_eq!(o.data(), &data[..]);
            }
            Err(e) => {
                rejected += 1;
                assert_eq!(*e.kind(), ErrorKind::AbiDecode);
                assert_eq!(expected, None);
            }
        }
    }
    assert!(accepted > 500);
    assert!(rejected > 500);
}
