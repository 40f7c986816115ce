use stegosaurus::byte::{decode, decode_raw, encode_raw};
use stegosaurus::Error;

#[test]
fn encode() {
    let msg = "Hi"; // 0b01001000 0b01101001
    let mut buffer = vec![0; 4];
    encode_raw(&mut buffer, &msg.as_bytes(), 4).unwrap();
    assert_eq!(buffer, vec![0b1000, 0b0100, 0b1001, 0b0110]);
}

#[test]
fn decode_byte() {
    let buffer = [0b1000, 0b0100];
    let byte = stegosaurus::byte::decode_byte(&buffer, 4).unwrap();
    assert_eq!(byte, 0b01001000); // 'H'
}

#[test]
fn encode_decode() {
    const STEP: usize = 2;
    let msg = "Hello World";
    let mut buffer = vec![0; 88];
    encode_raw(&mut buffer, &msg.as_bytes(), STEP).unwrap();
    let decoded = decode_raw(&buffer, msg.len(), STEP);
    assert_eq!(msg.as_bytes(), decoded.1.as_slice());
}

#[test]
fn raw_round_trip_every_step() {
    let payload: Vec<u8> = vec![0x00, 0xff, 0x5a, 0xa5, 0x01, 0x80, 0x7e];
    for step in [1usize, 2, 4] {
        let slots = 8 / step;
        let mut buffer: Vec<u8> = (0..payload.len() * slots + 3).map(|i| (i * 37) as u8).collect();
        let rest = encode_raw(&mut buffer, &payload, step).unwrap();
        assert_eq!(rest, payload.len() * slots);
        let (remainder, out) = decode_raw(&buffer, payload.len(), step);
        assert_eq!(out, payload);
        assert_eq!(remainder.len(), 3);
    }
}

#[test]
fn framed_round_trip_hello_world() {
    let msg = "Hello World";
    let mut buffer = vec![0u8; 88];
    let rest = stegosaurus::byte::encode(&mut buffer, msg.as_bytes(), 2).unwrap();
    assert_eq!(rest, (8 + 11) * 4);
    let out = decode(&buffer, 2).unwrap();
    assert_eq!(out, msg.as_bytes());
}

#[test]
fn framed_round_trip_every_step() {
    let payload: Vec<u8> = (0..40u32).map(|i| (i * 13 + 7) as u8).collect();
    for step in [1usize, 2, 4] {
        let slots = 8 / step;
        let mut buffer = vec![0xc3u8; (payload.len() + 8) * slots];
        stegosaurus::byte::encode(&mut buffer, &payload, step).unwrap();
        assert_eq!(decode(&buffer, step).unwrap(), payload);
    }
}

#[test]
fn framed_empty_payload() {
    let mut buffer = vec![0u8; 16];
    assert_eq!(stegosaurus::byte::encode(&mut buffer, &[], 4), Ok(16));
    assert_eq!(decode(&buffer, 4), Ok(vec![]));
}

#[test]
fn high_bits_are_kept() {
    let payload = [0x12u8, 0x34, 0xfe];
    for step in [1usize, 2, 4] {
        let mask: u8 = ((1u16 << step) - 1) as u8;
        let before: Vec<u8> = (0..payload.len() * (8 / step)).map(|i| (0xa5u8).wrapping_add(i as u8 * 11)).collect();
        let mut after = before.clone();
        encode_raw(&mut after, &payload, step).unwrap();
        for (a, b) in after.iter().zip(before.iter()) {
            assert_eq!(a & !mask, b & !mask);
        }
    }
}

#[test]
fn capacity_boundary() {
    let payload = [1u8, 2, 3];
    for step in [1usize, 2, 4] {
        let need = payload.len() * (8 / step);
        let mut exact = vec![0u8; need];
        assert_eq!(encode_raw(&mut exact, &payload, step), Ok(need));
        let mut short = vec![0x77u8; need - 1];
        assert_eq!(
            encode_raw(&mut short, &payload, step),
            Err(Error::BufferTooSmall { actual: need - 1, required: need })
        );
        assert_eq!(short, vec![0x77u8; need - 1]);
    }
}

#[test]
fn truncated_raw_decode_is_partial() {
    let mut buffer = vec![0u8; 8];
    encode_raw(&mut buffer, &[0x48, 0x69, 0x21, 0x3f], 4).unwrap();
    let (rest, out) = decode_raw(&buffer[..5], 4, 4);
    assert_eq!(out, vec![0x48, 0x69]);
    assert!(rest.is_empty());
}

#[test]
fn raw_decode_returns_rest() {
    let buffer = [0x8u8, 0x4, 0x9, 0x6, 0xaa, 0xbb];
    let (rest, out) = decode_raw(&buffer, 2, 4);
    assert_eq!(out, vec![0x48, 0x69]);
    assert_eq!(rest, &[0xaa, 0xbb]);
}

#[test]
fn concrete_hi_example() {
    let mut buffer = vec![0u8; 4];
    encode_raw(&mut buffer, &[0x48, 0x69], 4).unwrap();
    assert_eq!(buffer, vec![0x8, 0x4, 0x9, 0x6]);
    let (_, out) = decode_raw(&buffer, 2, 4);
    assert_eq!(out, vec![0x48, 0x69]);
}

#[test]
fn one_bit_layout() {
    let mut buffer = vec![0xfeu8; 8];
    encode_raw(&mut buffer, &[0b1000_0101], 1).unwrap();
    assert_eq!(buffer, vec![0xff, 0xfe, 0xff, 0xfe, 0xfe, 0xfe, 0xfe, 0xff]);
}

#[test]
fn decode_byte_wrong_length() {
    assert_eq!(stegosaurus::byte::decode_byte(&[0x1, 0x2, 0x3], 4), None);
    assert_eq!(stegosaurus::byte::decode_byte(&[0x3, 0x1, 0x0, 0x2], 2), Some(0b1000_0111));
}

#[test]
fn encode_header_does_not_fit() {
    let mut buffer = vec![0x55u8; 31];
    assert_eq!(
        stegosaurus::byte::encode(&mut buffer, b"x", 2),
        Err(Error::BufferTooSmall { actual: 31, required: 32 })
    );
    assert_eq!(buffer, vec![0x55u8; 31]);
}

#[test]
fn encode_payload_does_not_fit() {
    let mut buffer = vec![0u8; 32 + 7];
    assert_eq!(
        stegosaurus::byte::encode(&mut buffer, b"ab", 2),
        Err(Error::BufferTooSmall { actual: 7, required: 8 })
    );
    let (_, size) = decode_raw(&buffer, 8, 2);
    assert_eq!(size, vec![0, 0, 0, 0, 0, 0, 0, 2]);
}

#[test]
fn decode_header_short() {
    let buffer = vec![0u8; 15];
    assert_eq!(decode(&buffer, 4), Err(Error::BufferTooSmall { actual: 7, required: 8 }));
}

#[test]
fn decode_payload_short() {
    let mut buffer = vec![0u8; 16 + 10];
    let size = 9usize.to_be_bytes();
    encode_raw(&mut buffer, &size, 4).unwrap();
    assert_eq!(decode(&buffer, 4), Err(Error::BufferTooSmall { actual: 5, required: 9 }));
}
