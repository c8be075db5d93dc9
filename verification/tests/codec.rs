use mux_codec::frame::{decode_frame, encode_frame};
use mux_codec::pdu::{DecodedPdu, Pdu, Ping, Pong};

// basE91 transport coding, used to exercise the codec through a byte-level
// re-encoding of its output.
const BASE91_ALPHABET: &[u8; 91] =
    b"ABCDEFGHIJKLMNOPQRSTUVWXYZabcdefghijklmnopqrstuvwxyz0123456789!#$%&()*+,./:;<=>?@[]^_`{|}~\"";

fn base91_encode(data: &[u8]) -> Vec<u8> {
    let mut out = Vec::new();
    let mut b: u32 = 0;
    let mut n: u32 = 0;
    for &byte in data {
        b |= (byte as u32) << n;
        n += 8;
        if n > 13 {
            let mut v = b & 8191;
            if v > 88 {
                b >>= 13;
                n -= 13;
            } else {
                v = b & 16383;
                b >>= 14;
                n -= 14;
            }
            out.push(BASE91_ALPHABET[(v % 91) as usize]);
            out.push(BASE91_ALPHABET[(v / 91) as usize]);
        }
    }
    if n > 0 {
        out.push(BASE91_ALPHABET[(b % 91) as usize]);
        if n > 7 || b > 90 {
            out.push(BASE91_ALPHABET[(b / 91) as usize]);
        }
    }
    out
}

fn base91_decode(data: &[u8]) -> Vec<u8> {
    let mut out = Vec::new();
    let mut v: i32 = -1;
    let mut b: u32 = 0;
    let mut n: u32 = 0;
    for &c in data {
        let d = BASE91_ALPHABET
            .iter()
            .position(|&a| a == c)
            .expect("not a base91 digit") as u32;
        if v < 0 {
            v = d as i32;
        } else {
            let val = (v as u32) + d * 91;
            b |= val << n;
            n += if (val & 8191) > 88 { 13 } else { 14 };
            while n >= 8 {
                out.push((b & 255) as u8);
                b >>= 8;
                n -= 8;
            }
            v = -1;
        }
    }
    if v >= 0 {
        out.push(((b | ((v as u32) << n)) & 255) as u8);
    }
    out
}

#[test]
fn test_frame() {
    let encoded = encode_frame(0x81, 0x42, b"hello");
    assert_eq!(&encoded, b"\x08\x42\x81\x01hello");
    let (decoded, _used) = decode_frame(encoded.as_slice()).unwrap();
    assert_eq!(decoded.ident, 0x81);
    assert_eq!(decoded.serial, 0x42);
    assert_eq!(decoded.payload, b"hello");
}

#[test]
fn test_frame_lengths() {
    let mut serial = 1;
    for target_len in &[128, 247, 256, 65536, 16777216] {
        let mut payload = Vec::with_capacity(*target_len);
        payload.resize(*target_len, b'a');
        let encoded = encode_frame(0x42, serial, payload.as_slice());
        let (decoded, _used) = decode_frame(encoded.as_slice()).unwrap();
        assert_eq!(decoded.ident, 0x42);
        assert_eq!(decoded.serial, serial);
        assert_eq!(decoded.payload, payload);
        serial += 1;
    }
}

#[test]
fn test_pdu_ping() {
    let encoded = Pdu::Ping(Ping {}).encode(0x40).unwrap();
    assert_eq!(&encoded, &[2, 0x40, 1]);
    assert_eq!(
        DecodedPdu {
            serial: 0x40,
            pdu: Pdu::Ping(Ping {})
        },
        Pdu::decode(encoded.as_slice()).unwrap()
    );
}

#[test]
fn test_pdu_ping_base91() {
    let bytes = Pdu::Ping(Ping {}).encode(0x41).unwrap();
    let encoded = base91_encode(bytes.as_slice());
    assert_eq!(&encoded, &[60, 67, 75, 65]);
    let decoded = base91_decode(&encoded);
    assert_eq!(
        DecodedPdu {
            serial: 0x41,
            pdu: Pdu::Ping(Ping {})
        },
        Pdu::decode(decoded.as_slice()).unwrap()
    );
}

#[test]
fn test_pdu_pong() {
    let encoded = Pdu::Pong(Pong {}).encode(0x42).unwrap();
    assert_eq!(&encoded, &[2, 0x42, 2]);
    assert_eq!(
        DecodedPdu {
            serial: 0x42,
            pdu: Pdu::Pong(Pong {})
        },
        Pdu::decode(encoded.as_slice()).unwrap()
    );
}

#[test]
fn test_bogus_pdu() {
    let encoded = encode_frame(0xdeadbeef, 0x42, b"hello");
    assert_eq!(
        DecodedPdu {
            serial: 0x42,
            pdu: Pdu::Invalid { ident: 0xdeadbeef }
        },
        Pdu::decode(encoded.as_slice()).unwrap()
    );
}
