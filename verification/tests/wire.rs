use mux_codec::frame::{decode_frame, encode_frame};
use mux_codec::pdu::{
    CursorPosition, DecodedPdu, DirtyLine, GetCoarseTabRenderableData,
    GetCoarseTabRenderableDataResponse, Hyperlink, Line, ListTabs, ListTabsResponse, Pdu,
    TabEntry,
};
use mux_codec::varint::{decode_unsigned, encode_unsigned, encoded_length};
use mux_codec::CodecError;

#[test]
fn varint_small_values() {
    assert_eq!(encode_unsigned(0), vec![0]);
    assert_eq!(encode_unsigned(1), vec![1]);
    assert_eq!(encode_unsigned(127), vec![0x7f]);
    assert_eq!(encode_unsigned(128), vec![0x80, 0x01]);
    assert_eq!(encode_unsigned(300), vec![0xac, 0x02]);
    assert_eq!(encoded_length(0), 1);
    assert_eq!(encoded_length(127), 1);
    assert_eq!(encoded_length(128), 2);
    assert_eq!(encoded_length(300), 2);
}

#[test]
fn varint_round_trips() {
    for v in [
        0u64,
        1,
        127,
        128,
        255,
        16384,
        0xdeadbeef,
        u64::MAX - 1,
        u64::MAX,
    ] {
        let bytes = encode_unsigned(v);
        assert_eq!(bytes.len(), encoded_length(v));
        let (decoded, used) = decode_unsigned(bytes.as_slice(), 0).unwrap();
        assert_eq!(decoded, v);
        assert_eq!(used, bytes.len());
    }
}

#[test]
fn varint_max_is_ten_bytes() {
    let bytes = encode_unsigned(u64::MAX);
    assert_eq!(bytes.len(), 10);
    assert_eq!(
        bytes,
        vec![0xff, 0xff, 0xff, 0xff, 0xff, 0xff, 0xff, 0xff, 0xff, 0x01]
    );
}

#[test]
fn varint_accepts_non_canonical_zero() {
    // A continuation byte followed by a zero terminator still denotes 0.
    let (v, used) = decode_unsigned(&[0x80, 0x00], 0).unwrap();
    assert_eq!(v, 0);
    assert_eq!(used, 2);
}

#[test]
fn varint_truncated_is_format_error() {
    assert_eq!(decode_unsigned(&[], 0), Err(CodecError::Format));
    assert_eq!(decode_unsigned(&[0x80], 0), Err(CodecError::Format));
    assert_eq!(decode_unsigned(&[0xff, 0xff], 0), Err(CodecError::Format));
}

#[test]
fn varint_too_wide_is_format_error() {
    // Eleven continuation-flagged bytes: more than the ten a u64 may take.
    let bytes = [0x80u8; 11];
    assert_eq!(decode_unsigned(&bytes, 0), Err(CodecError::Format));
    // Ten bytes whose value needs 65 bits.
    let wide = [0xff, 0xff, 0xff, 0xff, 0xff, 0xff, 0xff, 0xff, 0xff, 0x02];
    assert_eq!(decode_unsigned(&wide, 0), Err(CodecError::Format));
}

#[test]
fn frame_declared_length_too_short_is_format_error() {
    // length says 1, but serial (1 byte) and ident (2 bytes) already take 3.
    let bytes = [0x01, 0x42, 0x81, 0x01];
    assert_eq!(decode_frame(&bytes), Err(CodecError::Format));
}

#[test]
fn frame_truncated_payload_is_format_error() {
    let mut encoded = encode_frame(0x81, 0x42, b"hello");
    encoded.pop();
    assert_eq!(decode_frame(encoded.as_slice()), Err(CodecError::Format));
}

#[test]
fn frame_trailing_bytes_are_left_over() {
    let mut encoded = encode_frame(7, 9, b"abc");
    let frame_len = encoded.len();
    encoded.push(0xaa);
    let (decoded, used) = decode_frame(encoded.as_slice()).unwrap();
    assert_eq!(used, frame_len);
    assert_eq!(decoded.serial, 9);
    assert_eq!(decoded.ident, 7);
    assert_eq!(decoded.payload, b"abc");
}

#[test]
fn invalid_pdu_is_not_encodable() {
    assert_eq!(
        Pdu::Invalid { ident: 5 }.encode(1),
        Err(CodecError::Encoding)
    );
}

#[test]
fn known_ident_with_wrong_payload_is_encoding_error() {
    // Ping's schema is an empty payload; a frame with ident 1 and a payload
    // is a schema mismatch, not a framing error.
    let encoded = encode_frame(1, 7, b"x");
    assert_eq!(Pdu::decode(encoded.as_slice()), Err(CodecError::Encoding));
}

#[test]
fn unknown_ident_keeps_serial_and_raises_no_error() {
    let encoded = encode_frame(0x7777, 0x1234, b"future message");
    let decoded = Pdu::decode(encoded.as_slice()).unwrap();
    assert_eq!(decoded.serial, 0x1234);
    assert_eq!(decoded.pdu, Pdu::Invalid { ident: 0x7777 });
}

#[test]
fn list_tabs_round_trip() {
    let encoded = Pdu::ListTabs(ListTabs {}).encode(3).unwrap();
    assert_eq!(&encoded, &[2, 3, 3]);
    assert_eq!(
        DecodedPdu {
            serial: 3,
            pdu: Pdu::ListTabs(ListTabs {})
        },
        Pdu::decode(encoded.as_slice()).unwrap()
    );
}

#[test]
fn list_tabs_response_exact_bytes_and_round_trip() {
    let msg = ListTabsResponse {
        tabs: vec![
            TabEntry {
                tab_id: 1,
                title: b"one".to_vec(),
            },
            TabEntry {
                tab_id: 2,
                title: b"two".to_vec(),
            },
        ],
    };
    let pdu = Pdu::ListTabsResponse(msg);
    let encoded = pdu.encode(0x10).unwrap();
    assert_eq!(
        encoded,
        vec![13, 0x10, 4, 2, 1, 3, b'o', b'n', b'e', 2, 3, b't', b'w', b'o']
    );
    let decoded = Pdu::decode(encoded.as_slice()).unwrap();
    assert_eq!(decoded.serial, 0x10);
    assert_eq!(decoded.pdu, pdu);
}

#[test]
fn list_tabs_response_empty_round_trip() {
    let pdu = Pdu::ListTabsResponse(ListTabsResponse { tabs: vec![] });
    let encoded = pdu.encode(0).unwrap();
    assert_eq!(encoded, vec![3, 0, 4, 0]);
    let decoded = Pdu::decode(encoded.as_slice()).unwrap();
    assert_eq!(decoded.pdu, pdu);
}

#[test]
fn get_coarse_request_round_trip() {
    let pdu = Pdu::GetCoarseTabRenderableData(GetCoarseTabRenderableData { tab_id: 300 });
    let encoded = pdu.encode(0x21).unwrap();
    assert_eq!(encoded, vec![4, 0x21, 5, 0xac, 0x02]);
    let decoded = Pdu::decode(encoded.as_slice()).unwrap();
    assert_eq!(decoded.serial, 0x21);
    assert_eq!(decoded.pdu, pdu);
}

#[test]
fn coarse_response_minimal_exact_bytes() {
    let pdu = Pdu::GetCoarseTabRenderableDataResponse(GetCoarseTabRenderableDataResponse {
        cursor_position: CursorPosition { x: 5, y: -1 },
        physical_rows: 2,
        physical_cols: 3,
        current_highlight: None,
        dirty_lines: vec![],
    });
    let encoded = pdu.encode(9).unwrap();
    // payload: x=5, zigzag(-1)=1, rows=2, cols=3, no highlight, 0 dirty lines
    assert_eq!(encoded, vec![8, 9, 6, 5, 1, 2, 3, 0, 0]);
    let decoded = Pdu::decode(encoded.as_slice()).unwrap();
    assert_eq!(decoded.serial, 9);
    assert_eq!(decoded.pdu, pdu);
}

#[test]
fn coarse_response_full_round_trip() {
    let pdu = Pdu::GetCoarseTabRenderableDataResponse(GetCoarseTabRenderableDataResponse {
        cursor_position: CursorPosition {
            x: 80,
            y: -123456789,
        },
        physical_rows: 24,
        physical_cols: 80,
        current_highlight: Some(Hyperlink {
            uri: b"https://example.net/a".to_vec(),
        }),
        dirty_lines: vec![
            DirtyLine {
                line_idx: 0,
                line: Line {
                    text: b"hello world".to_vec(),
                },
                selection_col_from: 2,
                selection_col_to: 7,
            },
            DirtyLine {
                line_idx: 23,
                line: Line { text: vec![] },
                selection_col_from: 0,
                selection_col_to: 0,
            },
        ],
    });
    let encoded = pdu.encode(0xfeed).unwrap();
    let decoded = Pdu::decode(encoded.as_slice()).unwrap();
    assert_eq!(decoded.serial, 0xfeed);
    assert_eq!(decoded.pdu, pdu);
}

#[test]
fn coarse_response_truncated_payload_is_encoding_error() {
    let pdu = Pdu::GetCoarseTabRenderableDataResponse(GetCoarseTabRenderableDataResponse {
        cursor_position: CursorPosition { x: 1, y: 2 },
        physical_rows: 3,
        physical_cols: 4,
        current_highlight: None,
        dirty_lines: vec![],
    });
    let encoded = pdu.encode(1).unwrap();
    // Claim one more dirty line than the payload holds.
    let mut broken = encoded.clone();
    let last = broken.len() - 1;
    broken[last] = 1;
    assert_eq!(Pdu::decode(broken.as_slice()), Err(CodecError::Encoding));
}

#[test]
fn positive_row_round_trips() {
    let pdu = Pdu::GetCoarseTabRenderableDataResponse(GetCoarseTabRenderableDataResponse {
        cursor_position: CursorPosition {
            x: 0,
            y: 9876543210,
        },
        physical_rows: 1,
        physical_cols: 1,
        current_highlight: None,
        dirty_lines: vec![],
    });
    let encoded = pdu.encode(2).unwrap();
    match Pdu::decode(encoded.as_slice()).unwrap().pdu {
        Pdu::GetCoarseTabRenderableDataResponse(m) => {
            assert_eq!(m.cursor_position.y, 9876543210);
        }
        other => panic!("decoded to the wrong variant: {:?}", other),
    }
}
