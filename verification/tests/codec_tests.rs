use zkcore::codec::{decode, encode, CreateMode, Frame, Op, WatchKind, MAX_FRAME_LEN};
use zkcore::errors::Error;

fn round_trip(f: Frame) {
    let bytes = encode(&f).expect("frame fits");
    let back = decode(&bytes).expect("own encoding decodes");
    assert_eq!(back, f);
}

#[test]
fn round_trip_connect() {
    round_trip(Frame {
        xid: 0,
        op: Op::Connect {
            protocol_version: 0,
            last_zxid: 77,
            timeout_ms: 30000,
            session_id: 0,
            password: vec![],
        },
    });
}

#[test]
fn round_trip_connect_reply() {
    round_trip(Frame {
        xid: 0,
        op: Op::ConnectReply {
            protocol_version: 0,
            negotiated_timeout_ms: 20000,
            session_id: -4611686018427387904,
            password: vec![1, 2, 3, 4, 5, 6, 7, 8, 9, 10, 11, 12, 13, 14, 15, 16],
        },
    });
}

#[test]
fn round_trip_create() {
    round_trip(Frame {
        xid: 1,
        op: Op::Create {
            path: b"/app/config".to_vec(),
            data: vec![0, 255, 47, 128],
            mode: CreateMode::EphemeralSequential,
        },
    });
}

#[test]
fn round_trip_delete() {
    round_trip(Frame {
        xid: 2,
        op: Op::Delete { path: b"/app".to_vec(), version: -1 },
    });
}

#[test]
fn round_trip_exists_get_children() {
    round_trip(Frame {
        xid: 3,
        op: Op::Exists { path: b"/x".to_vec(), watch: true },
    });
    round_trip(Frame {
        xid: 4,
        op: Op::GetData { path: b"/x".to_vec(), watch: false },
    });
    round_trip(Frame {
        xid: 5,
        op: Op::GetChildren { path: b"/".to_vec(), watch: true },
    });
}

#[test]
fn round_trip_set_data() {
    round_trip(Frame {
        xid: 6,
        op: Op::SetData { path: b"/x".to_vec(), data: b"value".to_vec(), version: 5 },
    });
}

#[test]
fn round_trip_ping_close_event() {
    round_trip(Frame { xid: -2, op: Op::Ping });
    round_trip(Frame { xid: 7, op: Op::CloseSession });
    round_trip(Frame {
        xid: -1,
        op: Op::WatcherEvent { kind: WatchKind::Children, path: b"/watched".to_vec() },
    });
}

#[test]
fn exact_bytes_of_ping() {
    // Body: xid (4) + opcode (4); the ping opcode is 8; length covers the body.
    let f = Frame { xid: 5, op: Op::Ping };
    let bytes = encode(&f).unwrap();
    assert_eq!(bytes, vec![0, 0, 0, 8, 0, 0, 0, 5, 0, 0, 0, 8]);
}

#[test]
fn exact_bytes_of_delete() {
    // Delete "/a" with version -1: buf(path) then the version word.
    let f = Frame { xid: 1, op: Op::Delete { path: b"/a".to_vec(), version: -1 } };
    let bytes = encode(&f).unwrap();
    assert_eq!(
        bytes,
        vec![
            0, 0, 0, 18, // length: 8 header + 6 path buf + 4 version
            0, 0, 0, 1, // xid
            0, 0, 0, 3, // opcode delete
            0, 0, 0, 2, 47, 97, // path "/a"
            255, 255, 255, 255, // version -1
        ]
    );
}

#[test]
fn decode_rejects_truncated_input() {
    assert_eq!(decode(&vec![]), Err(Error::MalformedFrame));
    assert_eq!(decode(&vec![0, 0, 0]), Err(Error::MalformedFrame));
    // Length prefix says 8, but no body follows.
    assert_eq!(decode(&vec![0, 0, 0, 8]), Err(Error::MalformedFrame));
}

#[test]
fn decode_rejects_wrong_length_prefix() {
    let mut bytes = encode(&Frame { xid: 5, op: Op::Ping }).unwrap();
    bytes[3] = 9; // claims one more byte than present
    assert_eq!(decode(&bytes), Err(Error::MalformedFrame));
}

#[test]
fn decode_rejects_oversized_length_prefix() {
    // Prefix far above MAX_FRAME_LEN.
    assert!(MAX_FRAME_LEN < 0x7fffffff);
    let bytes = vec![127, 255, 255, 255, 0, 0, 0, 5, 0, 0, 0, 8];
    assert_eq!(decode(&bytes), Err(Error::MalformedFrame));
}

#[test]
fn decode_rejects_unknown_opcode() {
    let bytes = vec![0, 0, 0, 8, 0, 0, 0, 5, 0, 0, 0, 99];
    assert_eq!(decode(&bytes), Err(Error::MalformedFrame));
}

#[test]
fn decode_rejects_trailing_garbage_in_payload() {
    // A ping whose payload is not empty.
    let bytes = vec![0, 0, 0, 9, 0, 0, 0, 5, 0, 0, 0, 8, 42];
    assert_eq!(decode(&bytes), Err(Error::MalformedFrame));
}

#[test]
fn decode_rejects_underreading_buffer() {
    // Create whose path buffer claims more bytes than the payload holds.
    let bytes = vec![
        0, 0, 0, 13, 0, 0, 0, 1, 0, 0, 0, 2, // header, opcode create
        0, 0, 0, 200, 47, // path buf claims 200 bytes, one present
    ];
    assert_eq!(decode(&bytes), Err(Error::MalformedFrame));
}

#[test]
fn encode_rejects_oversized_frame() {
    let f = Frame {
        xid: 1,
        op: Op::SetData {
            path: b"/big".to_vec(),
            data: vec![0u8; (MAX_FRAME_LEN as usize) + 1],
            version: -1,
        },
    };
    assert_eq!(encode(&f), Err(Error::MalformedFrame));
}
