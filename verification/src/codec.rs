//! Wire codec: frames are a 4-byte big-endian length prefix followed by
//! a header (transaction id, opcode) and an opcode-specific payload.
//!
//! `encode` and `decode` are specified against the spec-level byte layout
//! (`spec_frame_bytes`, `spec_decode`), and `lemma_decode_encode` proves
//! the codec symmetric: decoding an encoded frame reproduces it exactly.

use vstd::prelude::*;
use crate::errors::Error;

verus! {

/// Largest admissible value of the length prefix; a frame whose prefix
/// exceeds it is rejected as malformed.
pub const MAX_FRAME_LEN: u32 = 1048575;

pub const OP_CONNECT: u32 = 1;
pub const OP_CREATE: u32 = 2;
pub const OP_DELETE: u32 = 3;
pub const OP_EXISTS: u32 = 4;
pub const OP_GET_DATA: u32 = 5;
pub const OP_SET_DATA: u32 = 6;
pub const OP_GET_CHILDREN: u32 = 7;
pub const OP_PING: u32 = 8;
pub const OP_CLOSE_SESSION: u32 = 9;
pub const OP_WATCHER_EVENT: u32 = 10;
pub const OP_CONNECT_REPLY: u32 = 11;

/// Mode of a node being created: persistent or ephemeral, optionally
/// with a server-assigned monotonic suffix.
#[derive(Clone, Copy, Debug, PartialEq, Eq, Structural)]
pub enum CreateMode {
    Persistent,
    Ephemeral,
    PersistentSequential,
    EphemeralSequential,
}

/// The three kinds of one-shot watches a client can leave on a path.
#[derive(Clone, Copy, Debug, PartialEq, Eq, Structural)]
pub enum WatchKind {
    Data,
    Children,
    Exists,
}

/// A typed operation payload, client-sent requests plus the two
/// server-sent frames (connect reply and pushed watcher events).
#[derive(Clone, Debug, PartialEq, Eq)]
pub enum Op {
    Connect { protocol_version: i32, last_zxid: i64, timeout_ms: i32, session_id: i64, password: Vec<u8> },
    ConnectReply { protocol_version: i32, negotiated_timeout_ms: i32, session_id: i64, password: Vec<u8> },
    Create { path: Vec<u8>, data: Vec<u8>, mode: CreateMode },
    Delete { path: Vec<u8>, version: i32 },
    Exists { path: Vec<u8>, watch: bool },
    GetData { path: Vec<u8>, watch: bool },
    SetData { path: Vec<u8>, data: Vec<u8>, version: i32 },
    GetChildren { path: Vec<u8>, watch: bool },
    Ping,
    CloseSession,
    WatcherEvent { kind: WatchKind, path: Vec<u8> },
}

/// Mathematical image of an `Op`: byte buffers become sequences.
pub enum OpV {
    Connect { protocol_version: i32, last_zxid: i64, timeout_ms: i32, session_id: i64, password: Seq<u8> },
    ConnectReply { protocol_version: i32, negotiated_timeout_ms: i32, session_id: i64, password: Seq<u8> },
    Create { path: Seq<u8>, data: Seq<u8>, mode: CreateMode },
    Delete { path: Seq<u8>, version: i32 },
    Exists { path: Seq<u8>, watch: bool },
    GetData { path: Seq<u8>, watch: bool },
    SetData { path: Seq<u8>, data: Seq<u8>, version: i32 },
    GetChildren { path: Seq<u8>, watch: bool },
    Ping,
    CloseSession,
    WatcherEvent { kind: WatchKind, path: Seq<u8> },
}

impl View for Op {
    type V = OpV;

    open spec fn view(&self) -> OpV {
        match *self {
            Op::Connect { protocol_version, last_zxid, timeout_ms, session_id, ref password } =>
                OpV::Connect { protocol_version, last_zxid, timeout_ms, session_id, password: password@ },
            Op::ConnectReply { protocol_version, negotiated_timeout_ms, session_id, ref password } =>
                OpV::ConnectReply { protocol_version, negotiated_timeout_ms, session_id, password: password@ },
            Op::Create { ref path, ref data, mode } =>
                OpV::Create { path: path@, data: data@, mode },
            Op::Delete { ref path, version } =>
                OpV::Delete { path: path@, version },
            Op::Exists { ref path, watch } =>
                OpV::Exists { path: path@, watch },
            Op::GetData { ref path, watch } =>
                OpV::GetData { path: path@, watch },
            Op::SetData { ref path, ref data, version } =>
                OpV::SetData { path: path@, data: data@, version },
            Op::GetChildren { ref path, watch } =>
                OpV::GetChildren { path: path@, watch },
            Op::Ping => OpV::Ping,
            Op::CloseSession => OpV::CloseSession,
            Op::WatcherEvent { kind, ref path } =>
                OpV::WatcherEvent { kind, path: path@ },
        }
    }
}

/// A full protocol frame: transaction id plus typed payload.
#[derive(Clone, Debug, PartialEq, Eq)]
pub struct Frame {
    pub xid: i32,
    pub op: Op,
}

/// Mathematical image of a `Frame`.
pub struct FrameV {
    pub xid: i32,
    pub op: OpV,
}

impl View for Frame {
    type V = FrameV;

    open spec fn view(&self) -> FrameV {
        FrameV { xid: self.xid, op: self.op@ }
    }
}

// ---------------------------------------------------------------------
// Spec-level byte layout.
// ---------------------------------------------------------------------

/// The four big-endian bytes of a 32-bit word.
pub open spec fn be32(x: u32) -> Seq<u8> {
    seq![(x >> 24) as u8, (x >> 16) as u8, (x >> 8) as u8, x as u8]
}

/// The eight big-endian bytes of a 64-bit word.
pub open spec fn be64(x: u64) -> Seq<u8> {
    be32((x >> 32) as u32) + be32(x as u32)
}

pub open spec fn enc_i32(x: i32) -> Seq<u8> {
    be32(x as u32)
}

pub open spec fn enc_i64(x: i64) -> Seq<u8> {
    be64(x as u64)
}

pub open spec fn enc_bool(b: bool) -> Seq<u8> {
    seq![if b { 1u8 } else { 0u8 }]
}

/// A length-prefixed byte buffer.
pub open spec fn enc_buf(b: Seq<u8>) -> Seq<u8> {
    be32(b.len() as u32) + b
}

pub open spec fn mode_code(m: CreateMode) -> u32 {
    match m {
        CreateMode::Persistent => 0,
        CreateMode::Ephemeral => 1,
        CreateMode::PersistentSequential => 2,
        CreateMode::EphemeralSequential => 3,
    }
}

pub open spec fn kind_code(k: WatchKind) -> u32 {
    match k {
        WatchKind::Data => 1,
        WatchKind::Children => 2,
        WatchKind::Exists => 3,
    }
}

/// The opcode carried in a frame's header for each payload variant.
pub open spec fn opcode_of(op: OpV) -> u32 {
    match op {
        OpV::Connect { .. } => OP_CONNECT,
        OpV::ConnectReply { .. } => OP_CONNECT_REPLY,
        OpV::Create { .. } => OP_CREATE,
        OpV::Delete { .. } => OP_DELETE,
        OpV::Exists { .. } => OP_EXISTS,
        OpV::GetData { .. } => OP_GET_DATA,
        OpV::SetData { .. } => OP_SET_DATA,
        OpV::GetChildren { .. } => OP_GET_CHILDREN,
        OpV::Ping => OP_PING,
        OpV::CloseSession => OP_CLOSE_SESSION,
        OpV::WatcherEvent { .. } => OP_WATCHER_EVENT,
    }
}

/// The opcode-specific payload bytes of each variant.
pub open spec fn spec_payload(op: OpV) -> Seq<u8> {
    match op {
        OpV::Connect { protocol_version, last_zxid, timeout_ms, session_id, password } =>
            enc_i32(protocol_version) + enc_i64(last_zxid) + enc_i32(timeout_ms)
                + enc_i64(session_id) + enc_buf(password),
        OpV::ConnectReply { protocol_version, negotiated_timeout_ms, session_id, password } =>
            enc_i32(protocol_version) + enc_i32(negotiated_timeout_ms)
                + enc_i64(session_id) + enc_buf(password),
        OpV::Create { path, data, mode } =>
            enc_buf(path) + enc_buf(data) + be32(mode_code(mode)),
        OpV::Delete { path, version } =>
            enc_buf(path) + enc_i32(version),
        OpV::Exists { path, watch } =>
            enc_buf(path) + enc_bool(watch),
        OpV::GetData { path, watch } =>
            enc_buf(path) + enc_bool(watch),
        OpV::SetData { path, data, version } =>
            enc_buf(path) + enc_buf(data) + enc_i32(version),
        OpV::GetChildren { path, watch } =>
            enc_buf(path) + enc_bool(watch),
        OpV::Ping => Seq::empty(),
        OpV::CloseSession => Seq::empty(),
        OpV::WatcherEvent { kind, path } =>
            be32(kind_code(kind)) + enc_buf(path),
    }
}

/// Everything the length prefix covers: header then payload.
pub open spec fn spec_body(f: FrameV) -> Seq<u8> {
    enc_i32(f.xid) + be32(opcode_of(f.op)) + spec_payload(f.op)
}

/// The complete wire image of a frame.
pub open spec fn spec_frame_bytes(f: FrameV) -> Seq<u8> {
    be32(spec_body(f).len() as u32) + spec_body(f)
}

/// A frame is encodable exactly when its body fits under the length cap.
pub open spec fn frame_fits(f: FrameV) -> bool {
    spec_body(f).len() <= MAX_FRAME_LEN
}

// ---------------------------------------------------------------------
// Spec-level decoding.
// ---------------------------------------------------------------------

/// The 32-bit word whose big-endian bytes sit at `s[i..i+4]`.
pub open spec fn take_u32(s: Seq<u8>, i: int) -> u32
    recommends 0 <= i, i + 4 <= s.len(),
{
    ((s[i] as u32) << 24) | ((s[i + 1] as u32) << 16) | ((s[i + 2] as u32) << 8) | (s[i + 3] as u32)
}

/// The 64-bit word whose big-endian bytes sit at `s[i..i+8]`.
pub open spec fn take_u64(s: Seq<u8>, i: int) -> u64
    recommends 0 <= i, i + 8 <= s.len(),
{
    ((take_u32(s, i) as u64) << 32) | (take_u32(s, i + 4) as u64)
}

/// Parses a length-prefixed buffer starting at `i`; yields the buffer
/// and the position just past it.
pub open spec fn parse_buf(s: Seq<u8>, i: int) -> Option<(Seq<u8>, int)>
    recommends 0 <= i,
{
    if i + 4 <= s.len() {
        let n = take_u32(s, i) as int;
        if i + 4 + n <= s.len() {
            Some((s.subrange(i + 4, i + 4 + n), i + 4 + n))
        } else {
            None
        }
    } else {
        None
    }
}

/// Parses a single boolean byte at `i`.
pub open spec fn parse_bool(s: Seq<u8>, i: int) -> Option<bool>
    recommends 0 <= i, i < s.len(),
{
    if s[i] == 1u8 {
        Some(true)
    } else if s[i] == 0u8 {
        Some(false)
    } else {
        None
    }
}

pub open spec fn dec_mode(c: u32) -> Option<CreateMode> {
    if c == 0 {
        Some(CreateMode::Persistent)
    } else if c == 1 {
        Some(CreateMode::Ephemeral)
    } else if c == 2 {
        Some(CreateMode::PersistentSequential)
    } else if c == 3 {
        Some(CreateMode::EphemeralSequential)
    } else {
        None
    }
}

pub open spec fn dec_kind(c: u32) -> Option<WatchKind> {
    if c == 1 {
        Some(WatchKind::Data)
    } else if c == 2 {
        Some(WatchKind::Children)
    } else if c == 3 {
        Some(WatchKind::Exists)
    } else {
        None
    }
}

pub open spec fn dec_connect(p: Seq<u8>) -> Option<OpV> {
    if p.len() >= 24 {
        match parse_buf(p, 24) {
            Some((pw, end)) => if end == p.len() {
                Some(OpV::Connect {
                    protocol_version: take_u32(p, 0) as i32,
                    last_zxid: take_u64(p, 4) as i64,
                    timeout_ms: take_u32(p, 12) as i32,
                    session_id: take_u64(p, 16) as i64,
                    password: pw,
                })
            } else {
                None
            },
            None => None,
        }
    } else {
        None
    }
}

pub open spec fn dec_connect_reply(p: Seq<u8>) -> Option<OpV> {
    if p.len() >= 16 {
        match parse_buf(p, 16) {
            Some((pw, end)) => if end == p.len() {
                Some(OpV::ConnectReply {
                    protocol_version: take_u32(p, 0) as i32,
                    negotiated_timeout_ms: take_u32(p, 4) as i32,
                    session_id: take_u64(p, 8) as i64,
                    password: pw,
                })
            } else {
                None
            },
            None => None,
        }
    } else {
        None
    }
}

pub open spec fn dec_create(p: Seq<u8>) -> Option<OpV> {
    match parse_buf(p, 0) {
        Some((path, i1)) => match parse_buf(p, i1) {
            Some((data, i2)) => if i2 + 4 == p.len() {
                match dec_mode(take_u32(p, i2)) {
                    Some(mode) => Some(OpV::Create { path, data, mode }),
                    None => None,
                }
            } else {
                None
            },
            None => None,
        },
        None => None,
    }
}

pub open spec fn dec_delete(p: Seq<u8>) -> Option<OpV> {
    match parse_buf(p, 0) {
        Some((path, i1)) => if i1 + 4 == p.len() {
            Some(OpV::Delete { path, version: take_u32(p, i1) as i32 })
        } else {
            None
        },
        None => None,
    }
}

/// Shared layout of `Exists`, `GetData` and `GetChildren` payloads.
pub open spec fn dec_path_watch(p: Seq<u8>) -> Option<(Seq<u8>, bool)> {
    match parse_buf(p, 0) {
        Some((path, i1)) => if i1 + 1 == p.len() {
            match parse_bool(p, i1) {
                Some(w) => Some((path, w)),
                None => None,
            }
        } else {
            None
        },
        None => None,
    }
}

pub open spec fn dec_set_data(p: Seq<u8>) -> Option<OpV> {
    match parse_buf(p, 0) {
        Some((path, i1)) => match parse_buf(p, i1) {
            Some((data, i2)) => if i2 + 4 == p.len() {
                Some(OpV::SetData { path, data, version: take_u32(p, i2) as i32 })
            } else {
                None
            },
            None => None,
        },
        None => None,
    }
}

pub open spec fn dec_watcher_event(p: Seq<u8>) -> Option<OpV> {
    if p.len() >= 4 {
        match dec_kind(take_u32(p, 0)) {
            Some(kind) => match parse_buf(p, 4) {
                Some((path, end)) => if end == p.len() {
                    Some(OpV::WatcherEvent { kind, path })
                } else {
                    None
                },
                None => None,
            },
            None => None,
        }
    } else {
        None
    }
}

/// Payload decoding, dispatched on the header's opcode.
pub open spec fn dec_payload(opc: u32, p: Seq<u8>) -> Option<OpV> {
    if opc == OP_CONNECT {
        dec_connect(p)
    } else if opc == OP_CONNECT_REPLY {
        dec_connect_reply(p)
    } else if opc == OP_CREATE {
        dec_create(p)
    } else if opc == OP_DELETE {
        dec_delete(p)
    } else if opc == OP_EXISTS {
        match dec_path_watch(p) {
            Some((path, watch)) => Some(OpV::Exists { path, watch }),
            None => None,
        }
    } else if opc == OP_GET_DATA {
        match dec_path_watch(p) {
            Some((path, watch)) => Some(OpV::GetData { path, watch }),
            None => None,
        }
    } else if opc == OP_GET_CHILDREN {
        match dec_path_watch(p) {
            Some((path, watch)) => Some(OpV::GetChildren { path, watch }),
            None => None,
        }
    } else if opc == OP_SET_DATA {
        dec_set_data(p)
    } else if opc == OP_PING {
        if p.len() == 0 { Some(OpV::Ping) } else { None }
    } else if opc == OP_CLOSE_SESSION {
        if p.len() == 0 { Some(OpV::CloseSession) } else { None }
    } else if opc == OP_WATCHER_EVENT {
        dec_watcher_event(p)
    } else {
        None
    }
}

/// Full spec-level decoding of a frame: length prefix checked against
/// the cap and the input's length, then header, then payload; any
/// under- or over-read yields `None`.
pub open spec fn spec_decode(s: Seq<u8>) -> Option<FrameV> {
    if s.len() < 4 {
        None
    } else {
        let n = take_u32(s, 0);
        if n > MAX_FRAME_LEN || s.len() != n + 4 || n < 8 {
            None
        } else {
            let b = s.subrange(4, s.len() as int);
            match dec_payload(take_u32(b, 4), b.subrange(8, b.len() as int)) {
                Some(op) => Some(FrameV { xid: take_u32(b, 0) as i32, op }),
                None => None,
            }
        }
    }
}

// ---------------------------------------------------------------------
// Round trip: decoding an encoding yields the original frame.
// ---------------------------------------------------------------------

/// Reading four bytes that are the big-endian image of `x` gives `x` back.
proof fn lemma_take_be32(s: Seq<u8>, i: int, x: u32)
    requires
        0 <= i,
        i + 4 <= s.len(),
        s.subrange(i, i + 4) == be32(x),
    ensures
        take_u32(s, i) == x,
{
    assert(s[i] == be32(x)[0]) by {
        assert(s.subrange(i, i + 4)[0] == s[i]);
    }
    assert(s[i + 1] == be32(x)[1]) by {
        assert(s.subrange(i, i + 4)[1] == s[i + 1]);
    }
    assert(s[i + 2] == be32(x)[2]) by {
        assert(s.subrange(i, i + 4)[2] == s[i + 2]);
    }
    assert(s[i + 3] == be32(x)[3]) by {
        assert(s.subrange(i, i + 4)[3] == s[i + 3]);
    }
    let b0 = s[i];
    let b1 = s[i + 1];
    let b2 = s[i + 2];
    let b3 = s[i + 3];
    assert(((b0 as u32) << 24) | ((b1 as u32) << 16) | ((b2 as u32) << 8) | (b3 as u32) == x)
        by (bit_vector)
        requires
            b0 == (x >> 24) as u8,
            b1 == (x >> 16) as u8,
            b2 == (x >> 8) as u8,
            b3 == x as u8,
    ;
}

/// Reading eight bytes that are the big-endian image of `x` gives `x` back.
proof fn lemma_take_be64(s: Seq<u8>, i: int, x: u64)
    requires
        0 <= i,
        i + 8 <= s.len(),
        s.subrange(i, i + 8) == be64(x),
    ensures
        take_u64(s, i) == x,
{
    let hi = (x >> 32) as u32;
    let lo = x as u32;
    assert forall|k: int| 0 <= k < 4 implies s.subrange(i, i + 4)[k] == be32(hi)[k] by {
        assert(s.subrange(i, i + 8)[k] == s[i + k]);
        assert(s.subrange(i, i + 4)[k] == s[i + k]);
        assert(be64(x)[k] == be32(hi)[k]);
    }
    assert(s.subrange(i, i + 4) =~= be32(hi));
    assert forall|k: int| 0 <= k < 4 implies s.subrange(i + 4, i + 8)[k] == be32(lo)[k] by {
        assert(s.subrange(i, i + 8)[k + 4] == s[i + k + 4]);
        assert(s.subrange(i + 4, i + 8)[k] == s[i + 4 + k]);
        assert(be64(x)[k + 4] == be32(lo)[k]);
    }
    assert(s.subrange(i + 4, i + 8) =~= be32(lo));
    lemma_take_be32(s, i, hi);
    lemma_take_be32(s, i + 4, lo);
    assert(((hi as u64) << 32) | (lo as u64) == x)
        by (bit_vector)
        requires
            hi == (x >> 32) as u32,
            lo == x as u32,
    ;
}

/// Casting a 32-bit word to signed and back through unsigned is lossless.
proof fn lemma_i32_cast(x: i32)
    ensures
        (x as u32) as i32 == x,
{
    assert((x as u32) as i32 == x) by (bit_vector);
}

/// Casting a 64-bit word to signed and back through unsigned is lossless.
proof fn lemma_i64_cast(x: i64)
    ensures
        (x as u64) as i64 == x,
{
    assert((x as u64) as i64 == x) by (bit_vector);
}

/// A length-prefixed buffer laid down at `i` parses back to itself.
proof fn lemma_parse_buf(s: Seq<u8>, i: int, d: Seq<u8>)
    requires
        0 <= i,
        d.len() <= u32::MAX,
        i + 4 + d.len() <= s.len(),
        s.subrange(i, i + 4) == be32(d.len() as u32),
        s.subrange(i + 4, i + 4 + d.len()) == d,
    ensures
        parse_buf(s, i) == Some((d, i + 4 + d.len())),
{
    lemma_take_be32(s, i, d.len() as u32);
}

/// `dec_mode` inverts `mode_code`.
proof fn lemma_mode_code(m: CreateMode)
    ensures
        dec_mode(mode_code(m)) == Some(m),
{
}

/// `dec_kind` inverts `kind_code`.
proof fn lemma_kind_code(k: WatchKind)
    ensures
        dec_kind(kind_code(k)) == Some(k),
{
}

// ---------------------------------------------------------------------
// Executable encoding.
// ---------------------------------------------------------------------

/// Appends the four big-endian bytes of `x`.
fn push_u32_be(v: &mut Vec<u8>, x: u32)
    ensures
        final(v)@ == old(v)@ + be32(x),
{
    v.push(#[verifier::truncate] ((x >> 24) as u8));
    v.push(#[verifier::truncate] ((x >> 16) as u8));
    v.push(#[verifier::truncate] ((x >> 8) as u8));
    v.push(#[verifier::truncate] (x as u8));
    assert(v@ =~= old(v)@ + be32(x));
}

/// Appends the eight big-endian bytes of `x`.
fn push_u64_be(v: &mut Vec<u8>, x: u64)
    ensures
        final(v)@ == old(v)@ + be64(x),
{
    push_u32_be(v, #[verifier::truncate] ((x >> 32) as u32));
    push_u32_be(v, #[verifier::truncate] (x as u32));
    assert(v@ =~= old(v)@ + be64(x));
}

fn push_i32_be(v: &mut Vec<u8>, x: i32)
    ensures
        final(v)@ == old(v)@ + enc_i32(x),
{
    push_u32_be(v, #[verifier::truncate] (x as u32));
}

fn push_i64_be(v: &mut Vec<u8>, x: i64)
    ensures
        final(v)@ == old(v)@ + enc_i64(x),
{
    push_u64_be(v, #[verifier::truncate] (x as u64));
}

fn push_bool(v: &mut Vec<u8>, b: bool)
    ensures
        final(v)@ == old(v)@ + enc_bool(b),
{
    v.push(if b { 1u8 } else { 0u8 });
    assert(v@ =~= old(v)@ + enc_bool(b));
}

/// Appends a length-prefixed buffer.
fn push_buf(v: &mut Vec<u8>, b: &Vec<u8>)
    requires
        b@.len() <= u32::MAX,
    ensures
        final(v)@ == old(v)@ + enc_buf(b@),
{
    push_u32_be(v, b.len() as u32);
    let mut i: usize = 0;
    while i < b.len()
        invariant
            i <= b@.len(),
            b@.len() <= u32::MAX,
            v@ == old(v)@ + be32(b@.len() as u32) + b@.subrange(0, i as int),
        decreases b@.len() - i,
    {
        let ghost prev = v@;
        v.push(b[i]);
        assert(v@ =~= old(v)@ + be32(b@.len() as u32) + b@.subrange(0, i + 1 as int));
        i = i + 1;
    }
    assert(b@.subrange(0, b@.len() as int) =~= b@);
    assert(v@ =~= old(v)@ + enc_buf(b@));
}

/// The header opcode of each operation.
pub fn op_code_of(op: &Op) -> (c: u32)
    ensures
        c == opcode_of(op@),
{
    match op {
        Op::Connect { .. } => OP_CONNECT,
        Op::ConnectReply { .. } => OP_CONNECT_REPLY,
        Op::Create { .. } => OP_CREATE,
        Op::Delete { .. } => OP_DELETE,
        Op::Exists { .. } => OP_EXISTS,
        Op::GetData { .. } => OP_GET_DATA,
        Op::SetData { .. } => OP_SET_DATA,
        Op::GetChildren { .. } => OP_GET_CHILDREN,
        Op::Ping => OP_PING,
        Op::CloseSession => OP_CLOSE_SESSION,
        Op::WatcherEvent { .. } => OP_WATCHER_EVENT,
    }
}

/// Length the payload will occupy on the wire, or `None` when the frame
/// could not fit under the length cap anyway.
fn wire_payload_len(op: &Op) -> (r: Option<usize>)
    ensures
        r is Some ==> r->0 == spec_payload(op@).len(),
        r is None ==> spec_payload(op@).len() + 8 > MAX_FRAME_LEN,
{
    let cap = MAX_FRAME_LEN as usize;
    match op {
        Op::Connect { password, .. } => {
            if password.len() > cap { None } else { Some(28 + password.len()) }
        },
        Op::ConnectReply { password, .. } => {
            if password.len() > cap { None } else { Some(20 + password.len()) }
        },
        Op::Create { path, data, .. } => {
            if path.len() > cap || data.len() > cap { None } else { Some(12 + path.len() + data.len()) }
        },
        Op::Delete { path, .. } => {
            if path.len() > cap { None } else { Some(8 + path.len()) }
        },
        Op::Exists { path, .. } => {
            if path.len() > cap { None } else { Some(5 + path.len()) }
        },
        Op::GetData { path, .. } => {
            if path.len() > cap { None } else { Some(5 + path.len()) }
        },
        Op::SetData { path, data, .. } => {
            if path.len() > cap || data.len() > cap { None } else { Some(12 + path.len() + data.len()) }
        },
        Op::GetChildren { path, .. } => {
            if path.len() > cap { None } else { Some(5 + path.len()) }
        },
        Op::Ping => Some(0),
        Op::CloseSession => Some(0),
        Op::WatcherEvent { path, .. } => {
            if path.len() > cap { None } else { Some(8 + path.len()) }
        },
    }
}

/// Appends the opcode-specific payload bytes of `op`.
fn push_payload(v: &mut Vec<u8>, op: &Op)
    requires
        spec_payload(op@).len() <= MAX_FRAME_LEN,
    ensures
        final(v)@ == old(v)@ + spec_payload(op@),
{
    match op {
        Op::Connect { protocol_version, last_zxid, timeout_ms, session_id, password } => {
            push_i32_be(v, *protocol_version);
            push_i64_be(v, *last_zxid);
            push_i32_be(v, *timeout_ms);
            push_i64_be(v, *session_id);
            push_buf(v, password);
            assert(v@ =~= old(v)@ + spec_payload(op@));
        },
        Op::ConnectReply { protocol_version, negotiated_timeout_ms, session_id, password } => {
            push_i32_be(v, *protocol_version);
            push_i32_be(v, *negotiated_timeout_ms);
            push_i64_be(v, *session_id);
            push_buf(v, password);
            assert(v@ =~= old(v)@ + spec_payload(op@));
        },
        Op::Create { path, data, mode } => {
            push_buf(v, path);
            push_buf(v, data);
            let c: u32 = match mode {
                CreateMode::Persistent => 0,
                CreateMode::Ephemeral => 1,
                CreateMode::PersistentSequential => 2,
                CreateMode::EphemeralSequential => 3,
            };
            push_u32_be(v, c);
            assert(v@ =~= old(v)@ + spec_payload(op@));
        },
        Op::Delete { path, version } => {
            push_buf(v, path);
            push_i32_be(v, *version);
            assert(v@ =~= old(v)@ + spec_payload(op@));
        },
        Op::Exists { path, watch } => {
            push_buf(v, path);
            push_bool(v, *watch);
            assert(v@ =~= old(v)@ + spec_payload(op@));
        },
        Op::GetData { path, watch } => {
            push_buf(v, path);
            push_bool(v, *watch);
            assert(v@ =~= old(v)@ + spec_payload(op@));
        },
        Op::SetData { path, data, version } => {
            push_buf(v, path);
            push_buf(v, data);
            push_i32_be(v, *version);
            assert(v@ =~= old(v)@ + spec_payload(op@));
        },
        Op::GetChildren { path, watch } => {
            push_buf(v, path);
            push_bool(v, *watch);
            assert(v@ =~= old(v)@ + spec_payload(op@));
        },
        Op::Ping => {
            assert(v@ =~= old(v)@ + spec_payload(op@));
        },
        Op::CloseSession => {
            assert(v@ =~= old(v)@ + spec_payload(op@));
        },
        Op::WatcherEvent { kind, path } => {
            let c: u32 = match kind {
                WatchKind::Data => 1,
                WatchKind::Children => 2,
                WatchKind::Exists => 3,
            };
            push_u32_be(v, c);
            push_buf(v, path);
            assert(v@ =~= old(v)@ + spec_payload(op@));
        },
    }
}

/// Encodes a frame to its wire bytes; fails with `MalformedFrame` exactly
/// when the frame's body would not fit under the length cap.
pub fn encode(f: &Frame) -> (r: Result<Vec<u8>, Error>)
    ensures
        frame_fits(f@) <==> r is Ok,
        r is Ok ==> r->Ok_0@ == spec_frame_bytes(f@),
        r is Err ==> r->Err_0 == Error::MalformedFrame,
{
    match wire_payload_len(&f.op) {
        None => Err(Error::MalformedFrame),
        Some(n) => {
            if n > (MAX_FRAME_LEN as usize) - 8 {
                return Err(Error::MalformedFrame);
            }
            let mut out: Vec<u8> = Vec::new();
            push_u32_be(&mut out, (n + 8) as u32);
            push_i32_be(&mut out, f.xid);
            push_u32_be(&mut out, op_code_of(&f.op));
            push_payload(&mut out, &f.op);
            assert(out@ =~= spec_frame_bytes(f@));
            Ok(out)
        },
    }
}

/// A connect payload parses back to its five fields.
proof fn lemma_dec_connect(p: Seq<u8>, protocol_version: i32, last_zxid: i64, timeout_ms: i32, session_id: i64, password: Seq<u8>)
    requires
        p == enc_i32(protocol_version) + enc_i64(last_zxid) + enc_i32(timeout_ms)
            + enc_i64(session_id) + enc_buf(password),
        password.len() <= u32::MAX,
    ensures
        dec_connect(p) == Some(OpV::Connect { protocol_version, last_zxid, timeout_ms, session_id, password }),
{
    assert(p.subrange(0, 4) =~= be32(protocol_version as u32));
    assert(p.subrange(4, 12) =~= be64(last_zxid as u64));
    assert(p.subrange(12, 16) =~= be32(timeout_ms as u32));
    assert(p.subrange(16, 24) =~= be64(session_id as u64));
    assert(p.subrange(24, 28) =~= be32(password.len() as u32));
    assert(p.subrange(28, 28 + password.len() as int) =~= password);
    lemma_take_be32(p, 0, protocol_version as u32);
    lemma_take_be64(p, 4, last_zxid as u64);
    lemma_take_be32(p, 12, timeout_ms as u32);
    lemma_take_be64(p, 16, session_id as u64);
    lemma_parse_buf(p, 24, password);
    lemma_i32_cast(protocol_version);
    lemma_i64_cast(last_zxid);
    lemma_i32_cast(timeout_ms);
    lemma_i64_cast(session_id);
}

/// A connect-reply payload parses back to its four fields.
proof fn lemma_dec_connect_reply(p: Seq<u8>, protocol_version: i32, negotiated_timeout_ms: i32, session_id: i64, password: Seq<u8>)
    requires
        p == enc_i32(protocol_version) + enc_i32(negotiated_timeout_ms)
            + enc_i64(session_id) + enc_buf(password),
        password.len() <= u32::MAX,
    ensures
        dec_connect_reply(p) == Some(OpV::ConnectReply { protocol_version, negotiated_timeout_ms, session_id, password }),
{
    assert(p.subrange(0, 4) =~= be32(protocol_version as u32));
    assert(p.subrange(4, 8) =~= be32(negotiated_timeout_ms as u32));
    assert(p.subrange(8, 16) =~= be64(session_id as u64));
    assert(p.subrange(16, 20) =~= be32(password.len() as u32));
    assert(p.subrange(20, 20 + password.len() as int) =~= password);
    lemma_take_be32(p, 0, protocol_version as u32);
    lemma_take_be32(p, 4, negotiated_timeout_ms as u32);
    lemma_take_be64(p, 8, session_id as u64);
    lemma_parse_buf(p, 16, password);
    lemma_i32_cast(protocol_version);
    lemma_i32_cast(negotiated_timeout_ms);
    lemma_i64_cast(session_id);
}

/// Two length-prefixed buffers and a trailing word parse back to their
/// three parts; shared by the create and set-data layouts.
proof fn lemma_dec_two_bufs_word(p: Seq<u8>, path: Seq<u8>, data: Seq<u8>, w: u32)
    requires
        p == enc_buf(path) + enc_buf(data) + be32(w),
        path.len() <= u32::MAX,
        data.len() <= u32::MAX,
    ensures
        parse_buf(p, 0) == Some((path, 4 + path.len() as int)),
        parse_buf(p, 4 + path.len() as int)
            == Some((data, 8 + path.len() as int + data.len() as int)),
        take_u32(p, 8 + path.len() as int + data.len() as int) == w,
        p.len() == 12 + path.len() + data.len(),
{
    let i1 = 4 + path.len() as int;
    let i2 = i1 + 4 + data.len() as int;
    assert(p.subrange(0, 4) =~= be32(path.len() as u32));
    assert(p.subrange(4, i1) =~= path);
    lemma_parse_buf(p, 0, path);
    assert(p.subrange(i1, i1 + 4) =~= be32(data.len() as u32));
    assert(p.subrange(i1 + 4, i2) =~= data);
    lemma_parse_buf(p, i1, data);
    assert(p.subrange(i2, i2 + 4) =~= be32(w));
    lemma_take_be32(p, i2, w);
}

/// A delete payload parses back to its path and expected version.
proof fn lemma_dec_delete(p: Seq<u8>, path: Seq<u8>, version: i32)
    requires
        p == enc_buf(path) + enc_i32(version),
        path.len() <= u32::MAX,
    ensures
        dec_delete(p) == Some(OpV::Delete { path, version }),
{
    let i1 = 4 + path.len() as int;
    assert(p.subrange(0, 4) =~= be32(path.len() as u32));
    assert(p.subrange(4, i1) =~= path);
    lemma_parse_buf(p, 0, path);
    assert(p.subrange(i1, i1 + 4) =~= be32(version as u32));
    lemma_take_be32(p, i1, version as u32);
    lemma_i32_cast(version);
}

/// A watcher-event payload parses back to its kind and path.
proof fn lemma_dec_watcher_event(p: Seq<u8>, kind: WatchKind, path: Seq<u8>)
    requires
        p == be32(kind_code(kind)) + enc_buf(path),
        path.len() <= u32::MAX,
    ensures
        dec_watcher_event(p) == Some(OpV::WatcherEvent { kind, path }),
{
    assert(p.subrange(0, 4) =~= be32(kind_code(kind)));
    lemma_take_be32(p, 0, kind_code(kind));
    lemma_kind_code(kind);
    assert(p.subrange(4, 8) =~= be32(path.len() as u32));
    assert(p.subrange(8, 8 + path.len() as int) =~= path);
    lemma_parse_buf(p, 4, path);
}

/// Every encodable payload decodes, under its own opcode, to itself.
proof fn lemma_dec_payload(op: OpV)
    requires
        spec_payload(op).len() <= MAX_FRAME_LEN,
    ensures
        dec_payload(opcode_of(op), spec_payload(op)) == Some(op),
{
    let p = spec_payload(op);
    match op {
        OpV::Connect { protocol_version, last_zxid, timeout_ms, session_id, password } => {
            lemma_dec_connect(p, protocol_version, last_zxid, timeout_ms, session_id, password);
        },
        OpV::ConnectReply { protocol_version, negotiated_timeout_ms, session_id, password } => {
            lemma_dec_connect_reply(p, protocol_version, negotiated_timeout_ms, session_id, password);
        },
        OpV::Create { path, data, mode } => {
            lemma_dec_two_bufs_word(p, path, data, mode_code(mode));
            lemma_mode_code(mode);
        },
        OpV::Delete { path, version } => {
            lemma_dec_delete(p, path, version);
        },
        OpV::Exists { path, watch } => {
            lemma_dec_path_watch(p, path, watch);
        },
        OpV::GetData { path, watch } => {
            lemma_dec_path_watch(p, path, watch);
        },
        OpV::SetData { path, data, version } => {
            lemma_dec_two_bufs_word(p, path, data, version as u32);
            lemma_i32_cast(version);
        },
        OpV::GetChildren { path, watch } => {
            lemma_dec_path_watch(p, path, watch);
        },
        OpV::Ping => {},
        OpV::CloseSession => {},
        OpV::WatcherEvent { kind, path } => {
            lemma_dec_watcher_event(p, kind, path);
        },
    }
}

/// The shared path-plus-watch layout parses back to its two fields.
proof fn lemma_dec_path_watch(p: Seq<u8>, path: Seq<u8>, watch: bool)
    requires
        p == enc_buf(path) + enc_bool(watch),
        path.len() <= u32::MAX,
    ensures
        dec_path_watch(p) == Some((path, watch)),
{
    let i1 = 4 + path.len() as int;
    assert(p.subrange(0, 4) =~= be32(path.len() as u32));
    assert(p.subrange(4, i1) =~= path);
    lemma_parse_buf(p, 0, path);
    assert(p[i1] == (if watch { 1u8 } else { 0u8 }));
}

/// The codec is symmetric: any frame whose body fits under the length
/// cap decodes, from its own encoding, to exactly itself.
pub proof fn lemma_decode_encode(f: FrameV)
    requires
        frame_fits(f),
    ensures
        spec_decode(spec_frame_bytes(f)) == Some(f),
{
    let body = spec_body(f);
    let s = spec_frame_bytes(f);
    let n = body.len() as u32;
    assert(s.subrange(0, 4) =~= be32(n));
    lemma_take_be32(s, 0, n);
    let b = s.subrange(4, s.len() as int);
    assert(b =~= body);
    assert(b.subrange(0, 4) =~= be32(f.xid as u32));
    lemma_take_be32(b, 0, f.xid as u32);
    lemma_i32_cast(f.xid);
    assert(b.subrange(4, 8) =~= be32(opcode_of(f.op)));
    lemma_take_be32(b, 4, opcode_of(f.op));
    assert(b.subrange(8, b.len() as int) =~= spec_payload(f.op));
    lemma_dec_payload(f.op);
}

// ---------------------------------------------------------------------
// Executable decoding.
// ---------------------------------------------------------------------

/// Reads a big-endian 32-bit word at `i`.
fn read_u32_be(s: &Vec<u8>, i: usize) -> (x: u32)
    requires
        i + 4 <= s@.len(),
    ensures
        x == take_u32(s@, i as int),
{
    let l: usize = s.len();
    ((s[i] as u32) << 24u32) | ((s[i + 1] as u32) << 16u32) | ((s[i + 2] as u32) << 8u32) | (s[i + 3] as u32)
}

/// Reads a big-endian 64-bit word at `i`.
fn read_u64_be(s: &Vec<u8>, i: usize) -> (x: u64)
    requires
        i + 8 <= s@.len(),
    ensures
        x == take_u64(s@, i as int),
{
    let l: usize = s.len();
    ((read_u32_be(s, i) as u64) << 32u64) | (read_u32_be(s, i + 4) as u64)
}

/// Copies `s[from..to]` into a fresh vector.
fn copy_range(s: &Vec<u8>, from: usize, to: usize) -> (r: Vec<u8>)
    requires
        from <= to,
        to <= s@.len(),
    ensures
        r@ == s@.subrange(from as int, to as int),
{
    let mut r: Vec<u8> = Vec::new();
    let mut i: usize = from;
    while i < to
        invariant
            from <= i <= to,
            to <= s@.len(),
            r@ == s@.subrange(from as int, i as int),
        decreases to - i,
    {
        r.push(s[i]);
        assert(r@ =~= s@.subrange(from as int, i + 1 as int));
        i = i + 1;
    }
    r
}

/// Reads a length-prefixed buffer at `i`, exactly as `parse_buf` does.
fn parse_buf_exec(p: &Vec<u8>, i: usize) -> (r: Option<(Vec<u8>, usize)>)
    requires
        i <= p@.len(),
    ensures
        match r {
            Some(dj) => parse_buf(p@, i as int) == Some((dj.0@, dj.1 as int)) && dj.1 <= p@.len(),
            None => parse_buf(p@, i as int) is None,
        },
{
    if p.len() < 4 || i > p.len() - 4 {
        return None;
    }
    let n = read_u32_be(p, i) as usize;
    if n > p.len() - (i + 4) {
        return None;
    }
    let d = copy_range(p, i + 4, i + 4 + n);
    Some((d, i + 4 + n))
}

/// Reads the boolean byte at `i`, exactly as `parse_bool` does.
fn parse_bool_exec(p: &Vec<u8>, i: usize) -> (r: Option<bool>)
    requires
        i < p@.len(),
    ensures
        r == parse_bool(p@, i as int),
{
    if p[i] == 1u8 {
        Some(true)
    } else if p[i] == 0u8 {
        Some(false)
    } else {
        None
    }
}

fn dec_connect_exec(p: &Vec<u8>) -> (r: Result<Op, Error>)
    ensures
        r is Ok ==> dec_connect(p@) == Some(r->Ok_0@),
        r is Err ==> dec_connect(p@) is None && r->Err_0 == Error::MalformedFrame,
{
    if p.len() < 24 {
        return Err(Error::MalformedFrame);
    }
    match parse_buf_exec(p, 24) {
        Some((pw, end)) => {
            if end != p.len() {
                return Err(Error::MalformedFrame);
            }
            Ok(Op::Connect {
                protocol_version: #[verifier::truncate] (read_u32_be(p, 0) as i32),
                last_zxid: #[verifier::truncate] (read_u64_be(p, 4) as i64),
                timeout_ms: #[verifier::truncate] (read_u32_be(p, 12) as i32),
                session_id: #[verifier::truncate] (read_u64_be(p, 16) as i64),
                password: pw,
            })
        },
        None => Err(Error::MalformedFrame),
    }
}

fn dec_connect_reply_exec(p: &Vec<u8>) -> (r: Result<Op, Error>)
    ensures
        r is Ok ==> dec_connect_reply(p@) == Some(r->Ok_0@),
        r is Err ==> dec_connect_reply(p@) is None && r->Err_0 == Error::MalformedFrame,
{
    if p.len() < 16 {
        return Err(Error::MalformedFrame);
    }
    match parse_buf_exec(p, 16) {
        Some((pw, end)) => {
            if end != p.len() {
                return Err(Error::MalformedFrame);
            }
            Ok(Op::ConnectReply {
                protocol_version: #[verifier::truncate] (read_u32_be(p, 0) as i32),
                negotiated_timeout_ms: #[verifier::truncate] (read_u32_be(p, 4) as i32),
                session_id: #[verifier::truncate] (read_u64_be(p, 8) as i64),
                password: pw,
            })
        },
        None => Err(Error::MalformedFrame),
    }
}

fn dec_create_exec(p: &Vec<u8>) -> (r: Result<Op, Error>)
    ensures
        r is Ok ==> dec_create(p@) == Some(r->Ok_0@),
        r is Err ==> dec_create(p@) is None && r->Err_0 == Error::MalformedFrame,
{
    match parse_buf_exec(p, 0) {
        Some((path, i1)) => match parse_buf_exec(p, i1) {
            Some((data, i2)) => {
                if p.len() - i2 != 4 {
                    return Err(Error::MalformedFrame);
                }
                let c = read_u32_be(p, i2);
                let mode = if c == 0 {
                    CreateMode::Persistent
                } else if c == 1 {
                    CreateMode::Ephemeral
                } else if c == 2 {
                    CreateMode::PersistentSequential
                } else if c == 3 {
                    CreateMode::EphemeralSequential
                } else {
                    return Err(Error::MalformedFrame);
                };
                Ok(Op::Create { path, data, mode })
            },
            None => Err(Error::MalformedFrame),
        },
        None => Err(Error::MalformedFrame),
    }
}

fn dec_delete_exec(p: &Vec<u8>) -> (r: Result<Op, Error>)
    ensures
        r is Ok ==> dec_delete(p@) == Some(r->Ok_0@),
        r is Err ==> dec_delete(p@) is None && r->Err_0 == Error::MalformedFrame,
{
    match parse_buf_exec(p, 0) {
        Some((path, i1)) => {
            if p.len() - i1 != 4 {
                return Err(Error::MalformedFrame);
            }
            let version = #[verifier::truncate] (read_u32_be(p, i1) as i32);
            Ok(Op::Delete { path, version })
        },
        None => Err(Error::MalformedFrame),
    }
}

fn dec_path_watch_exec(p: &Vec<u8>) -> (r: Result<(Vec<u8>, bool), Error>)
    ensures
        r is Ok ==> dec_path_watch(p@) == Some((r->Ok_0.0@, r->Ok_0.1)),
        r is Err ==> dec_path_watch(p@) is None && r->Err_0 == Error::MalformedFrame,
{
    match parse_buf_exec(p, 0) {
        Some((path, i1)) => {
            if p.len() - i1 != 1 {
                return Err(Error::MalformedFrame);
            }
            match parse_bool_exec(p, i1) {
                Some(w) => Ok((path, w)),
                None => Err(Error::MalformedFrame),
            }
        },
        None => Err(Error::MalformedFrame),
    }
}

fn dec_set_data_exec(p: &Vec<u8>) -> (r: Result<Op, Error>)
    ensures
        r is Ok ==> dec_set_data(p@) == Some(r->Ok_0@),
        r is Err ==> dec_set_data(p@) is None && r->Err_0 == Error::MalformedFrame,
{
    match parse_buf_exec(p, 0) {
        Some((path, i1)) => match parse_buf_exec(p, i1) {
            Some((data, i2)) => {
                if p.len() - i2 != 4 {
                    return Err(Error::MalformedFrame);
                }
                let version = #[verifier::truncate] (read_u32_be(p, i2) as i32);
                Ok(Op::SetData { path, data, version })
            },
            None => Err(Error::MalformedFrame),
        },
        None => Err(Error::MalformedFrame),
    }
}

fn dec_watcher_event_exec(p: &Vec<u8>) -> (r: Result<Op, Error>)
    ensures
        r is Ok ==> dec_watcher_event(p@) == Some(r->Ok_0@),
        r is Err ==> dec_watcher_event(p@) is None && r->Err_0 == Error::MalformedFrame,
{
    if p.len() < 4 {
        return Err(Error::MalformedFrame);
    }
    let c = read_u32_be(p, 0);
    let kind = if c == 1 {
        WatchKind::Data
    } else if c == 2 {
        WatchKind::Children
    } else if c == 3 {
        WatchKind::Exists
    } else {
        return Err(Error::MalformedFrame);
    };
    match parse_buf_exec(p, 4) {
        Some((path, end)) => {
            if end != p.len() {
                return Err(Error::MalformedFrame);
            }
            Ok(Op::WatcherEvent { kind, path })
        },
        None => Err(Error::MalformedFrame),
    }
}

/// Decodes an opcode-specific payload, exactly as `dec_payload` does.
fn dec_payload_exec(opc: u32, p: &Vec<u8>) -> (r: Result<Op, Error>)
    ensures
        r is Ok ==> dec_payload(opc, p@) == Some(r->Ok_0@),
        r is Err ==> dec_payload(opc, p@) is None && r->Err_0 == Error::MalformedFrame,
{
    if opc == OP_CONNECT {
        dec_connect_exec(p)
    } else if opc == OP_CONNECT_REPLY {
        dec_connect_reply_exec(p)
    } else if opc == OP_CREATE {
        dec_create_exec(p)
    } else if opc == OP_DELETE {
        dec_delete_exec(p)
    } else if opc == OP_EXISTS {
        match dec_path_watch_exec(p) {
            Ok((path, watch)) => Ok(Op::Exists { path, watch }),
            Err(e) => Err(e),
        }
    } else if opc == OP_GET_DATA {
        match dec_path_watch_exec(p) {
            Ok((path, watch)) => Ok(Op::GetData { path, watch }),
            Err(e) => Err(e),
        }
    } else if opc == OP_GET_CHILDREN {
        match dec_path_watch_exec(p) {
            Ok((path, watch)) => Ok(Op::GetChildren { path, watch }),
            Err(e) => Err(e),
        }
    } else if opc == OP_SET_DATA {
        dec_set_data_exec(p)
    } else if opc == OP_PING {
        if p.len() == 0 { Ok(Op::Ping) } else { Err(Error::MalformedFrame) }
    } else if opc == OP_CLOSE_SESSION {
        if p.len() == 0 { Ok(Op::CloseSession) } else { Err(Error::MalformedFrame) }
    } else if opc == OP_WATCHER_EVENT {
        dec_watcher_event_exec(p)
    } else {
        Err(Error::MalformedFrame)
    }
}

/// Decodes one complete wire frame; fails with `MalformedFrame` exactly
/// when the bytes are not the encoding of any frame: an oversized length
/// prefix, a length prefix that disagrees with the input's length, an
/// unknown opcode, or a payload that under- or over-reads.
pub fn decode(bytes: &Vec<u8>) -> (r: Result<Frame, Error>)
    ensures
        r is Ok ==> spec_decode(bytes@) == Some(r->Ok_0@),
        r is Err ==> spec_decode(bytes@) is None && r->Err_0 == Error::MalformedFrame,
{
    if bytes.len() < 4 {
        return Err(Error::MalformedFrame);
    }
    let n = read_u32_be(bytes, 0);
    if n > MAX_FRAME_LEN {
        return Err(Error::MalformedFrame);
    }
    if bytes.len() - 4 != n as usize {
        return Err(Error::MalformedFrame);
    }
    if n < 8 {
        return Err(Error::MalformedFrame);
    }
    let body = copy_range(bytes, 4, bytes.len());
    let xid = #[verifier::truncate] (read_u32_be(&body, 0) as i32);
    let opc = read_u32_be(&body, 4);
    let payload = copy_range(&body, 8, body.len());
    match dec_payload_exec(opc, &payload) {
        Ok(op) => Ok(Frame { xid, op }),
        Err(e) => Err(e),
    }
}

} // verus!
