//! Wire-level framing: every message on a connection is an eight-byte
//! big-endian length prefix followed by that many payload bytes; a fixed
//! two-byte acknowledgement token is exchanged after critical protocol steps;
//! a single leading byte selects the command a connection will run.

use vstd::prelude::*;

verus! {

/// Command code on the wire for an upload session.
pub const UPLOAD_CMD: u8 = 1;

/// Command code on the wire for a search session.
pub const SEARCH_CMD: u8 = 2;

/// Command code on the wire for a delete session.
pub const DELETE_CMD: u8 = 3;

/// Command code on the wire for a list session.
pub const LIST_CMD: u8 = 4;

/// The command a connection runs, chosen by its first byte.
#[derive(Clone, Copy, PartialEq, Eq, Structural, Debug)]
pub enum Command {
    Upload,
    Search,
    Delete,
    List,
}

/// The command selected by a given command byte; bytes outside 1..=4 select
/// nothing and the session must be closed as invalid.
pub open spec fn spec_command_of_byte(b: u8) -> Option<Command> {
    if b == UPLOAD_CMD {
        Some(Command::Upload)
    } else if b == SEARCH_CMD {
        Some(Command::Search)
    } else if b == DELETE_CMD {
        Some(Command::Delete)
    } else if b == LIST_CMD {
        Some(Command::List)
    } else {
        None
    }
}

/// Decode the leading command byte of a connection.
pub fn command_of_byte(b: u8) -> (r: Option<Command>)
    ensures
        r == spec_command_of_byte(b),
{
    if b == UPLOAD_CMD {
        Some(Command::Upload)
    } else if b == SEARCH_CMD {
        Some(Command::Search)
    } else if b == DELETE_CMD {
        Some(Command::Delete)
    } else if b == LIST_CMD {
        Some(Command::List)
    } else {
        None
    }
}

/// Encode a command as its wire byte; decoding the byte yields the command
/// back.
pub fn command_byte(c: Command) -> (b: u8)
    ensures
        spec_command_of_byte(b) == Some(c),
{
    match c {
        Command::Upload => UPLOAD_CMD,
        Command::Search => SEARCH_CMD,
        Command::Delete => DELETE_CMD,
        Command::List => LIST_CMD,
    }
}

/// The fixed two-byte acknowledgement token, the ASCII bytes of "OK".
pub open spec fn spec_ack() -> Seq<u8> {
    seq![79u8, 75u8]
}

/// Build the acknowledgement token to be written to a connection.
pub fn ack_token() -> (r: Vec<u8>)
    ensures
        r@ == spec_ack(),
{
    let mut v: Vec<u8> = Vec::new();
    v.push(79u8);
    v.push(75u8);
    proof {
        assert(v@ =~= spec_ack());
    }
    v
}

/// Whether two received acknowledgement bytes are the expected token; anything
/// else is a protocol error.
pub fn is_valid_ack(tok: &[u8]) -> (r: bool)
    ensures
        r == (tok@ == spec_ack()),
{
    if tok.len() == 2 {
        let ok = tok[0] == 79u8 && tok[1] == 75u8;
        proof {
            if ok {
                assert(tok@ =~= spec_ack());
            } else {
                assert(tok@ != spec_ack());
            }
        }
        ok
    } else {
        proof {
            assert(tok@ != spec_ack());
        }
        false
    }
}

/// A violation of the wire protocol by the peer.
pub enum ProtocolError {
    /// The two bytes read in place of an acknowledgement were not the token.
    InvalidAck,
    /// The leading byte of a connection named no command.
    UnknownCommand,
}

impl ProtocolError {
    /// The diagnostic text of the violation, as ASCII bytes: "Invalid ack"
    /// or "Invalid command".
    pub fn text(&self) -> (r: Vec<u8>)
        ensures
            r@ == spec_protocol_error_text(*self),
    {
        match self {
            ProtocolError::InvalidAck => {
                let mut v: Vec<u8> = Vec::new();
                v.push(73);
                v.push(110);
                v.push(118);
                v.push(97);
                v.push(108);
                v.push(105);
                v.push(100);
                v.push(32);
                v.push(97);
                v.push(99);
                v.push(107);
                proof {
                    assert(v@ =~= spec_protocol_error_text(ProtocolError::InvalidAck));
                }
                v
            },
            ProtocolError::UnknownCommand => {
                let mut v: Vec<u8> = Vec::new();
                v.push(73);
                v.push(110);
                v.push(118);
                v.push(97);
                v.push(108);
                v.push(105);
                v.push(100);
                v.push(32);
                v.push(99);
                v.push(111);
                v.push(109);
                v.push(109);
                v.push(97);
                v.push(110);
                v.push(100);
                proof {
                    assert(v@ =~= spec_protocol_error_text(ProtocolError::UnknownCommand));
                }
                v
            },
        }
    }
}

/// The diagnostic text of each protocol violation.
pub open spec fn spec_protocol_error_text(e: ProtocolError) -> Seq<u8> {
    match e {
        ProtocolError::InvalidAck => seq![
            73u8,
            110u8,
            118u8,
            97u8,
            108u8,
            105u8,
            100u8,
            32u8,
            97u8,
            99u8,
            107u8,
        ],
        ProtocolError::UnknownCommand => seq![
            73u8,
            110u8,
            118u8,
            97u8,
            108u8,
            105u8,
            100u8,
            32u8,
            99u8,
            111u8,
            109u8,
            109u8,
            97u8,
            110u8,
            100u8,
        ],
    }
}

/// Accept a received acknowledgement, or fail with `InvalidAck` exactly when
/// the bytes are not the expected token.
pub fn check_ack(tok: &[u8]) -> (r: Result<(), ProtocolError>)
    ensures
        r is Ok <==> tok@ == spec_ack(),
        r is Err ==> r->Err_0 is InvalidAck,
{
    if is_valid_ack(tok) {
        Ok(())
    } else {
        Err(ProtocolError::InvalidAck)
    }
}

/// The eight big-endian bytes of a 64-bit length.
pub open spec fn spec_be64_bytes(v: u64) -> Seq<u8> {
    seq![
        ((v >> 56) & 0xff) as u8,
        ((v >> 48) & 0xff) as u8,
        ((v >> 40) & 0xff) as u8,
        ((v >> 32) & 0xff) as u8,
        ((v >> 24) & 0xff) as u8,
        ((v >> 16) & 0xff) as u8,
        ((v >> 8) & 0xff) as u8,
        (v & 0xff) as u8,
    ]
}

/// The 64-bit length carried by eight big-endian bytes.
pub open spec fn spec_be64(s: Seq<u8>) -> u64
    recommends
        s.len() == 8,
{
    ((s[0] as u64) << 56) | ((s[1] as u64) << 48) | ((s[2] as u64) << 40) | ((s[3] as u64) << 32)
        | ((s[4] as u64) << 24) | ((s[5] as u64) << 16) | ((s[6] as u64) << 8) | (s[7] as u64)
}

/// Reading back the eight big-endian bytes of a value yields the value.
pub proof fn lemma_be64_of_bytes(v: u64)
    ensures
        spec_be64_bytes(v).len() == 8,
        spec_be64(spec_be64_bytes(v)) == v,
{
    assert(v == ((((v >> 56) & 0xff) as u8) as u64) << 56 | ((((v >> 48) & 0xff) as u8) as u64)
        << 48 | ((((v >> 40) & 0xff) as u8) as u64) << 40 | ((((v >> 32) & 0xff) as u8) as u64)
        << 32 | ((((v >> 24) & 0xff) as u8) as u64) << 24 | ((((v >> 16) & 0xff) as u8) as u64)
        << 16 | ((((v >> 8) & 0xff) as u8) as u64) << 8 | (((v & 0xff) as u8) as u64))
        by (bit_vector);
}

/// Re-encoding the value carried by eight bytes yields the same eight bytes.
pub proof fn lemma_be64_bytes_of(s: Seq<u8>)
    requires
        s.len() == 8,
    ensures
        spec_be64_bytes(spec_be64(s)) == s,
{
    let v = spec_be64(s);
    let b0 = s[0];
    let b1 = s[1];
    let b2 = s[2];
    let b3 = s[3];
    let b4 = s[4];
    let b5 = s[5];
    let b6 = s[6];
    let b7 = s[7];
    let x = ((b0 as u64) << 56) | ((b1 as u64) << 48) | ((b2 as u64) << 40) | ((b3 as u64) << 32)
        | ((b4 as u64) << 24) | ((b5 as u64) << 16) | ((b6 as u64) << 8) | (b7 as u64);
    assert((x == ((b0 as u64) << 56) | ((b1 as u64) << 48) | ((b2 as u64) << 40) | ((b3 as u64)
        << 32) | ((b4 as u64) << 24) | ((b5 as u64) << 16) | ((b6 as u64) << 8) | (b7 as u64))
        ==> (((x >> 56) & 0xff) as u8 == b0 && ((x >> 48) & 0xff) as u8 == b1 && ((x >> 40) & 0xff)
        as u8 == b2 && ((x >> 32) & 0xff) as u8 == b3 && ((x >> 24) & 0xff) as u8 == b4 && ((x
        >> 16) & 0xff) as u8 == b5 && ((x >> 8) & 0xff) as u8 == b6 && (x & 0xff) as u8 == b7))
        by (bit_vector);
    assert(spec_be64_bytes(v) =~= s);
}

/// Encode a length as its eight-byte big-endian prefix.
pub fn encode_len(v: u64) -> (r: Vec<u8>)
    ensures
        r@ == spec_be64_bytes(v),
        r@.len() == 8,
        spec_be64(r@) == v,
{
    let mut r: Vec<u8> = Vec::new();
    r.push(((v >> 56) & 0xff) as u8);
    r.push(((v >> 48) & 0xff) as u8);
    r.push(((v >> 40) & 0xff) as u8);
    r.push(((v >> 32) & 0xff) as u8);
    r.push(((v >> 24) & 0xff) as u8);
    r.push(((v >> 16) & 0xff) as u8);
    r.push(((v >> 8) & 0xff) as u8);
    r.push((v & 0xff) as u8);
    proof {
        assert(r@ =~= spec_be64_bytes(v));
        lemma_be64_of_bytes(v);
    }
    r
}

/// Decode an eight-byte big-endian length prefix.
pub fn decode_len(b: &[u8]) -> (v: u64)
    requires
        b@.len() == 8,
    ensures
        v == spec_be64(b@),
{
    ((b[0] as u64) << 56) | ((b[1] as u64) << 48) | ((b[2] as u64) << 40) | ((b[3] as u64) << 32)
        | ((b[4] as u64) << 24) | ((b[5] as u64) << 16) | ((b[6] as u64) << 8) | (b[7] as u64)
}

/// A complete framed message: the length prefix followed by the payload.
pub open spec fn spec_frame(payload: Seq<u8>) -> Seq<u8> {
    spec_be64_bytes(payload.len() as u64) + payload
}

/// Frame a payload for sending: an eight-byte big-endian length prefix
/// followed by the raw payload bytes.
pub fn encode_frame(payload: &Vec<u8>) -> (r: Vec<u8>)
    ensures
        r@ == spec_frame(payload@),
        r@.len() == payload@.len() + 8,
{
    let mut r = encode_len(payload.len() as u64);
    let mut i: usize = 0;
    while i < payload.len()
        invariant
            r@ == spec_be64_bytes(payload@.len() as u64) + payload@.subrange(0, i as int),
            i <= payload@.len(),
        decreases payload@.len() - i,
    {
        r.push(payload[i]);
        proof {
            assert(r@ =~= spec_be64_bytes(payload@.len() as u64) + payload@.subrange(
                0,
                i as int + 1,
            ));
        }
        i = i + 1;
    }
    proof {
        assert(payload@.subrange(0, payload@.len() as int) =~= payload@);
        lemma_be64_of_bytes(payload@.len() as u64);
    }
    r
}

/// Split one complete frame off the front of a byte stream: the payload and
/// the number of bytes consumed.  Returns nothing while the stream does not
/// yet hold the whole frame.
pub fn take_frame(data: &Vec<u8>) -> (r: Option<(Vec<u8>, usize)>)
    ensures
        match r {
            Some((payload, used)) => {
                &&& data@.len() >= 8
                &&& payload@.len() == spec_be64(data@.subrange(0, 8))
                &&& used == 8 + payload@.len()
                &&& used <= data@.len()
                &&& payload@ == data@.subrange(8, used as int)
            },
            None => data@.len() < 8 || data@.len() < 8 + spec_be64(data@.subrange(0, 8)),
        },
{
    if data.len() < 8 {
        return None;
    }
    let prefix: &[u8] = data.as_slice();
    let head: u64 = ((prefix[0] as u64) << 56) | ((prefix[1] as u64) << 48) | ((prefix[2] as u64)
        << 40) | ((prefix[3] as u64) << 32) | ((prefix[4] as u64) << 24) | ((prefix[5] as u64)
        << 16) | ((prefix[6] as u64) << 8) | (prefix[7] as u64);
    proof {
        assert(head == spec_be64(data@.subrange(0, 8)));
    }
    if head > (usize::MAX as u64) - 8 {
        proof {
            assert(data@.len() < 8 + spec_be64(data@.subrange(0, 8)));
        }
        return None;
    }
    let need: usize = (head as usize) + 8;
    if data.len() < need {
        return None;
    }
    let mut payload: Vec<u8> = Vec::new();
    let mut i: usize = 8;
    while i < need
        invariant
            8 <= i <= need,
            need == 8 + head,
            need <= data@.len(),
            payload@ == data@.subrange(8, i as int),
        decreases need - i,
    {
        payload.push(data[i]);
        proof {
            assert(payload@ =~= data@.subrange(8, i as int + 1));
        }
        i = i + 1;
    }
    Some((payload, need))
}

/// Splitting a frame off a stream that begins with an encoded payload yields
/// that payload back and consumes exactly the frame: the framing round-trips.
pub proof fn lemma_frame_round_trip(payload: Seq<u8>, rest: Seq<u8>)
    requires
        payload.len() <= u64::MAX,
    ensures
        spec_frame(payload).len() == payload.len() + 8,
        (spec_frame(payload) + rest).subrange(0, 8) == spec_be64_bytes(payload.len() as u64),
        spec_be64((spec_frame(payload) + rest).subrange(0, 8)) == payload.len(),
        (spec_frame(payload) + rest).subrange(8, payload.len() as int + 8) == payload,
{
    lemma_be64_of_bytes(payload.len() as u64);
    assert((spec_frame(payload) + rest).subrange(0, 8) =~= spec_be64_bytes(
        payload.len() as u64,
    ));
    assert((spec_frame(payload) + rest).subrange(8, payload.len() as int + 8) =~= payload);
}

} // verus!
