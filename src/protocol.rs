//! The wire protocol: frame headers, commands and their byte encoding.
//!
//! A frame is a nine-byte header, then a payload. The header is one byte
//! with the opcode in its high nibble (and, in a response, the status in
//! its low one), then the payload's length as eight little-endian bytes.
//! Integers are little-endian throughout; a name is its UTF-8 length
//! (eight bytes) and its UTF-8 bytes; a float travels as the eight bytes of
//! its bit pattern. This is the layout that bincode's default encoding gives
//! the same fields.

use vstd::prelude::*;
use vstd::bytes::{
    lemma_auto_spec_u128_to_from_le_bytes, lemma_auto_spec_u32_to_from_le_bytes,
    lemma_auto_spec_u64_to_from_le_bytes,
    spec_u128_from_le_bytes, spec_u128_to_le_bytes, spec_u32_from_le_bytes, spec_u32_to_le_bytes,
    spec_u64_from_le_bytes, spec_u64_to_le_bytes, u128_from_le_bytes, u128_to_le_bytes,
    u32_from_le_bytes, u32_to_le_bytes, u64_from_le_bytes, u64_to_le_bytes,
};
use vstd::slice::{slice_subrange, slice_to_vec};
use vstd::utf8::{decode_utf8, encode_utf8, encode_utf8_decode_utf8, encode_utf8_valid_utf8, valid_utf8};

verus! {

/// The command space of the protocol; a header carries it in its high nibble.
#[derive(Debug, Clone, Copy, PartialEq, Eq, Structural)]
pub enum OpCode {
    OpTsCreate,
    OpTsDelete,
    OpTsAddPoint,
    OpTsMaddPoint,
    OpTsQuery,
}

/// The command numbered `n`, if `n` is one of the known opcodes.
pub open spec fn opcode_of(n: u8) -> Option<OpCode> {
    if n == 0 {
        Some(OpCode::OpTsCreate)
    } else if n == 1 {
        Some(OpCode::OpTsDelete)
    } else if n == 2 {
        Some(OpCode::OpTsAddPoint)
    } else if n == 3 {
        Some(OpCode::OpTsMaddPoint)
    } else if n == 4 {
        Some(OpCode::OpTsQuery)
    } else {
        None
    }
}

/// The number that stands for `op` on the wire.
pub open spec fn opcode_number(op: OpCode) -> u8 {
    match op {
        OpCode::OpTsCreate => 0,
        OpCode::OpTsDelete => 1,
        OpCode::OpTsAddPoint => 2,
        OpCode::OpTsMaddPoint => 3,
        OpCode::OpTsQuery => 4,
    }
}

/// Reads `n` as an opcode.
pub fn as_opcode(n: u8) -> (r: Option<OpCode>)
    ensures
        r == opcode_of(n),
{
    match n {
        0 => Some(OpCode::OpTsCreate),
        1 => Some(OpCode::OpTsDelete),
        2 => Some(OpCode::OpTsAddPoint),
        3 => Some(OpCode::OpTsMaddPoint),
        4 => Some(OpCode::OpTsQuery),
        _ => None,
    }
}

/// The fixed-size prefix of a frame: the opcode/status byte and the
/// length of the payload that follows.
#[derive(Debug, Clone, Copy, PartialEq, Eq, Structural)]
pub struct TsHeader {
    pub byte: u8,
    pub size: usize,
}

impl TsHeader {
    /// The opcode packed in the high nibble of the header byte.
    pub open spec fn spec_opcode(&self) -> Option<OpCode> {
        opcode_of(self.byte >> 4)
    }

    pub fn opcode(&self) -> (r: Option<OpCode>)
        ensures
            r == self.spec_opcode(),
    {
        as_opcode(self.byte >> 4)
    }
}

/// The length of a frame header: the opcode/status byte and the payload
/// length as eight little-endian bytes.
pub const HEADER_LEN: usize = 9;

/// What a query asks of a series.
#[derive(Debug, Clone, Copy, PartialEq, Eq, Structural)]
pub enum Query {
    /// The mean of all values.
    Average,
    /// The least value.
    Min,
    /// The greatest value.
    Max,
    /// The mean of each window of `interval` milliseconds that holds records.
    Windowed { interval: u128 },
    /// The records stamped within `[lo, hi]`.
    Range { lo: u128, hi: u128 },
}

/// A request, as a client sends it. Values are the bit patterns of 64-bit
/// floats.
#[derive(Debug, PartialEq)]
pub enum Command {
    Create { name: String, retention: i32 },
    Delete { name: String },
    AddPoint { name: String, value: u64 },
    MultiAddPoint { name: String, values: Vec<u64> },
    Query { name: String, query: Query },
}

/// The mathematical content of a [`Command`].
pub enum CommandView {
    Create { name: Seq<char>, retention: i32 },
    Delete { name: Seq<char> },
    AddPoint { name: Seq<char>, value: u64 },
    MultiAddPoint { name: Seq<char>, values: Seq<u64> },
    Query { name: Seq<char>, query: Query },
}

impl View for Command {
    type V = CommandView;

    open spec fn view(&self) -> CommandView {
        match self {
            Command::Create { name, retention } => CommandView::Create { name: name@, retention: *retention },
            Command::Delete { name } => CommandView::Delete { name: name@ },
            Command::AddPoint { name, value } => CommandView::AddPoint { name: name@, value: *value },
            Command::MultiAddPoint { name, values } => CommandView::MultiAddPoint {
                name: name@,
                values: values@,
            },
            Command::Query { name, query } => CommandView::Query { name: name@, query: *query },
        }
    }
}

impl Command {
    /// The opcode of the command.
    pub fn opcode(&self) -> (r: OpCode)
        ensures
            r == command_opcode(self@),
    {
        match self {
            Command::Create { .. } => OpCode::OpTsCreate,
            Command::Delete { .. } => OpCode::OpTsDelete,
            Command::AddPoint { .. } => OpCode::OpTsAddPoint,
            Command::MultiAddPoint { .. } => OpCode::OpTsMaddPoint,
            Command::Query { .. } => OpCode::OpTsQuery,
        }
    }
}

/// Why bytes could not be read as a frame.
#[derive(Debug, Clone, Copy, PartialEq, Eq, Structural)]
pub enum DecodeError {
    /// Fewer bytes than the header, or than the length it declares: more
    /// are needed.
    Incomplete,
    /// The header names no known command.
    UnknownCommand,
    /// The payload does not have the shape that its command calls for.
    Malformed,
}

/// The opcode of a command.
pub open spec fn command_opcode(c: CommandView) -> OpCode {
    match c {
        CommandView::Create { .. } => OpCode::OpTsCreate,
        CommandView::Delete { .. } => OpCode::OpTsDelete,
        CommandView::AddPoint { .. } => OpCode::OpTsAddPoint,
        CommandView::MultiAddPoint { .. } => OpCode::OpTsMaddPoint,
        CommandView::Query { .. } => OpCode::OpTsQuery,
    }
}

/// A name on the wire: its UTF-8 length as eight little-endian bytes, then
/// its UTF-8 bytes.
pub open spec fn name_bytes(name: Seq<char>) -> Seq<u8> {
    spec_u64_to_le_bytes(encode_utf8(name).len() as u64) + encode_utf8(name)
}

/// Values on the wire: eight little-endian bytes each, in order.
pub open spec fn values_bytes(v: Seq<u64>) -> Seq<u8>
    decreases v.len(),
{
    if v.len() == 0 {
        Seq::<u8>::empty()
    } else {
        values_bytes(v.drop_last()) + spec_u64_to_le_bytes(v.last())
    }
}

/// A query on the wire: a kind byte, then the kind's parameters.
pub open spec fn query_bytes(q: Query) -> Seq<u8> {
    match q {
        Query::Average => seq![0u8],
        Query::Min => seq![1u8],
        Query::Max => seq![2u8],
        Query::Windowed { interval } => seq![3u8] + spec_u128_to_le_bytes(interval),
        Query::Range { lo, hi } => seq![4u8] + spec_u128_to_le_bytes(lo) + spec_u128_to_le_bytes(hi),
    }
}

/// The payload of a command's frame.
pub open spec fn payload_bytes(c: CommandView) -> Seq<u8> {
    match c {
        CommandView::Create { name, retention } => name_bytes(name) + spec_u32_to_le_bytes(
            #[verifier::truncate] (retention as u32),
        ),
        CommandView::Delete { name } => name_bytes(name),
        CommandView::AddPoint { name, value } => name_bytes(name) + spec_u64_to_le_bytes(value),
        CommandView::MultiAddPoint { name, values } => name_bytes(name) + spec_u64_to_le_bytes(
            values.len() as u64,
        ) + values_bytes(values),
        CommandView::Query { name, query } => name_bytes(name) + query_bytes(query),
    }
}

/// A header on the wire.
pub open spec fn header_bytes(byte: u8, size: u64) -> Seq<u8> {
    seq![byte] + spec_u64_to_le_bytes(size)
}

/// The byte that opens a request frame: the opcode in the high nibble.
pub open spec fn request_byte(op: OpCode) -> u8 {
    (opcode_number(op) * 16) as u8
}

/// The whole frame of a command.
pub open spec fn frame_bytes(c: CommandView) -> Seq<u8> {
    header_bytes(request_byte(command_opcode(c)), payload_bytes(c).len() as u64) + payload_bytes(c)
}

/// Reads a name from the front of `b`: the name and the number of bytes
/// it takes, if `b` starts with a length and that many bytes of UTF-8.
pub open spec fn parse_name(b: Seq<u8>) -> Option<(Seq<char>, int)> {
    if b.len() < 8 {
        None
    } else {
        let n = spec_u64_from_le_bytes(b.subrange(0, 8)) as int;
        if n > b.len() - 8 || !valid_utf8(b.subrange(8, 8 + n)) {
            None
        } else {
            Some((decode_utf8(b.subrange(8, 8 + n)), 8 + n))
        }
    }
}

/// Reads a query that takes all of `b`.
pub open spec fn parse_query(b: Seq<u8>) -> Option<Query> {
    if b.len() == 1 && b[0] == 0 {
        Some(Query::Average)
    } else if b.len() == 1 && b[0] == 1 {
        Some(Query::Min)
    } else if b.len() == 1 && b[0] == 2 {
        Some(Query::Max)
    } else if b.len() == 17 && b[0] == 3 {
        Some(Query::Windowed { interval: spec_u128_from_le_bytes(b.subrange(1, 17)) })
    } else if b.len() == 33 && b[0] == 4 {
        Some(
            Query::Range {
                lo: spec_u128_from_le_bytes(b.subrange(1, 17)),
                hi: spec_u128_from_le_bytes(b.subrange(17, 33)),
            },
        )
    } else {
        None
    }
}

/// Reads values that take all of `b`: a count, then that many values.
pub open spec fn parse_values(b: Seq<u8>) -> Option<Seq<u64>> {
    if b.len() < 8 {
        None
    } else {
        let n = spec_u64_from_le_bytes(b.subrange(0, 8)) as int;
        if b.len() - 8 != 8 * n {
            None
        } else {
            Some(Seq::new(n as nat, |i: int| spec_u64_from_le_bytes(b.subrange(8 + 8 * i, 16 + 8 * i))))
        }
    }
}

/// Reads the payload of a command with opcode `op`, which takes all of `b`.
pub open spec fn parse_payload(op: OpCode, b: Seq<u8>) -> Option<CommandView> {
    match parse_name(b) {
        None => None,
        Some((name, k)) => {
            let rest = b.subrange(k, b.len() as int);
            match op {
                OpCode::OpTsCreate => if rest.len() == 4 {
                    Some(CommandView::Create { name, retention: #[verifier::truncate] (spec_u32_from_le_bytes(rest) as i32) })
                } else {
                    None
                },
                OpCode::OpTsDelete => if rest.len() == 0 {
                    Some(CommandView::Delete { name })
                } else {
                    None
                },
                OpCode::OpTsAddPoint => if rest.len() == 8 {
                    Some(CommandView::AddPoint { name, value: spec_u64_from_le_bytes(rest) })
                } else {
                    None
                },
                OpCode::OpTsMaddPoint => match parse_values(rest) {
                    Some(values) => Some(CommandView::MultiAddPoint { name, values }),
                    None => None,
                },
                OpCode::OpTsQuery => match parse_query(rest) {
                    Some(query) => Some(CommandView::Query { name, query }),
                    None => None,
                },
            }
        },
    }
}

/// The payload length that the header at the front of `b` declares.
pub open spec fn declared_size(b: Seq<u8>) -> int {
    spec_u64_from_le_bytes(b.subrange(1, 9)) as int
}

/// What reading a frame from the front of `b` yields: the command and the
/// length of its frame, or why there is none. Bytes past the frame are left
/// alone; too few bytes for the header or the declared payload are
/// `Incomplete`, whatever they hold.
pub open spec fn decode_frame(b: Seq<u8>) -> Result<(CommandView, int), DecodeError> {
    if b.len() < 9 || b.len() - 9 < declared_size(b) {
        Err(DecodeError::Incomplete)
    } else {
        match opcode_of(b[0] >> 4) {
            None => Err(DecodeError::UnknownCommand),
            Some(op) => match parse_payload(op, b.subrange(9, 9 + declared_size(b))) {
                Some(c) => Ok((c, 9 + declared_size(b))),
                None => Err(DecodeError::Malformed),
            },
        }
    }
}

/// Relies on `String::from_utf8`: it accepts exactly the valid UTF-8 byte
/// sequences and yields the characters that they encode.
#[verifier::external_body]
fn string_from_utf8(bytes: Vec<u8>) -> (r: Option<String>)
    ensures
        r is Some <==> valid_utf8(bytes@),
        r matches Some(s) ==> s@ == decode_utf8(bytes@),
{
    String::from_utf8(bytes).ok()
}

fn read_u32_at(b: &[u8], pos: usize) -> (r: u32)
    requires
        pos + 4 <= b@.len(),
    ensures
        r == spec_u32_from_le_bytes(b@.subrange(pos as int, pos + 4)),
{
    let _len = b.len();
    u32_from_le_bytes(slice_subrange(b, pos, pos + 4))
}

fn read_u64_at(b: &[u8], pos: usize) -> (r: u64)
    requires
        pos + 8 <= b@.len(),
    ensures
        r == spec_u64_from_le_bytes(b@.subrange(pos as int, pos + 8)),
{
    let _len = b.len();
    u64_from_le_bytes(slice_subrange(b, pos, pos + 8))
}

fn read_u128_at(b: &[u8], pos: usize) -> (r: u128)
    requires
        pos + 16 <= b@.len(),
    ensures
        r == spec_u128_from_le_bytes(b@.subrange(pos as int, pos + 16)),
{
    let _len = b.len();
    u128_from_le_bytes(slice_subrange(b, pos, pos + 16))
}

/// Reads a name from the front of `b`.
fn read_name(b: &[u8]) -> (r: Option<(String, usize)>)
    ensures
        match parse_name(b@) {
            None => r is None,
            Some((name, k)) => r matches Some((s, m)) && s@ == name && m == k,
        },
{
    if b.len() < 8 {
        return None;
    }
    let n = read_u64_at(b, 0);
    if n > (b.len() - 8) as u64 {
        return None;
    }
    let n = n as usize;
    let bytes = slice_to_vec(slice_subrange(b, 8, 8 + n));
    match string_from_utf8(bytes) {
        Some(s) => Some((s, 8 + n)),
        None => None,
    }
}

/// Reads a query that takes all of `b`.
fn read_query(b: &[u8]) -> (r: Option<Query>)
    ensures
        r == parse_query(b@),
{
    let len = b.len();
    if len == 0 {
        return None;
    }
    let kind = b[0];
    if len == 1 && kind == 0 {
        Some(Query::Average)
    } else if len == 1 && kind == 1 {
        Some(Query::Min)
    } else if len == 1 && kind == 2 {
        Some(Query::Max)
    } else if len == 17 && kind == 3 {
        Some(Query::Windowed { interval: read_u128_at(b, 1) })
    } else if len == 33 && kind == 4 {
        Some(Query::Range { lo: read_u128_at(b, 1), hi: read_u128_at(b, 17) })
    } else {
        None
    }
}

/// Reads values that take all of `b`.
fn read_values(b: &[u8]) -> (r: Option<Vec<u64>>)
    ensures
        match parse_values(b@) {
            None => r is None,
            Some(v) => r matches Some(x) && x@ == v,
        },
{
    let len = b.len();
    if len < 8 {
        return None;
    }
    let n = read_u64_at(b, 0);
    if n > ((len - 8) / 8) as u64 || (len - 8) as u64 != 8 * n {
        return None;
    }
    let n = n as usize;
    let mut out: Vec<u64> = Vec::new();
    let mut i: usize = 0;
    while i < n
        invariant
            i <= n,
            len == b@.len(),
            len - 8 == 8 * n,
            out@ == Seq::new(i as nat, |j: int| spec_u64_from_le_bytes(b@.subrange(8 + 8 * j, 16 + 8 * j))),
        decreases n - i,
    {
        let x = read_u64_at(b, 8 + 8 * i);
        out.push(x);
        i += 1;
        assert(out@ =~= Seq::new(i as nat, |j: int| spec_u64_from_le_bytes(b@.subrange(8 + 8 * j, 16 + 8 * j))));
    }
    Some(out)
}

/// Reads the payload of a command with opcode `op`, which takes all of `b`.
fn read_payload(op: OpCode, b: &[u8]) -> (r: Option<Command>)
    ensures
        match parse_payload(op, b@) {
            None => r is None,
            Some(c) => r matches Some(x) && x@ == c,
        },
{
    let (name, k) = match read_name(b) {
        Some(x) => x,
        None => return None,
    };
    let rest = slice_subrange(b, k, b.len());
    let len = rest.len();
    match op {
        OpCode::OpTsCreate => if len == 4 {
            assert(rest@.subrange(0, 4) =~= rest@);
            Some(Command::Create { name, retention: #[verifier::truncate] (read_u32_at(rest, 0) as i32) })
        } else {
            None
        },
        OpCode::OpTsDelete => if len == 0 {
            Some(Command::Delete { name })
        } else {
            None
        },
        OpCode::OpTsAddPoint => if len == 8 {
            assert(rest@.subrange(0, 8) =~= rest@);
            Some(Command::AddPoint { name, value: read_u64_at(rest, 0) })
        } else {
            None
        },
        OpCode::OpTsMaddPoint => match read_values(rest) {
            Some(values) => Some(Command::MultiAddPoint { name, values }),
            None => None,
        },
        OpCode::OpTsQuery => match read_query(rest) {
            Some(query) => Some(Command::Query { name, query }),
            None => None,
        },
    }
}

/// Reads the frame at the front of `b`: the command and the length of its
/// frame, or why there is none.
pub fn decode(b: &[u8]) -> (r: Result<(Command, usize), DecodeError>)
    ensures
        match decode_frame(b@) {
            Ok((c, n)) => r matches Ok((x, m)) && x@ == c && m == n,
            Err(e) => r == Err::<(Command, usize), DecodeError>(e),
        },
{
    let len = b.len();
    if len < HEADER_LEN {
        return Err(DecodeError::Incomplete);
    }
    let size = read_u64_at(b, 1);
    if ((len - HEADER_LEN) as u64) < size {
        return Err(DecodeError::Incomplete);
    }
    let size = size as usize;
    let op = match as_opcode(b[0] >> 4) {
        Some(op) => op,
        None => return Err(DecodeError::UnknownCommand),
    };
    match read_payload(op, slice_subrange(b, HEADER_LEN, HEADER_LEN + size)) {
        Some(c) => Ok((c, HEADER_LEN + size)),
        None => Err(DecodeError::Malformed),
    }
}

/// The number of an opcode, as its nibble carries it.
pub fn opcode_value(op: OpCode) -> (r: u8)
    ensures
        r == opcode_number(op),
        r < 16,
{
    match op {
        OpCode::OpTsCreate => 0,
        OpCode::OpTsDelete => 1,
        OpCode::OpTsAddPoint => 2,
        OpCode::OpTsMaddPoint => 3,
        OpCode::OpTsQuery => 4,
    }
}

fn append_u64(out: &mut Vec<u8>, x: u64)
    ensures
        final(out)@ == old(out)@ + spec_u64_to_le_bytes(x),
{
    let mut b = u64_to_le_bytes(x);
    out.append(&mut b);
}

fn append_u128(out: &mut Vec<u8>, x: u128)
    ensures
        final(out)@ == old(out)@ + spec_u128_to_le_bytes(x),
{
    let mut b = u128_to_le_bytes(x);
    out.append(&mut b);
}

fn append_name(out: &mut Vec<u8>, name: &String)
    ensures
        final(out)@ == old(out)@ + name_bytes(name@),
{
    let bytes = name.as_str().as_bytes();
    append_u64(out, bytes.len() as u64);
    let mut v = slice_to_vec(bytes);
    out.append(&mut v);
}

fn append_values(out: &mut Vec<u8>, values: &Vec<u64>)
    ensures
        final(out)@ == old(out)@ + values_bytes(values@),
{
    let ghost base = out@;
    let mut i: usize = 0;
    assert(values@.subrange(0, 0) =~= Seq::<u64>::empty());
    assert(out@ =~= base + values_bytes(values@.subrange(0, 0)));
    while i < values.len()
        invariant
            i <= values@.len(),
            out@ == base + values_bytes(values@.subrange(0, i as int)),
        decreases values@.len() - i,
    {
        append_u64(out, values[i]);
        assert(values@.subrange(0, i + 1).drop_last() =~= values@.subrange(0, i as int));
        i += 1;
        assert(out@ =~= base + values_bytes(values@.subrange(0, i as int)));
    }
    assert(values@.subrange(0, values@.len() as int) =~= values@);
}

fn append_query(out: &mut Vec<u8>, q: Query)
    ensures
        final(out)@ == old(out)@ + query_bytes(q),
{
    let ghost base = out@;
    match q {
        Query::Average => out.push(0),
        Query::Min => out.push(1),
        Query::Max => out.push(2),
        Query::Windowed { interval } => {
            out.push(3);
            append_u128(out, interval);
        },
        Query::Range { lo, hi } => {
            out.push(4);
            append_u128(out, lo);
            append_u128(out, hi);
        },
    }
    assert(out@ =~= base + query_bytes(q));
}

/// The payload of a command's frame.
pub fn encode_payload(c: &Command) -> (r: Vec<u8>)
    ensures
        r@ == payload_bytes(c@),
{
    let mut out: Vec<u8> = Vec::new();
    match c {
        Command::Create { name, retention } => {
            append_name(&mut out, name);
            let mut b = u32_to_le_bytes(*retention as u32);
            out.append(&mut b);
        },
        Command::Delete { name } => {
            append_name(&mut out, name);
        },
        Command::AddPoint { name, value } => {
            append_name(&mut out, name);
            append_u64(&mut out, *value);
        },
        Command::MultiAddPoint { name, values } => {
            append_name(&mut out, name);
            append_u64(&mut out, values.len() as u64);
            append_values(&mut out, values);
        },
        Command::Query { name, query } => {
            append_name(&mut out, name);
            append_query(&mut out, *query);
        },
    }
    assert(out@ =~= payload_bytes(c@));
    out
}

/// The frame that carries a command: its header, then its payload.
pub fn encode(c: &Command) -> (r: Vec<u8>)
    ensures
        r@ == frame_bytes(c@),
{
    let mut payload = encode_payload(c);
    let op = c.opcode();
    let mut out: Vec<u8> = Vec::new();
    out.push(opcode_value(op) * 16);
    append_u64(&mut out, payload.len() as u64);
    out.append(&mut payload);
    assert(out@ =~= frame_bytes(c@));
    out
}

/// A name read back from its bytes, whatever follows them.
proof fn lemma_name_round_trip(name: Seq<char>, rest: Seq<u8>)
    requires
        encode_utf8(name).len() <= u64::MAX,
    ensures
        parse_name(name_bytes(name) + rest) == Some((name, name_bytes(name).len() as int)),
        (name_bytes(name) + rest).subrange(name_bytes(name).len() as int, (name_bytes(name) + rest).len() as int) == rest,
{
    lemma_auto_spec_u64_to_from_le_bytes();
    encode_utf8_valid_utf8(name);
    encode_utf8_decode_utf8(name);
    let e = encode_utf8(name);
    let b = name_bytes(name) + rest;
    assert(b.subrange(0, 8) =~= spec_u64_to_le_bytes(e.len() as u64));
    assert(b.subrange(8, 8 + e.len() as int) =~= e);
    assert(b.subrange(name_bytes(name).len() as int, b.len() as int) =~= rest);
}

/// Values take eight bytes each, the `i`-th at `8 * i`.
proof fn lemma_values_layout(v: Seq<u64>)
    ensures
        values_bytes(v).len() == 8 * v.len(),
        forall|i: int|
            0 <= i < v.len() ==> #[trigger] values_bytes(v).subrange(8 * i, 8 * i + 8)
                == spec_u64_to_le_bytes(v[i]),
    decreases v.len(),
{
    lemma_auto_spec_u64_to_from_le_bytes();
    if v.len() > 0 {
        let init = v.drop_last();
        lemma_values_layout(init);
        let b = values_bytes(v);
        assert forall|i: int| 0 <= i < v.len() implies #[trigger] b.subrange(8 * i, 8 * i + 8)
            == spec_u64_to_le_bytes(v[i]) by {
            if i < v.len() - 1 {
                assert(b.subrange(8 * i, 8 * i + 8) =~= values_bytes(init).subrange(8 * i, 8 * i + 8));
                assert(init[i] == v[i]);
            } else {
                assert(b.subrange(8 * i, 8 * i + 8) =~= spec_u64_to_le_bytes(v.last()));
            }
        }
    }
}

/// A batch of values read back from its bytes.
proof fn lemma_values_round_trip(v: Seq<u64>)
    requires
        v.len() <= u64::MAX,
    ensures
        parse_values(spec_u64_to_le_bytes(v.len() as u64) + values_bytes(v)) == Some(v),
{
    lemma_auto_spec_u64_to_from_le_bytes();
    lemma_values_layout(v);
    let vb = values_bytes(v);
    let b = spec_u64_to_le_bytes(v.len() as u64) + vb;
    assert(b.subrange(0, 8) =~= spec_u64_to_le_bytes(v.len() as u64));
    let parsed = Seq::new(v.len(), |i: int| spec_u64_from_le_bytes(b.subrange(8 + 8 * i, 16 + 8 * i)));
    assert forall|i: int| 0 <= i < v.len() implies parsed[i] == v[i] by {
        assert(b.subrange(8 + 8 * i, 16 + 8 * i) =~= vb.subrange(8 * i, 8 * i + 8));
    }
    assert(parsed =~= v);
}

/// A query read back from its bytes.
proof fn lemma_query_round_trip(q: Query)
    ensures
        parse_query(query_bytes(q)) == Some(q),
{
    lemma_auto_spec_u128_to_from_le_bytes();
    let b = query_bytes(q);
    match q {
        Query::Windowed { interval } => {
            assert(b.subrange(1, 17) =~= spec_u128_to_le_bytes(interval));
        },
        Query::Range { lo, hi } => {
            assert(b.subrange(1, 17) =~= spec_u128_to_le_bytes(lo));
            assert(b.subrange(17, 33) =~= spec_u128_to_le_bytes(hi));
        },
        _ => {},
    }
}

/// A retention read back from its four bytes.
proof fn lemma_retention_round_trip(r: i32)
    ensures
        (#[verifier::truncate] (spec_u32_from_le_bytes(
            spec_u32_to_le_bytes(#[verifier::truncate] (r as u32)),
        ) as i32)) == r,
{
    lemma_auto_spec_u32_to_from_le_bytes();
    let u: u32 = #[verifier::truncate] (r as u32);
    assert(spec_u32_to_le_bytes(u).len() == 4);
    assert((#[verifier::truncate] (u as i32)) == r) by (bit_vector)
        requires
            u == #[verifier::truncate] (r as u32),
    ;
}

/// Every command is read back from its payload, when the payload's length
/// fits its eight-byte length field.
pub proof fn lemma_payload_round_trip(c: CommandView)
    requires
        payload_bytes(c).len() <= u64::MAX,
    ensures
        parse_payload(command_opcode(c), payload_bytes(c)) == Some(c),
{
    lemma_auto_spec_u64_to_from_le_bytes();
    match c {
        CommandView::Create { name, retention } => {
            let tail = spec_u32_to_le_bytes(#[verifier::truncate] (retention as u32));
            lemma_auto_spec_u32_to_from_le_bytes();
            lemma_name_round_trip(name, tail);
            lemma_retention_round_trip(retention);
        },
        CommandView::Delete { name } => {
            lemma_name_round_trip(name, Seq::<u8>::empty());
            assert(name_bytes(name) + Seq::<u8>::empty() =~= name_bytes(name));
        },
        CommandView::AddPoint { name, value } => {
            lemma_name_round_trip(name, spec_u64_to_le_bytes(value));
        },
        CommandView::MultiAddPoint { name, values } => {
            let tail = spec_u64_to_le_bytes(values.len() as u64) + values_bytes(values);
            lemma_values_layout(values);
            assert(name_bytes(name) + spec_u64_to_le_bytes(values.len() as u64) + values_bytes(values)
                =~= name_bytes(name) + tail);
            lemma_name_round_trip(name, tail);
            lemma_values_round_trip(values);
        },
        CommandView::Query { name, query } => {
            lemma_name_round_trip(name, query_bytes(query));
            lemma_query_round_trip(query);
        },
    }
}

/// Decoding reads back every command that encoding wrote, together with
/// its frame's length, whatever bytes follow the frame.
pub proof fn lemma_decode_encode(c: CommandView, rest: Seq<u8>)
    requires
        payload_bytes(c).len() <= u64::MAX,
    ensures
        decode_frame(frame_bytes(c) + rest) == Ok::<(CommandView, int), DecodeError>(
            (c, frame_bytes(c).len() as int),
        ),
{
    lemma_auto_spec_u64_to_from_le_bytes();
    lemma_payload_round_trip(c);
    let p = payload_bytes(c);
    let b = frame_bytes(c) + rest;
    let op = command_opcode(c);
    assert(b.subrange(1, 9) =~= spec_u64_to_le_bytes(p.len() as u64));
    assert(b.subrange(9, 9 + p.len() as int) =~= p);
    assert(b[0] == request_byte(op));
    assert(opcode_of(request_byte(op) >> 4) == Some(op)) by {
        assert((0u8 >> 4) == 0u8) by (bit_vector);
        assert((16u8 >> 4) == 1u8) by (bit_vector);
        assert((32u8 >> 4) == 2u8) by (bit_vector);
        assert((48u8 >> 4) == 3u8) by (bit_vector);
        assert((64u8 >> 4) == 4u8) by (bit_vector);
    }
}

/// The outcome a response reports, in the low nibble of its header byte.
#[derive(Debug, Clone, Copy, PartialEq, Eq, Structural)]
pub enum Status {
    TsOk,
    TsNotFound,
    TsExists,
    TsUnknownCmd,
    TsMalformed,
    TsNoData,
    TsBadRequest,
}

/// The number that stands for a status on the wire.
pub open spec fn status_number(s: Status) -> u8 {
    match s {
        Status::TsOk => 0,
        Status::TsNotFound => 1,
        Status::TsExists => 2,
        Status::TsUnknownCmd => 3,
        Status::TsMalformed => 4,
        Status::TsNoData => 5,
        Status::TsBadRequest => 6,
    }
}

fn status_byte(s: Status) -> (r: u8)
    ensures
        r == status_number(s),
{
    match s {
        Status::TsOk => 0,
        Status::TsNotFound => 1,
        Status::TsExists => 2,
        Status::TsUnknownCmd => 3,
        Status::TsMalformed => 4,
        Status::TsNoData => 5,
        Status::TsBadRequest => 6,
    }
}

/// The byte that opens a response: the request's opcode nibble `op` high,
/// the status low.
pub open spec fn response_byte(op: u8, s: Status) -> u8 {
    (op * 16 + status_number(s)) as u8
}

/// A response frame: header, then payload.
pub fn response_frame(op: u8, status: Status, payload: &[u8]) -> (r: Vec<u8>)
    requires
        op < 16,
    ensures
        r@ == header_bytes(response_byte(op, status), payload@.len() as u64) + payload@,
{
    let mut out: Vec<u8> = Vec::new();
    out.push(op * 16 + status_byte(status));
    append_u64(&mut out, payload.len() as u64);
    let mut p = slice_to_vec(payload);
    out.append(&mut p);
    assert(out@ =~= header_bytes(response_byte(op, status), payload@.len() as u64) + payload@);
    out
}

/// Records on the wire: each as its timestamp (sixteen little-endian
/// bytes) and its value (eight).
pub open spec fn records_bytes(s: Seq<crate::timeseries::Record>) -> Seq<u8>
    decreases s.len(),
{
    if s.len() == 0 {
        Seq::<u8>::empty()
    } else {
        records_bytes(s.drop_last()) + spec_u128_to_le_bytes(s.last().timestamp) + spec_u64_to_le_bytes(
            s.last().value,
        )
    }
}

/// The payload that answers a range query: a count, then the records.
pub fn encode_records(records: &Vec<crate::timeseries::Record>) -> (r: Vec<u8>)
    ensures
        r@ == spec_u64_to_le_bytes(records@.len() as u64) + records_bytes(records@),
{
    let mut out: Vec<u8> = Vec::new();
    append_u64(&mut out, records.len() as u64);
    let ghost base = out@;
    let mut i: usize = 0;
    assert(records@.subrange(0, 0) =~= Seq::<crate::timeseries::Record>::empty());
    assert(out@ =~= base + records_bytes(records@.subrange(0, 0)));
    while i < records.len()
        invariant
            i <= records@.len(),
            base == spec_u64_to_le_bytes(records@.len() as u64),
            out@ == base + records_bytes(records@.subrange(0, i as int)),
        decreases records@.len() - i,
    {
        append_u128(&mut out, records[i].timestamp);
        append_u64(&mut out, records[i].value);
        assert(records@.subrange(0, i + 1).drop_last() =~= records@.subrange(0, i as int));
        i += 1;
        assert(out@ =~= base + records_bytes(records@.subrange(0, i as int)));
    }
    assert(records@.subrange(0, records@.len() as int) =~= records@);
    out
}

/// The payload that answers with a list of values: a count, then the values.
pub fn encode_values(values: &Vec<u64>) -> (r: Vec<u8>)
    ensures
        r@ == spec_u64_to_le_bytes(values@.len() as u64) + values_bytes(values@),
{
    let mut out: Vec<u8> = Vec::new();
    append_u64(&mut out, values.len() as u64);
    append_values(&mut out, values);
    out
}

/// The payload that answers with one value.
pub fn encode_value(value: u64) -> (r: Vec<u8>)
    ensures
        r@ == spec_u64_to_le_bytes(value),
{
    u64_to_le_bytes(value)
}

/// A header and a payload, as the lower layer of the codec sees them: the
/// header is carried as given, and the payload's shape follows its opcode.
#[derive(Debug, PartialEq)]
pub struct TsPacket {
    pub header: TsHeader,
    pub packet: Command,
}

/// Why a packet could not be written.
#[derive(Debug, Clone, Copy, PartialEq, Eq, Structural)]
pub enum EncodeError {
    /// The header's opcode is not the command's.
    OpcodeMismatch,
    /// The header's size is not the length of the command's payload.
    SizeMismatch,
}

/// What reading a packet from the front of `b` yields: a header, then the
/// payload of exactly the length it declares. Too few bytes for either are
/// `Incomplete`; bytes past the payload are left alone.
pub open spec fn parse_packet(b: Seq<u8>) -> Result<(TsHeader, CommandView), DecodeError> {
    if b.len() < 9 || b.len() - 9 < declared_size(b) {
        Err(DecodeError::Incomplete)
    } else {
        match opcode_of(b[0] >> 4) {
            None => Err(DecodeError::UnknownCommand),
            Some(op) => match parse_payload(op, b.subrange(9, 9 + declared_size(b))) {
                Some(c) => Ok((TsHeader { byte: b[0], size: declared_size(b) as usize }, c)),
                None => Err(DecodeError::Malformed),
            },
        }
    }
}

impl TsPacket {
    /// The header, then the payload of the command; fails when the header
    /// names another command or declares another payload length.
    pub fn to_binary(&self) -> (r: Result<Vec<u8>, EncodeError>)
        ensures
            self.header.spec_opcode() != Some(command_opcode(self.packet@)) ==> r
                == Err::<Vec<u8>, EncodeError>(EncodeError::OpcodeMismatch),
            self.header.spec_opcode() == Some(command_opcode(self.packet@)) && self.header.size
                != payload_bytes(self.packet@).len() ==> r == Err::<Vec<u8>, EncodeError>(
                EncodeError::SizeMismatch,
            ),
            self.header.spec_opcode() == Some(command_opcode(self.packet@)) && self.header.size
                == payload_bytes(self.packet@).len() ==> (r matches Ok(b) && b@ == header_bytes(
                self.header.byte,
                payload_bytes(self.packet@).len() as u64,
            ) + payload_bytes(self.packet@)),
    {
        let op = self.packet.opcode();
        match self.header.opcode() {
            Some(h) if h == op => {},
            _ => return Err(EncodeError::OpcodeMismatch),
        }
        let mut payload = encode_payload(&self.packet);
        if payload.len() != self.header.size {
            return Err(EncodeError::SizeMismatch);
        }
        let mut out: Vec<u8> = Vec::new();
        out.push(self.header.byte);
        append_u64(&mut out, payload.len() as u64);
        out.append(&mut payload);
        assert(out@ =~= header_bytes(self.header.byte, payload_bytes(self.packet@).len() as u64)
            + payload_bytes(self.packet@));
        Ok(out)
    }

    /// Reads a header, then the payload of the length it declares, from the
    /// front of `b`.
    pub fn from_binary(b: &Vec<u8>) -> (r: Result<TsPacket, DecodeError>)
        ensures
            match parse_packet(b@) {
                Ok((h, c)) => r matches Ok(p) && p.header == h && p.packet@ == c,
                Err(e) => r == Err::<TsPacket, DecodeError>(e),
            },
    {
        let len = b.len();
        if len < HEADER_LEN {
            return Err(DecodeError::Incomplete);
        }
        let bytes = b.as_slice();
        let size = read_u64_at(bytes, 1);
        if ((len - HEADER_LEN) as u64) < size {
            return Err(DecodeError::Incomplete);
        }
        let size = size as usize;
        let header = TsHeader { byte: b[0], size };
        let op = match header.opcode() {
            Some(op) => op,
            None => return Err(DecodeError::UnknownCommand),
        };
        match read_payload(op, slice_subrange(bytes, HEADER_LEN, HEADER_LEN + size)) {
            Some(packet) => Ok(TsPacket { header, packet }),
            None => Err(DecodeError::Malformed),
        }
    }
}

/// Reading back a packet that was written gives the same header and
/// command, whatever bytes follow it, when its payload's length fits an
/// eight-byte field.
pub proof fn lemma_packet_round_trip(h: TsHeader, c: CommandView, rest: Seq<u8>)
    requires
        h.spec_opcode() == Some(command_opcode(c)),
        h.size == payload_bytes(c).len(),
    ensures
        parse_packet(header_bytes(h.byte, h.size as u64) + payload_bytes(c) + rest) == Ok::<
            (TsHeader, CommandView),
            DecodeError,
        >((h, c)),
{
    lemma_auto_spec_u64_to_from_le_bytes();
    lemma_payload_round_trip(c);
    let p = payload_bytes(c);
    let b = header_bytes(h.byte, h.size as u64) + p + rest;
    assert(b.subrange(1, 9) =~= spec_u64_to_le_bytes(h.size as u64));
    assert(b.subrange(9, 9 + p.len() as int) =~= p);
}

/// A packet cut short anywhere reads as incomplete, never as malformed or
/// unknown.
pub proof fn lemma_partial_packet(h: TsHeader, c: CommandView, k: int)
    requires
        h.spec_opcode() == Some(command_opcode(c)),
        h.size == payload_bytes(c).len(),
        0 <= k < 9 + payload_bytes(c).len(),
    ensures
        parse_packet((header_bytes(h.byte, h.size as u64) + payload_bytes(c)).subrange(0, k))
            == Err::<(TsHeader, CommandView), DecodeError>(DecodeError::Incomplete),
{
    lemma_auto_spec_u64_to_from_le_bytes();
    let f = header_bytes(h.byte, h.size as u64) + payload_bytes(c);
    let b = f.subrange(0, k);
    if k >= 9 {
        assert(b.subrange(1, 9) =~= spec_u64_to_le_bytes(h.size as u64));
    }
}

/// A frame cut short anywhere reads as incomplete, never as malformed or
/// unknown; once the rest of it arrives, it reads in full.
pub proof fn lemma_partial_frame(c: CommandView, k: int)
    requires
        payload_bytes(c).len() <= u64::MAX,
        0 <= k < frame_bytes(c).len(),
    ensures
        decode_frame(frame_bytes(c).subrange(0, k)) == Err::<(CommandView, int), DecodeError>(
            DecodeError::Incomplete,
        ),
        decode_frame(frame_bytes(c).subrange(0, k) + frame_bytes(c).subrange(k, frame_bytes(c).len() as int))
            == Ok::<(CommandView, int), DecodeError>((c, frame_bytes(c).len() as int)),
{
    lemma_auto_spec_u64_to_from_le_bytes();
    let f = frame_bytes(c);
    let p = payload_bytes(c);
    let b = f.subrange(0, k);
    if k >= 9 {
        assert(b.subrange(1, 9) =~= spec_u64_to_le_bytes(p.len() as u64));
    }
    lemma_decode_encode(c, Seq::<u8>::empty());
    assert(f + Seq::<u8>::empty() =~= f);
    assert(b + f.subrange(k, f.len() as int) =~= f);
}

/// Two frames sent back to back read as their two commands, in the order
/// sent: the first frame, then the second from the bytes after the first.
pub proof fn lemma_pipelined_frames(c1: CommandView, c2: CommandView)
    requires
        payload_bytes(c1).len() <= u64::MAX,
        payload_bytes(c2).len() <= u64::MAX,
    ensures
        decode_frame(frame_bytes(c1) + frame_bytes(c2)) == Ok::<(CommandView, int), DecodeError>(
            (c1, frame_bytes(c1).len() as int),
        ),
        decode_frame(
            (frame_bytes(c1) + frame_bytes(c2)).subrange(
                frame_bytes(c1).len() as int,
                (frame_bytes(c1) + frame_bytes(c2)).len() as int,
            ),
        ) == Ok::<(CommandView, int), DecodeError>((c2, frame_bytes(c2).len() as int)),
{
    let f1 = frame_bytes(c1);
    let f2 = frame_bytes(c2);
    lemma_decode_encode(c1, f2);
    lemma_decode_encode(c2, Seq::<u8>::empty());
    assert((f1 + f2).subrange(f1.len() as int, (f1 + f2).len() as int) =~= f2 + Seq::<u8>::empty());
}

} // verus!
