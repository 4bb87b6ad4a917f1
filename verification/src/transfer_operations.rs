//! The wire format of register commands: serialization into bytes signed
//! with HMAC-SHA256, and deserialization from a stream of bytes in which a
//! message starts at the first occurrence of the magic number.
use crate::bytes::{
    append_bytes, be_bytes, be_value, copy_bytes, lemma_be_value_bound, lemma_be_value_of_bytes,
    lemma_pow256_values, push_be, read_be,
};
use crate::domain::{
    magic, ClientCommandHeader, ClientCommandView, ClientContentView,
    ClientRegisterCommand, ClientRegisterCommandContent, RegisterCommand, RegisterCommandView,
    SectorVec, SystemCommandHeader, SystemCommandView, SystemContentView, SystemRegisterCommand,
    SystemRegisterCommandContent,
};
use crate::primitives::{hmac_sha256, hmac_sha256_tag, hmac_sha256_verify};
use crate::utils::SerializationError;
use vstd::prelude::*;
use vstd::slice::slice_subrange;

verus! {

/// Length of the HMAC tag that closes every message.
pub const HMAC_TAG_LEN: usize = 32;

/// Type of a message, the last byte of its header.
#[derive(Debug, Clone, Copy, PartialEq, Eq)]
pub enum MessageType {
    Read,
    Write,
    ReadProc,
    Value,
    WriteProc,
    Ack,
}

/// The byte that stands for a message type.
pub open spec fn spec_message_type_code(t: MessageType) -> u8 {
    match t {
        MessageType::Read => 0x01u8,
        MessageType::Write => 0x02u8,
        MessageType::ReadProc => 0x03u8,
        MessageType::Value => 0x04u8,
        MessageType::WriteProc => 0x05u8,
        MessageType::Ack => 0x06u8,
    }
}

/// Whether a byte stands for a message type.
pub open spec fn is_message_type_code(b: u8) -> bool {
    0x01 <= b <= 0x06
}

impl MessageType {
    /// The byte that stands for this type.
    pub fn code(&self) -> (b: u8)
        ensures
            b == spec_message_type_code(*self),
    {
        match self {
            MessageType::Read => 0x01u8,
            MessageType::Write => 0x02u8,
            MessageType::ReadProc => 0x03u8,
            MessageType::Value => 0x04u8,
            MessageType::WriteProc => 0x05u8,
            MessageType::Ack => 0x06u8,
        }
    }

    /// The type that a byte stands for, or `InvalidMessageType`.
    pub fn try_from(val: u8) -> (r: Result<MessageType, SerializationError>)
        ensures
            r is Ok <==> is_message_type_code(val),
            r matches Ok(t) ==> spec_message_type_code(t) == val,
            r matches Err(e) ==> e == SerializationError::InvalidMessageType,
    {
        match val {
            0x01 => Ok(MessageType::Read),
            0x02 => Ok(MessageType::Write),
            0x03 => Ok(MessageType::ReadProc),
            0x04 => Ok(MessageType::Value),
            0x05 => Ok(MessageType::WriteProc),
            0x06 => Ok(MessageType::Ack),
            _ => Err(SerializationError::InvalidMessageType),
        }
    }
}

// ---------------------------------------------------------------------
// The format, as a function from commands to bytes.
// ---------------------------------------------------------------------

/// The type byte of a client command.
pub open spec fn client_code(c: ClientContentView) -> u8 {
    match c {
        ClientContentView::Read => 0x01u8,
        ClientContentView::Write { .. } => 0x02u8,
    }
}

/// The type byte of a system command.
pub open spec fn system_code(c: SystemContentView) -> u8 {
    match c {
        SystemContentView::ReadProc => 0x03u8,
        SystemContentView::Value { .. } => 0x04u8,
        SystemContentView::WriteProc { .. } => 0x05u8,
        SystemContentView::Ack => 0x06u8,
    }
}

/// Timestamp, write rank (in the last of eight bytes) and sector data.
pub open spec fn value_payload(timestamp: u64, write_rank: u8, data: Seq<u8>) -> Seq<u8> {
    be_bytes(timestamp as nat, 8) + seq![0u8, 0u8, 0u8, 0u8, 0u8, 0u8, 0u8, write_rank] + data
}

/// Bytes of a client command, without its tag.
pub open spec fn encode_client(cmd: ClientCommandView) -> Seq<u8> {
    magic() + seq![0u8, 0u8, 0u8, client_code(cmd.content)] + be_bytes(
        cmd.request_identifier as nat,
        8,
    ) + be_bytes(cmd.sector_idx as nat, 8) + match cmd.content {
        ClientContentView::Read => Seq::empty(),
        ClientContentView::Write { data } => data,
    }
}

/// Bytes of a system command, without its tag.
pub open spec fn encode_system(cmd: SystemCommandView) -> Seq<u8> {
    magic() + seq![0u8, 0u8, cmd.header.process_identifier, system_code(cmd.content)] + be_bytes(
        cmd.header.msg_ident as nat,
        16,
    ) + be_bytes(cmd.header.sector_idx as nat, 8) + match cmd.content {
        SystemContentView::Value { timestamp, write_rank, sector_data } => value_payload(
            timestamp,
            write_rank,
            sector_data,
        ),
        SystemContentView::WriteProc { timestamp, write_rank, data_to_write } => value_payload(
            timestamp,
            write_rank,
            data_to_write,
        ),
        _ => Seq::empty(),
    }
}

/// Bytes of a command, without its tag.
pub open spec fn encode_command(cmd: RegisterCommandView) -> Seq<u8> {
    match cmd {
        RegisterCommandView::Client(c) => encode_client(c),
        RegisterCommandView::System(s) => encode_system(s),
    }
}

/// Bytes of a command followed by its tag under `key`.
pub open spec fn serialized_command(cmd: RegisterCommandView, key: Seq<u8>) -> Seq<u8> {
    encode_command(cmd) + hmac_sha256(key, encode_command(cmd))
}

// ---------------------------------------------------------------------
// The format, as a function from bytes to commands.
// ---------------------------------------------------------------------

/// Whether the magic number occupies `buf[i..i + 4]`.
pub open spec fn magic_at(buf: Seq<u8>, i: int) -> bool {
    0 <= i && i + 4 <= buf.len() && buf.subrange(i, i + 4) == magic()
}

/// First position at or after `from` where the magic number stands.
pub open spec fn find_magic(buf: Seq<u8>, from: int) -> Option<int>
    decreases buf.len() - from,
{
    if from < 0 || from + 4 > buf.len() {
        None
    } else if magic_at(buf, from) {
        Some(from)
    } else {
        find_magic(buf, from + 1)
    }
}

/// Number of bytes between the header and the tag, by message type.
pub open spec fn body_len(code: u8) -> nat {
    if code == 0x01 {
        16
    } else if code == 0x02 {
        16 + 4096
    } else if code == 0x03 || code == 0x06 {
        24
    } else {
        24 + 16 + 4096
    }
}

/// The command that the message of type `code` starting at `p` stands for.
pub open spec fn decode_fields(buf: Seq<u8>, p: int, code: u8) -> RegisterCommandView {
    if code == 0x01 || code == 0x02 {
        RegisterCommandView::Client(
            ClientCommandView {
                request_identifier: be_value(buf.subrange(p + 8, p + 16)) as u64,
                sector_idx: be_value(buf.subrange(p + 16, p + 24)) as u64,
                content: if code == 0x01 {
                    ClientContentView::Read
                } else {
                    ClientContentView::Write { data: buf.subrange(p + 24, p + 24 + 4096) }
                },
            },
        )
    } else {
        let timestamp = be_value(buf.subrange(p + 32, p + 40)) as u64;
        let write_rank = buf[p + 47];
        let data = buf.subrange(p + 48, p + 48 + 4096);
        RegisterCommandView::System(
            SystemCommandView {
                header: SystemCommandHeader {
                    process_identifier: buf[p + 6],
                    msg_ident: be_value(buf.subrange(p + 8, p + 24)) as u128,
                    sector_idx: be_value(buf.subrange(p + 24, p + 32)) as u64,
                },
                content: if code == 0x03 {
                    SystemContentView::ReadProc
                } else if code == 0x06 {
                    SystemContentView::Ack
                } else if code == 0x04 {
                    SystemContentView::Value { timestamp, write_rank, sector_data: data }
                } else {
                    SystemContentView::WriteProc { timestamp, write_rank, data_to_write: data }
                },
            },
        )
    }
}

/// View of the outcome of looking for a message in a buffer.
pub enum FrameView {
    /// This many more bytes must be read before anything can be decided.
    Incomplete { missing: nat },
    /// The header names no message type; this many bytes are used up.
    UnknownType { consumed: nat },
    /// A whole message: its bytes are `buf[start..end]`, its tag follows.
    Complete { command: RegisterCommandView, start: int, end: int },
}

/// What a buffer holds: the first message in it, or how much is missing.
pub open spec fn spec_parse_frame(buf: Seq<u8>) -> FrameView {
    match find_magic(buf, 0) {
        None => FrameView::Incomplete {
            missing: if buf.len() < 4 {
                (4 - buf.len()) as nat
            } else {
                1
            },
        },
        Some(p) => if buf.len() < p + 8 {
            FrameView::Incomplete { missing: (p + 8 - buf.len()) as nat }
        } else if !is_message_type_code(buf[p + 7]) {
            FrameView::UnknownType { consumed: (p + 8) as nat }
        } else if buf.len() < p + 8 + body_len(buf[p + 7]) + 32 {
            FrameView::Incomplete {
                missing: (p + 8 + body_len(buf[p + 7]) + 32 - buf.len()) as nat,
            }
        } else {
            FrameView::Complete {
                command: decode_fields(buf, p, buf[p + 7]),
                start: p,
                end: p + 8 + body_len(buf[p + 7]),
            }
        },
    }
}

/// The key that signs a command: the system key for system commands, the
/// client key for client commands.
pub open spec fn signing_key(
    cmd: RegisterCommandView,
    hmac_system_key: Seq<u8>,
    hmac_client_key: Seq<u8>,
) -> Seq<u8> {
    match cmd {
        RegisterCommandView::Client(_) => hmac_client_key,
        RegisterCommandView::System(_) => hmac_system_key,
    }
}

/// View of one step of deserialization.
pub enum DeserializeStepView {
    NeedMore { missing: nat },
    Done { command: RegisterCommandView, hmac_valid: bool, consumed: nat },
    Failed { error: SerializationError, consumed: nat },
}

/// One step of deserialization: the first message of the buffer, whether
/// its tag is valid, and how many bytes it used up.
pub open spec fn spec_deserialize(
    buf: Seq<u8>,
    hmac_system_key: Seq<u8>,
    hmac_client_key: Seq<u8>,
) -> DeserializeStepView {
    match spec_parse_frame(buf) {
        FrameView::Incomplete { missing } => DeserializeStepView::NeedMore { missing },
        FrameView::UnknownType { consumed } => DeserializeStepView::Failed {
            error: SerializationError::InvalidMessageType,
            consumed,
        },
        FrameView::Complete { command, start, end } => DeserializeStepView::Done {
            command,
            hmac_valid: buf.subrange(end, end + 32) == hmac_sha256(
                signing_key(command, hmac_system_key, hmac_client_key),
                buf.subrange(start, end),
            ),
            consumed: (end + 32) as nat,
        },
    }
}

// ---------------------------------------------------------------------
// Serialization.
// ---------------------------------------------------------------------

/// Bytes of a client command (header and content), without the tag.
pub fn serialize_client_rc(header: &ClientCommandHeader, content: &ClientRegisterCommandContent) -> (out:
    Vec<u8>)
    ensures
        out@ == encode_client(
            ClientCommandView {
                request_identifier: header.request_identifier,
                sector_idx: header.sector_idx,
                content: content@,
            },
        ),
{
    let msg_type = match content {
        ClientRegisterCommandContent::Read => MessageType::Read,
        ClientRegisterCommandContent::Write { .. } => MessageType::Write,
    };
    let mut buff: Vec<u8> = Vec::new();
    push_magic(&mut buff);
    buff.push(0);
    buff.push(0);
    buff.push(0);
    buff.push(msg_type.code());
    push_be(&mut buff, header.request_identifier as u128, 8);
    push_be(&mut buff, header.sector_idx as u128, 8);
    match content {
        ClientRegisterCommandContent::Read => {},
        ClientRegisterCommandContent::Write { data } => {
            append_bytes(&mut buff, data.0.as_slice());
        },
    }
    assert(buff@ == encode_client(
        ClientCommandView {
            request_identifier: header.request_identifier,
            sector_idx: header.sector_idx,
            content: content@,
        },
    ));
    buff
}

/// Bytes of a system command (header and content), without the tag.
pub fn serialize_system_rc(header: &SystemCommandHeader, content: &SystemRegisterCommandContent) -> (out:
    Vec<u8>)
    ensures
        out@ == encode_system(SystemCommandView { header: *header, content: content@ }),
{
    let msg_type = match content {
        SystemRegisterCommandContent::ReadProc => MessageType::ReadProc,
        SystemRegisterCommandContent::Ack => MessageType::Ack,
        SystemRegisterCommandContent::Value { .. } => MessageType::Value,
        SystemRegisterCommandContent::WriteProc { .. } => MessageType::WriteProc,
    };
    let mut buff: Vec<u8> = Vec::new();
    push_magic(&mut buff);
    buff.push(0);
    buff.push(0);
    buff.push(header.process_identifier);
    buff.push(msg_type.code());
    push_be(&mut buff, header.msg_ident, 16);
    push_be(&mut buff, header.sector_idx as u128, 8);
    let ghost before_payload = buff@;
    match content {
        SystemRegisterCommandContent::ReadProc | SystemRegisterCommandContent::Ack => {},
        SystemRegisterCommandContent::Value { timestamp, write_rank, sector_data } => {
            push_value_payload(&mut buff, *timestamp, *write_rank, sector_data);
        },
        SystemRegisterCommandContent::WriteProc { timestamp, write_rank, data_to_write } => {
            push_value_payload(&mut buff, *timestamp, *write_rank, data_to_write);
        },
    }
    assert(buff@ == encode_system(SystemCommandView { header: *header, content: content@ }));
    buff
}

fn push_magic(out: &mut Vec<u8>)
    ensures
        final(out)@ == old(out)@ + magic(),
{
    out.push(0x61);
    out.push(0x74);
    out.push(0x64);
    out.push(0x64);
}

fn push_value_payload(out: &mut Vec<u8>, timestamp: u64, write_rank: u8, data: &SectorVec)
    ensures
        final(out)@ == old(out)@ + value_payload(timestamp, write_rank, data@),
{
    let ghost start = out@;
    push_be(out, timestamp as u128, 8);
    let ghost mid = out@;
    out.push(0);
    out.push(0);
    out.push(0);
    out.push(0);
    out.push(0);
    out.push(0);
    out.push(0);
    out.push(write_rank);
    let ghost mid2 = out@;
    append_bytes(out, data.0.as_slice());
    assert(mid2 == mid + seq![0u8, 0u8, 0u8, 0u8, 0u8, 0u8, 0u8, write_rank]);
    assert(out@ == start + value_payload(timestamp, write_rank, data@));
}

/// Bytes of a command, without the tag.
pub fn encode_register_command(cmd: &RegisterCommand) -> (out: Vec<u8>)
    ensures
        out@ == encode_command(cmd@),
{
    match cmd {
        RegisterCommand::Client(c) => serialize_client_rc(&c.header, &c.content),
        RegisterCommand::System(s) => serialize_system_rc(&s.header, &s.content),
    }
}

/// Bytes of a command followed by its HMAC-SHA256 tag under `hmac_key`.
pub fn serialize_rc(cmd: &RegisterCommand, hmac_key: &[u8]) -> (out: Vec<u8>)
    ensures
        out@ == serialized_command(cmd@, hmac_key@),
        hmac_sha256(hmac_key@, encode_command(cmd@)).len() == 32,
{
    let mut data = encode_register_command(cmd);
    let tag = hmac_sha256_tag(hmac_key, data.as_slice());
    append_bytes(&mut data, tag.as_slice());
    data
}


// ---------------------------------------------------------------------
// Deserialization.
// ---------------------------------------------------------------------

proof fn lemma_magic_at_bytes(buf: Seq<u8>, i: int)
    requires
        0 <= i,
        i + 4 <= buf.len(),
    ensures
        magic_at(buf, i) <==> (buf[i] == 0x61 && buf[i + 1] == 0x74 && buf[i + 2] == 0x64 && buf[i
            + 3] == 0x64),
{
    if buf[i] == 0x61 && buf[i + 1] == 0x74 && buf[i + 2] == 0x64 && buf[i + 3] == 0x64 {
        assert(buf.subrange(i, i + 4) =~= magic());
    }
    if magic_at(buf, i) {
        assert(buf.subrange(i, i + 4)[0] == buf[i]);
        assert(buf.subrange(i, i + 4)[1] == buf[i + 1]);
        assert(buf.subrange(i, i + 4)[2] == buf[i + 2]);
        assert(buf.subrange(i, i + 4)[3] == buf[i + 3]);
    }
}

proof fn lemma_find_magic_some(buf: Seq<u8>, from: int)
    ensures
        find_magic(buf, from) matches Some(p) ==> magic_at(buf, p) && from <= p,
    decreases buf.len() - from,
{
    if !(from < 0 || from + 4 > buf.len()) && !magic_at(buf, from) {
        lemma_find_magic_some(buf, from + 1);
    }
}

/// Position of the first magic number in the buffer.
pub fn find_magic_number(buf: &[u8]) -> (r: Option<usize>)
    ensures
        match r {
            Some(p) => find_magic(buf@, 0) == Some(p as int),
            None => find_magic(buf@, 0) is None,
        },
{
    let len = buf.len();
    let mut i: usize = 0;
    while i < len && len - i >= 4
        invariant
            i <= len,
            len == buf@.len(),
            find_magic(buf@, 0) == find_magic(buf@, i as int),
        decreases len - i,
    {
        proof {
            lemma_magic_at_bytes(buf@, i as int);
        }
        if buf[i] == 0x61 && buf[i + 1] == 0x74 && buf[i + 2] == 0x64 && buf[i + 3] == 0x64 {
            return Some(i);
        }
        i = i + 1;
    }
    None
}

/// Reads a big-endian `u64` from `buf[start..start + 8]`.
fn read_u64(buf: &[u8], start: usize) -> (v: u64)
    requires
        start + 8 <= buf@.len(),
    ensures
        v == be_value(buf@.subrange(start as int, start + 8)) as u64,
        v as nat == be_value(buf@.subrange(start as int, start + 8)),
{
    let w = read_be(buf, start, 8);
    proof {
        lemma_be_value_bound(buf@.subrange(start as int, start + 8));
        lemma_pow256_values();
    }
    w as u64
}

/// Copies the sector that starts at `buf[start]`.
fn read_sector(buf: &[u8], start: usize) -> (s: SectorVec)
    requires
        start + 4096 <= buf@.len(),
    ensures
        s@ == buf@.subrange(start as int, start + 4096),
{
    // The length of a slice fits in a `usize`: this bounds the offsets below.
    let len = buf.len();
    assert(len == buf@.len());
    SectorVec(copy_bytes(slice_subrange(buf, start, start + 4096)))
}

/// The client command of type `code` whose message starts at `buf[p]`.
pub fn construct_client_command(buf: &[u8], p: usize, msg_type: MessageType) -> (r: Result<
    ClientRegisterCommand,
    SerializationError,
>)
    requires
        (msg_type == MessageType::Read || msg_type == MessageType::Write) ==> p + 8 + body_len(
            spec_message_type_code(msg_type),
        ) <= buf@.len(),
    ensures
        r is Ok <==> (msg_type == MessageType::Read || msg_type == MessageType::Write),
        r matches Ok(cmd) ==> RegisterCommandView::Client(cmd@) == decode_fields(
            buf@,
            p as int,
            spec_message_type_code(msg_type),
        ),
        r matches Err(e) ==> e == SerializationError::InvalidData,
{
    match msg_type {
        MessageType::Read | MessageType::Write => {},
        _ => {
            return Err(SerializationError::InvalidData);
        },
    }
    // The length of a slice fits in a `usize`: this bounds the offsets below.
    let len = buf.len();
    assert(len == buf@.len());
    let rid = read_u64(buf, p + 8);
    let sidx = read_u64(buf, p + 16);
    let header = ClientCommandHeader { request_identifier: rid, sector_idx: sidx };
    let content = match msg_type {
        MessageType::Read => ClientRegisterCommandContent::Read,
        _ => ClientRegisterCommandContent::Write { data: read_sector(buf, p + 24) },
    };
    Ok(ClientRegisterCommand { header, content })
}

/// The header of the system command whose message starts at `buf[p]`.
fn construct_system_header(buf: &[u8], p: usize) -> (header: SystemCommandHeader)
    requires
        p + 32 <= buf@.len(),
    ensures
        header.process_identifier == buf@[p + 6],
        header.msg_ident == be_value(buf@.subrange(p + 8, p + 24)) as u128,
        header.sector_idx == be_value(buf@.subrange(p + 24, p + 32)) as u64,
{
    // The length of a slice fits in a `usize`: this bounds the offsets below.
    let len = buf.len();
    assert(len == buf@.len());
    let uid = read_be(buf, p + 8, 16);
    proof {
        lemma_be_value_bound(buf@.subrange(p + 8, p + 24));
        lemma_pow256_values();
    }
    let sidx = read_u64(buf, p + 24);
    SystemCommandHeader { process_identifier: buf[p + 6], msg_ident: uid, sector_idx: sidx }
}

/// The system command without payload (`ReadProc` or `Ack`) whose message
/// starts at `buf[p]`.
pub fn construct_system_command(buf: &[u8], p: usize, msg_type: MessageType) -> (r: Result<
    SystemRegisterCommand,
    SerializationError,
>)
    requires
        (msg_type == MessageType::ReadProc || msg_type == MessageType::Ack) ==> p + 8 + body_len(
            spec_message_type_code(msg_type),
        ) <= buf@.len(),
    ensures
        r is Ok <==> (msg_type == MessageType::ReadProc || msg_type == MessageType::Ack),
        r matches Ok(cmd) ==> RegisterCommandView::System(cmd@) == decode_fields(
            buf@,
            p as int,
            spec_message_type_code(msg_type),
        ),
        r matches Err(e) ==> e == SerializationError::InvalidData,
{
    match msg_type {
        MessageType::ReadProc | MessageType::Ack => {},
        _ => {
            return Err(SerializationError::InvalidData);
        },
    }
    let header = construct_system_header(buf, p);
    let content = match msg_type {
        MessageType::ReadProc => SystemRegisterCommandContent::ReadProc,
        _ => SystemRegisterCommandContent::Ack,
    };
    Ok(SystemRegisterCommand { header, content })
}

/// The system command with payload (`Value` or `WriteProc`) whose message
/// starts at `buf[p]`.
pub fn construct_advanced_system_command(buf: &[u8], p: usize, msg_type: MessageType) -> (r:
    Result<SystemRegisterCommand, SerializationError>)
    requires
        (msg_type == MessageType::Value || msg_type == MessageType::WriteProc) ==> p + 8 + body_len(
            spec_message_type_code(msg_type),
        ) <= buf@.len(),
    ensures
        r is Ok <==> (msg_type == MessageType::Value || msg_type == MessageType::WriteProc),
        r matches Ok(cmd) ==> RegisterCommandView::System(cmd@) == decode_fields(
            buf@,
            p as int,
            spec_message_type_code(msg_type),
        ),
        r matches Err(e) ==> e == SerializationError::InvalidData,
{
    match msg_type {
        MessageType::Value | MessageType::WriteProc => {},
        _ => {
            return Err(SerializationError::InvalidData);
        },
    }
    // The length of a slice fits in a `usize`: this bounds the offsets below.
    let len = buf.len();
    assert(len == buf@.len());
    let header = construct_system_header(buf, p);
    let ts = read_u64(buf, p + 32);
    let value_wr = buf[p + 47];
    let svec = read_sector(buf, p + 48);
    let content = match msg_type {
        MessageType::Value => SystemRegisterCommandContent::Value {
            timestamp: ts,
            write_rank: value_wr,
            sector_data: svec,
        },
        _ => SystemRegisterCommandContent::WriteProc {
            timestamp: ts,
            write_rank: value_wr,
            data_to_write: svec,
        },
    };
    Ok(SystemRegisterCommand { header, content })
}

/// The outcome of looking for a message in a buffer.
pub enum FrameParse {
    /// This many more bytes must be read before anything can be decided.
    Incomplete { missing: usize },
    /// The header names no message type; this many bytes are used up.
    UnknownType { consumed: usize },
    /// A whole message: its bytes are `buf[start..end]`, its tag follows.
    Complete { command: RegisterCommand, start: usize, end: usize },
}

impl View for FrameParse {
    type V = FrameView;

    open spec fn view(&self) -> FrameView {
        match self {
            FrameParse::Incomplete { missing } => FrameView::Incomplete { missing: *missing as nat },
            FrameParse::UnknownType { consumed } => FrameView::UnknownType {
                consumed: *consumed as nat,
            },
            FrameParse::Complete { command, start, end } => FrameView::Complete {
                command: command@,
                start: *start as int,
                end: *end as int,
            },
        }
    }
}

fn exec_body_len(code: u8) -> (n: usize)
    ensures
        n == body_len(code),
{
    if code == 0x01 {
        16
    } else if code == 0x02 {
        16 + 4096
    } else if code == 0x03 || code == 0x06 {
        24
    } else {
        24 + 16 + 4096
    }
}

/// Looks for the first message in the buffer: slides over bytes until the
/// magic number, reads the header, and decodes the fields once all of the
/// message and its tag are there.
pub fn parse_frame(buf: &[u8]) -> (r: FrameParse)
    ensures
        r@ == spec_parse_frame(buf@),
{
    let len = buf.len();
    let p = match find_magic_number(buf) {
        None => {
            let missing = if len < 4 {
                4 - len
            } else {
                1
            };
            return FrameParse::Incomplete { missing };
        },
        Some(p) => p,
    };
    proof {
        lemma_find_magic_some(buf@, 0);
    }
    if len - p < 8 {
        return FrameParse::Incomplete { missing: 8 - (len - p) };
    }
    let code = buf[p + 7];
    let msg_type = match MessageType::try_from(code) {
        Ok(t) => t,
        Err(_) => {
            return FrameParse::UnknownType { consumed: p + 8 };
        },
    };
    let body = exec_body_len(code);
    if len - (p + 8) < body + HMAC_TAG_LEN {
        return FrameParse::Incomplete { missing: body + HMAC_TAG_LEN - (len - (p + 8)) };
    }
    let constructed = match msg_type {
        MessageType::Read | MessageType::Write => match construct_client_command(buf, p, msg_type) {
            Ok(c) => Ok(RegisterCommand::Client(c)),
            Err(e) => Err(e),
        },
        MessageType::ReadProc | MessageType::Ack => match construct_system_command(buf, p, msg_type) {
            Ok(c) => Ok(RegisterCommand::System(c)),
            Err(e) => Err(e),
        },
        MessageType::Value | MessageType::WriteProc => match construct_advanced_system_command(
            buf,
            p,
            msg_type,
        ) {
            Ok(c) => Ok(RegisterCommand::System(c)),
            Err(e) => Err(e),
        },
    };
    let command = match constructed {
        Ok(c) => c,
        Err(_) => {
            return FrameParse::UnknownType { consumed: p + 8 };
        },
    };
    FrameParse::Complete { command, start: p, end: p + 8 + body }
}

/// One step of deserialization.
pub enum DeserializeStep {
    /// This many more bytes must be read from the stream.
    NeedMore { missing: usize },
    /// A command, whether its tag is valid, and how many bytes it used up.
    Done { command: RegisterCommand, hmac_valid: bool, consumed: usize },
    /// The message cannot be read; this many bytes are used up.
    Failed { error: SerializationError, consumed: usize },
}

impl View for DeserializeStep {
    type V = DeserializeStepView;

    open spec fn view(&self) -> DeserializeStepView {
        match self {
            DeserializeStep::NeedMore { missing } => DeserializeStepView::NeedMore {
                missing: *missing as nat,
            },
            DeserializeStep::Done { command, hmac_valid, consumed } => DeserializeStepView::Done {
                command: command@,
                hmac_valid: *hmac_valid,
                consumed: *consumed as nat,
            },
            DeserializeStep::Failed { error, consumed } => DeserializeStepView::Failed {
                error: *error,
                consumed: *consumed as nat,
            },
        }
    }
}

/// Reads the first message of the buffer and checks its tag: under the
/// system key for a system command, under the client key for a client
/// command. A command whose tag is wrong is still returned, with
/// `hmac_valid` false.
pub fn deserialize_rc(buf: &[u8], hmac_system_key: &[u8; 64], hmac_client_key: &[u8; 32]) -> (r:
    DeserializeStep)
    ensures
        r@ == spec_deserialize(buf@, hmac_system_key@, hmac_client_key@),
{
    // The length of a slice fits in a `usize`: this bounds the offsets below.
    let len = buf.len();
    assert(len == buf@.len());
    match parse_frame(buf) {
        FrameParse::Incomplete { missing } => DeserializeStep::NeedMore { missing },
        FrameParse::UnknownType { consumed } => DeserializeStep::Failed {
            error: SerializationError::InvalidMessageType,
            consumed,
        },
        FrameParse::Complete { command, start, end } => {
            let key: &[u8] = match &command {
                RegisterCommand::Client(_) => hmac_client_key.as_slice(),
                RegisterCommand::System(_) => hmac_system_key.as_slice(),
            };
            let message = slice_subrange(buf, start, end);
            let tag = slice_subrange(buf, end, end + HMAC_TAG_LEN);
            let hmac_valid = hmac_sha256_verify(key, message, tag);
            DeserializeStep::Done { command, hmac_valid, consumed: end + HMAC_TAG_LEN }
        },
    }
}


// ---------------------------------------------------------------------
// Laws of the format.
// ---------------------------------------------------------------------

/// Whether every sector that a command carries is of sector size.
pub open spec fn command_well_formed(cmd: RegisterCommandView) -> bool {
    match cmd {
        RegisterCommandView::Client(c) => match c.content {
            ClientContentView::Read => true,
            ClientContentView::Write { data } => data.len() == 4096,
        },
        RegisterCommandView::System(s) => match s.content {
            SystemContentView::Value { sector_data, .. } => sector_data.len() == 4096,
            SystemContentView::WriteProc { data_to_write, .. } => data_to_write.len() == 4096,
            _ => true,
        },
    }
}

proof fn lemma_client_frame(c: ClientCommandView, tag: Seq<u8>)
    requires
        command_well_formed(RegisterCommandView::Client(c)),
        tag.len() == 32,
    ensures
        ({
            let m = encode_client(c);
            let buf = m + tag;
            &&& m.len() == 8 + body_len(client_code(c.content))
            &&& magic_at(buf, 0)
            &&& buf[7] == client_code(c.content)
            &&& decode_fields(buf, 0, buf[7]) == RegisterCommandView::Client(c)
            &&& buf.subrange(0, m.len() as int) == m
            &&& buf.subrange(m.len() as int, m.len() + 32int) == tag
        }),
{
    let m = encode_client(c);
    let buf = m + tag;
    lemma_pow256_values();
    lemma_be_value_of_bytes(c.request_identifier as nat, 8);
    lemma_be_value_of_bytes(c.sector_idx as nat, 8);
    let rid = be_bytes(c.request_identifier as nat, 8);
    let sidx = be_bytes(c.sector_idx as nat, 8);
    assert(buf.subrange(0, 4) =~= magic());
    assert(buf.subrange(8, 16) =~= rid);
    assert(buf.subrange(16, 24) =~= sidx);
    match c.content {
        ClientContentView::Read => {},
        ClientContentView::Write { data } => {
            assert(buf.subrange(24, 24int + 4096) =~= data);
        },
    }
    assert(buf.subrange(0, m.len() as int) =~= m);
    assert(buf.subrange(m.len() as int, m.len() + 32int) =~= tag);
}

proof fn lemma_system_frame(s: SystemCommandView, tag: Seq<u8>)
    requires
        command_well_formed(RegisterCommandView::System(s)),
        tag.len() == 32,
    ensures
        ({
            let m = encode_system(s);
            let buf = m + tag;
            &&& m.len() == 8 + body_len(system_code(s.content))
            &&& magic_at(buf, 0)
            &&& buf[7] == system_code(s.content)
            &&& decode_fields(buf, 0, buf[7]) == RegisterCommandView::System(s)
            &&& buf.subrange(0, m.len() as int) == m
            &&& buf.subrange(m.len() as int, m.len() + 32int) == tag
        }),
{
    let m = encode_system(s);
    let buf = m + tag;
    lemma_pow256_values();
    lemma_be_value_of_bytes(s.header.msg_ident as nat, 16);
    lemma_be_value_of_bytes(s.header.sector_idx as nat, 8);
    assert(buf.subrange(0, 4) =~= magic());
    assert(buf.subrange(8, 24) =~= be_bytes(s.header.msg_ident as nat, 16));
    assert(buf.subrange(24, 32) =~= be_bytes(s.header.sector_idx as nat, 8));
    match s.content {
        SystemContentView::Value { timestamp, write_rank, sector_data } => {
            lemma_be_value_of_bytes(timestamp as nat, 8);
            assert(buf.subrange(32, 40) =~= be_bytes(timestamp as nat, 8));
            assert(buf[47] == write_rank);
            assert(buf.subrange(48, 48int + 4096) =~= sector_data);
        },
        SystemContentView::WriteProc { timestamp, write_rank, data_to_write } => {
            lemma_be_value_of_bytes(timestamp as nat, 8);
            assert(buf.subrange(32, 40) =~= be_bytes(timestamp as nat, 8));
            assert(buf[47] == write_rank);
            assert(buf.subrange(48, 48int + 4096) =~= data_to_write);
        },
        _ => {},
    }
    assert(decode_fields(buf, 0, buf[7]) == RegisterCommandView::System(s));
    assert(buf.subrange(0, m.len() as int) =~= m);
    assert(buf.subrange(m.len() as int, m.len() + 32int) =~= tag);
}

/// What a reader gives back of a write: the bytes of a well-formed command
/// followed by any 32-byte tag deserialize to that same command, using up
/// exactly those bytes, and the tag is reported valid exactly when it is
/// the HMAC of the command's bytes under the key that the reader uses for
/// that kind of command.
pub proof fn lemma_deserialize_encoded(
    cmd: RegisterCommandView,
    tag: Seq<u8>,
    hmac_system_key: Seq<u8>,
    hmac_client_key: Seq<u8>,
)
    requires
        command_well_formed(cmd),
        tag.len() == 32,
    ensures
        spec_deserialize(encode_command(cmd) + tag, hmac_system_key, hmac_client_key) == (
        DeserializeStepView::Done {
            command: cmd,
            hmac_valid: tag == hmac_sha256(
                signing_key(cmd, hmac_system_key, hmac_client_key),
                encode_command(cmd),
            ),
            consumed: encode_command(cmd).len() + 32,
        }),
{
    let buf = encode_command(cmd) + tag;
    match cmd {
        RegisterCommandView::Client(c) => lemma_client_frame(c, tag),
        RegisterCommandView::System(s) => lemma_system_frame(s, tag),
    }
    assert(find_magic(buf, 0) == Some(0int));
}

/// A command serialized under the key that the reader uses for its kind
/// deserializes to itself with a valid tag.
pub proof fn lemma_deserialize_serialized(
    cmd: RegisterCommandView,
    hmac_system_key: Seq<u8>,
    hmac_client_key: Seq<u8>,
)
    requires
        command_well_formed(cmd),
        hmac_sha256(
            signing_key(cmd, hmac_system_key, hmac_client_key),
            encode_command(cmd),
        ).len() == 32,
    ensures
        spec_deserialize(
            serialized_command(cmd, signing_key(cmd, hmac_system_key, hmac_client_key)),
            hmac_system_key,
            hmac_client_key,
        ) == (DeserializeStepView::Done {
            command: cmd,
            hmac_valid: true,
            consumed: serialized_command(
                cmd,
                signing_key(cmd, hmac_system_key, hmac_client_key),
            ).len(),
        }),
{
    let key = signing_key(cmd, hmac_system_key, hmac_client_key);
    lemma_deserialize_encoded(cmd, hmac_sha256(key, encode_command(cmd)), hmac_system_key, hmac_client_key);
}

/// Bytes before the first magic number are skipped: if the first magic
/// number of `garbage + message` is where `message` starts, deserializing
/// it gives what deserializing `message` gives, with the skipped bytes
/// counted as used up.
pub proof fn lemma_deserialize_skips_to_magic(
    garbage: Seq<u8>,
    message: Seq<u8>,
    hmac_system_key: Seq<u8>,
    hmac_client_key: Seq<u8>,
)
    requires
        find_magic(garbage + message, 0) == Some(garbage.len() as int),
    ensures
        spec_deserialize(garbage + message, hmac_system_key, hmac_client_key) == match spec_deserialize(
            message,
            hmac_system_key,
            hmac_client_key,
        ) {
            DeserializeStepView::NeedMore { missing } => DeserializeStepView::NeedMore { missing },
            DeserializeStepView::Done { command, hmac_valid, consumed } => DeserializeStepView::Done {
                command,
                hmac_valid,
                consumed: consumed + garbage.len(),
            },
            DeserializeStepView::Failed { error, consumed } => DeserializeStepView::Failed {
                error,
                consumed: consumed + garbage.len(),
            },
        },
{
    let buf = garbage + message;
    let g = garbage.len() as int;
    lemma_find_magic_some(buf, 0);
    assert(magic_at(buf, g));
    assert(buf.subrange(g, g + 4) =~= message.subrange(0, 4));
    assert(magic_at(message, 0));
    assert(find_magic(message, 0) == Some(0int));
    if message.len() >= 8 {
        assert(buf[g + 7] == message[7]);
        let code = message[7];
        if is_message_type_code(code) && message.len() >= 8 + body_len(code) + 32 {
            let end = 8 + body_len(code) as int;
            assert forall|a: int, b: int| 0 <= a <= b <= message.len() implies #[trigger] buf.subrange(
                g + a,
                g + b,
            ) == message.subrange(a, b) by {
                assert(buf.subrange(g + a, g + b) =~= message.subrange(a, b));
            }
            assert(buf.subrange(g + 8, g + 16) == message.subrange(8, 16));
            assert(buf.subrange(g + 16, g + 24) == message.subrange(16, 24));
            if code == 0x02 {
                assert(buf.subrange(g + 24, g + 24 + 4096) == message.subrange(24, 24int + 4096));
            }
            assert(buf.subrange(g + 8, g + 24) == message.subrange(8, 24));
            assert(buf.subrange(g + 24, g + 32) == message.subrange(24, 32));
            assert(buf.subrange(g + 32, g + 40) == message.subrange(32, 40));
            if code == 0x04 || code == 0x05 {
                assert(buf.subrange(g + 48, g + 48 + 4096) == message.subrange(48, 48int + 4096));
            }
            assert(buf[g + 6] == message[6]);
            assert(buf[g + 47] == message[47]);
            assert(decode_fields(buf, g, code) == decode_fields(message, 0, code));
            assert(buf.subrange(g, g + end) == message.subrange(0, end));
            assert(buf.subrange(g + end, g + end + 32) == message.subrange(end, end + 32));
        }
    }
}

} // verus!
