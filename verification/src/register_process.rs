//! What a process does with each command that arrives on a connection, and
//! the responses that it sends to clients.
use crate::bytes::{append_bytes, be_bytes, be_value, push_be};
use crate::domain::{
    magic, ClientContentView, ClientRegisterCommand, ClientRegisterCommandContent,
    OperationReturn, OperationReturnView, OperationSuccess, ReadReturn, RegisterCommand,
    RegisterCommandView, SectorIdx, StatusCode, spec_status_code_byte,
};
use crate::primitives::{hmac_sha256, hmac_sha256_tag};
use vstd::prelude::*;

verus! {

/// Bytes of a response to a client, without the tag: the magic number,
/// padding, the status, the request's type plus 0x40, the request
/// identifier and, for a read, the data read.
pub open spec fn encode_response(status: u8, msg_type: u8, request_identifier: u64, data: Seq<u8>) -> Seq<u8> {
    magic() + seq![0u8, 0u8, status, (msg_type + 0x40) as u8] + be_bytes(request_identifier as nat, 8)
        + data
}

/// Bytes followed by their HMAC-SHA256 tag under `key`.
pub open spec fn signed(message: Seq<u8>, key: Seq<u8>) -> Seq<u8> {
    message + hmac_sha256(key, message)
}

/// The data that a response carries for what an operation returned.
pub open spec fn response_data(op_return: OperationReturnView) -> Seq<u8> {
    match op_return {
        OperationReturnView::Read { read_data } => read_data,
        OperationReturnView::Write => Seq::empty(),
    }
}

/// A response reads back field by field: the magic number, two zero bytes,
/// the status, the request's type plus 0x40, the request identifier in
/// big-endian order, and then the data, unchanged.
pub proof fn lemma_response_fields(status: u8, msg_type: u8, request_identifier: u64, data: Seq<u8>)
    requires
        msg_type + 0x40 <= u8::MAX,
    ensures
        ({
            let r = encode_response(status, msg_type, request_identifier, data);
            &&& r.len() == 16 + data.len()
            &&& r.subrange(0, 4) == magic()
            &&& r[4] == 0u8
            &&& r[5] == 0u8
            &&& r[6] == status
            &&& r[7] == msg_type + 0x40
            &&& be_value(r.subrange(8, 16)) == request_identifier
            &&& r.subrange(16, r.len() as int) == data
        }),
{
    let b = be_bytes(request_identifier as nat, 8);
    crate::bytes::lemma_be_bytes_len(request_identifier as nat, 8);
    crate::bytes::lemma_pow256_values();
    crate::bytes::lemma_be_value_of_bytes(request_identifier as nat, 8);
    let r = encode_response(status, msg_type, request_identifier, data);
    assert(r.subrange(0, 4) =~= magic());
    assert(r.subrange(8, 16) =~= b);
    assert(r.subrange(16, r.len() as int) =~= data);
}

/// What a signed response holds: the message, then the tag of exactly
/// that message.
pub proof fn lemma_signed_fields(message: Seq<u8>, key: Seq<u8>)
    requires
        hmac_sha256(key, message).len() == 32,
    ensures
        signed(message, key).len() == message.len() + 32,
        signed(message, key).subrange(0, message.len() as int) == message,
        signed(message, key).subrange(message.len() as int, message.len() + 32int) == hmac_sha256(key, message),
        forall|i: int| 0 <= i < message.len() ==> #[trigger] signed(message, key)[i] == message[i],
{
    assert(signed(message, key).subrange(0, message.len() as int) =~= message);
    assert(signed(message, key).subrange(message.len() as int, message.len() + 32int) =~= hmac_sha256(key, message));
}

/// Signs bytes with the client key and appends the tag.
fn sign(mut message: Vec<u8>, hmac_client_key: &[u8; 32]) -> (out: Vec<u8>)
    ensures
        out@ == signed(message@, hmac_client_key@),
        hmac_sha256(hmac_client_key@, message@).len() == 32,
        out@.len() == message@.len() + 32,
{
    let tag = hmac_sha256_tag(hmac_client_key.as_slice(), message.as_slice());
    append_bytes(&mut message, tag.as_slice());
    message
}

/// Bytes of a response, without the tag.
pub fn encode_response_bytes(status: StatusCode, msg_type: u8, request_identifier: u64, data: &[u8]) -> (out:
    Vec<u8>)
    requires
        msg_type + 0x40 <= u8::MAX,
    ensures
        out@ == encode_response(spec_status_code_byte(status), msg_type, request_identifier, data@),
        out@.len() == 16 + data@.len(),
        out@.subrange(0, 4) == magic(),
        out@[4] == 0u8,
        out@[5] == 0u8,
        out@[6] == spec_status_code_byte(status),
        out@[7] == msg_type + 0x40,
        be_value(out@.subrange(8, 16)) == request_identifier,
        out@.subrange(16, out@.len() as int) == data@,
{
    proof {
        crate::bytes::lemma_be_bytes_len(request_identifier as nat, 8);
        lemma_response_fields(spec_status_code_byte(status), msg_type, request_identifier, data@);
    }
    let mut buf: Vec<u8> = Vec::new();
    buf.push(0x61);
    buf.push(0x74);
    buf.push(0x64);
    buf.push(0x64);
    buf.push(0);
    buf.push(0);
    buf.push(status.code());
    buf.push(msg_type + 0x40);
    push_be(&mut buf, request_identifier as u128, 8);
    append_bytes(&mut buf, data);
    assert(buf@ == encode_response(
        spec_status_code_byte(status),
        msg_type,
        request_identifier,
        data@,
    ));
    buf
}

/// The signed response that reports a completed operation; a read carries
/// the data read.
pub fn construct_valid_response(
    op_success: OperationSuccess,
    hmac_client_key: &[u8; 32],
    msg_type: u8,
    request_identifier: u64,
) -> (out: Vec<u8>)
    requires
        msg_type + 0x40 <= u8::MAX,
    ensures
        out@ == signed(
            encode_response(
                spec_status_code_byte(StatusCode::Success),
                msg_type,
                request_identifier,
                response_data(op_success@.op_return),
            ),
            hmac_client_key@,
        ),
        hmac_sha256(
            hmac_client_key@,
            encode_response(spec_status_code_byte(StatusCode::Success), msg_type, request_identifier, response_data(op_success@.op_return)),
        ).len() == 32,
        out@.len() == 48 + response_data(op_success@.op_return).len(),
        op_success@.op_return matches OperationReturnView::Read { read_data } ==> out@.len() == 48
            + read_data.len() && out@.subrange(16, 16 + read_data.len() as int) == read_data,
        op_success@.op_return is Write ==> out@.len() == 48,
        out@.subrange(0, 4) == magic(),
        out@[6] == spec_status_code_byte(StatusCode::Success),
        out@[7] == msg_type + 0x40,
        be_value(out@.subrange(8, 16)) == request_identifier,
        out@.subrange(out@.len() - 32, out@.len() as int) == hmac_sha256(
            hmac_client_key@,
            out@.subrange(0, out@.len() - 32),
        ),
{
    let buf = match &op_success.op_return {
        OperationReturn::Read(ReadReturn { read_data }) => encode_response_bytes(
            StatusCode::Success,
            msg_type,
            request_identifier,
            read_data.0.as_slice(),
        ),
        OperationReturn::Write => {
            let empty: Vec<u8> = Vec::new();
            encode_response_bytes(StatusCode::Success, msg_type, request_identifier, empty.as_slice())
        },
    };
    let ghost b = buf@;
    let ghost data = response_data(op_success@.op_return);
    proof {
        lemma_response_fields(spec_status_code_byte(StatusCode::Success), msg_type, request_identifier, data);
    }
    let out = sign(buf, hmac_client_key);
    proof {
        lemma_signed_fields(b, hmac_client_key@);
        assert(out@.subrange(0, 4) =~= b.subrange(0, 4));
        assert(out@.subrange(8, 16) =~= b.subrange(8, 16));
        assert(out@.subrange(16, 16 + data.len() as int) =~= b.subrange(16, b.len() as int));
        assert(out@.subrange(out@.len() - 32, out@.len() as int) =~= hmac_sha256(hmac_client_key@, b));
        assert(out@.subrange(0, out@.len() - 32) =~= b);
    }
    out
}

/// The signed response to a client command whose tag was wrong.
pub fn construct_invalid_hmac_response(
    hmac_client_key: &[u8; 32],
    msg_type: u8,
    request_identifier: u64,
) -> (out: Vec<u8>)
    requires
        msg_type + 0x40 <= u8::MAX,
    ensures
        out@ == signed(
            encode_response(
                spec_status_code_byte(StatusCode::AuthFailure),
                msg_type,
                request_identifier,
                Seq::empty(),
            ),
            hmac_client_key@,
        ),
        hmac_sha256(
            hmac_client_key@,
            encode_response(spec_status_code_byte(StatusCode::AuthFailure), msg_type, request_identifier, Seq::empty()),
        ).len() == 32,
        out@.len() == 48,
        out@.subrange(0, 4) == magic(),
        out@[6] == spec_status_code_byte(StatusCode::AuthFailure),
        out@[7] == msg_type + 0x40,
        be_value(out@.subrange(8, 16)) == request_identifier,
        out@.subrange(16, 48) == hmac_sha256(hmac_client_key@, out@.subrange(0, 16)),
{
    let empty: Vec<u8> = Vec::new();
    let buf = encode_response_bytes(StatusCode::AuthFailure, msg_type, request_identifier, empty.as_slice());
    let ghost b = buf@;
    let out = sign(buf, hmac_client_key);
    proof {
        lemma_signed_fields(b, hmac_client_key@);
        assert(out@.subrange(0, 4) =~= b.subrange(0, 4));
        assert(out@.subrange(8, 16) =~= b.subrange(8, 16));
        assert(out@.subrange(16, 48) =~= hmac_sha256(hmac_client_key@, b));
        assert(out@.subrange(0, 16) =~= b);
    }
    out
}

/// The signed response to a client command for a sector that does not exist.
pub fn construct_invalid_sector_index_response(
    hmac_client_key: &[u8; 32],
    msg_type: u8,
    request_identifier: u64,
) -> (out: Vec<u8>)
    requires
        msg_type + 0x40 <= u8::MAX,
    ensures
        out@ == signed(
            encode_response(
                spec_status_code_byte(StatusCode::InvalidSectorIndex),
                msg_type,
                request_identifier,
                Seq::empty(),
            ),
            hmac_client_key@,
        ),
        hmac_sha256(
            hmac_client_key@,
            encode_response(spec_status_code_byte(StatusCode::InvalidSectorIndex), msg_type, request_identifier, Seq::empty()),
        ).len() == 32,
        out@.len() == 48,
        out@.subrange(0, 4) == magic(),
        out@[6] == spec_status_code_byte(StatusCode::InvalidSectorIndex),
        out@[7] == msg_type + 0x40,
        be_value(out@.subrange(8, 16)) == request_identifier,
        out@.subrange(16, 48) == hmac_sha256(hmac_client_key@, out@.subrange(0, 16)),
{
    let empty: Vec<u8> = Vec::new();
    let buf = encode_response_bytes(
        StatusCode::InvalidSectorIndex,
        msg_type,
        request_identifier,
        empty.as_slice(),
    );
    let ghost b = buf@;
    let out = sign(buf, hmac_client_key);
    proof {
        lemma_signed_fields(b, hmac_client_key@);
        assert(out@.subrange(0, 4) =~= b.subrange(0, 4));
        assert(out@.subrange(8, 16) =~= b.subrange(8, 16));
        assert(out@.subrange(16, 48) =~= hmac_sha256(hmac_client_key@, b));
        assert(out@.subrange(0, 16) =~= b);
    }
    out
}

/// Request identifier and type byte of a client command (1 for a read, 2
/// for a write).
pub fn get_rid_and_msg_type(cmd: RegisterCommand) -> (r: (u64, u8))
    requires
        cmd is Client,
    ensures
        r.0 == cmd->Client_0.header.request_identifier,
        r.1 == (match cmd->Client_0.content {
            ClientRegisterCommandContent::Read => 0x01u8,
            ClientRegisterCommandContent::Write { .. } => 0x02u8,
        }),
{
    match cmd {
        RegisterCommand::Client(ClientRegisterCommand { header, content }) => {
            match content {
                ClientRegisterCommandContent::Read => (header.request_identifier, 0x01),
                ClientRegisterCommandContent::Write { .. } => (header.request_identifier, 0x02),
            }
        },
        RegisterCommand::System(..) => (0, 0),
    }
}

/// The keys and the number of sectors of one process.
pub struct RegisterProcessState {
    hmac_system_key: [u8; 64],
    hmac_client_key: [u8; 32],
    n_sectors: u64,
}

/// What to do with a command read from a connection.
pub enum ConnectionAction {
    /// Hand a client command to the worker of its sector.
    DispatchClient { sector_idx: SectorIdx, command: RegisterCommand },
    /// Hand a system command to the worker of its sector.
    DispatchSystem { sector_idx: SectorIdx, command: RegisterCommand },
    /// Send these bytes back on the connection.
    Respond { response: Vec<u8> },
    /// Drop the command.
    Ignore,
}

impl RegisterProcessState {
    pub fn new(hmac_system_key: [u8; 64], hmac_client_key: [u8; 32], n_sectors: u64) -> (s: Self)
        ensures
            s.system_key() == hmac_system_key@,
            s.client_key() == hmac_client_key@,
            s.sector_count() == n_sectors,
    {
        RegisterProcessState { hmac_system_key, hmac_client_key, n_sectors }
    }

    pub closed spec fn system_key(&self) -> Seq<u8> {
        self.hmac_system_key@
    }

    pub closed spec fn client_key(&self) -> Seq<u8> {
        self.hmac_client_key@
    }

    pub closed spec fn sector_count(&self) -> u64 {
        self.n_sectors
    }

    pub fn hmac_system_key(&self) -> (k: &[u8; 64])
        ensures
            k@ == self.system_key(),
    {
        &self.hmac_system_key
    }

    pub fn hmac_client_key(&self) -> (k: &[u8; 32])
        ensures
            k@ == self.client_key(),
    {
        &self.hmac_client_key
    }

    pub fn n_sectors(&self) -> (n: u64)
        ensures
            n == self.sector_count(),
    {
        self.n_sectors
    }

    /// What to do with a command read from a connection, given whether its
    /// tag was valid: a valid client command goes to its sector's worker if
    /// the sector exists and is answered with `InvalidSectorIndex` if not; a
    /// valid system command goes to its sector's worker; a client command
    /// with a wrong tag is answered with `AuthFailure`; a system command
    /// with a wrong tag is dropped.
    pub fn route_command(&self, cmd: RegisterCommand, hmac_ok: bool) -> (a: ConnectionAction)
        ensures
            a@ == spec_route(self.client_key(), self.sector_count(), cmd@, hmac_ok),
            routes_as_specified(self.client_key(), self.sector_count(), cmd@, hmac_ok, a@),
    {
        proof {
            lemma_route(self.client_key(), self.sector_count(), cmd@, hmac_ok);
        }
        if hmac_ok {
            match cmd {
                RegisterCommand::Client(c) => {
                    let sector_idx = c.header.sector_idx;
                    if sector_idx < self.n_sectors {
                        ConnectionAction::DispatchClient { sector_idx, command: RegisterCommand::Client(c) }
                    } else {
                        let (rid, msg_type) = get_rid_and_msg_type(RegisterCommand::Client(c));
                        let response = construct_invalid_sector_index_response(
                            &self.hmac_client_key,
                            msg_type,
                            rid,
                        );
                        ConnectionAction::Respond { response }
                    }
                },
                RegisterCommand::System(s) => {
                    let sector_idx = s.header.sector_idx;
                    ConnectionAction::DispatchSystem { sector_idx, command: RegisterCommand::System(s) }
                },
            }
        } else {
            match cmd {
                RegisterCommand::Client(c) => {
                    let (rid, msg_type) = get_rid_and_msg_type(RegisterCommand::Client(c));
                    let response = construct_invalid_hmac_response(&self.hmac_client_key, msg_type, rid);
                    ConnectionAction::Respond { response }
                },
                RegisterCommand::System(_) => ConnectionAction::Ignore,
            }
        }
    }
}

/// View of what to do with a command read from a connection.
pub enum ConnectionActionView {
    DispatchClient { sector_idx: SectorIdx, command: RegisterCommandView },
    DispatchSystem { sector_idx: SectorIdx, command: RegisterCommandView },
    Respond { response: Seq<u8> },
    Ignore,
}

impl View for ConnectionAction {
    type V = ConnectionActionView;

    open spec fn view(&self) -> ConnectionActionView {
        match self {
            ConnectionAction::DispatchClient { sector_idx, command } =>
                ConnectionActionView::DispatchClient { sector_idx: *sector_idx, command: command@ },
            ConnectionAction::DispatchSystem { sector_idx, command } =>
                ConnectionActionView::DispatchSystem { sector_idx: *sector_idx, command: command@ },
            ConnectionAction::Respond { response } => ConnectionActionView::Respond {
                response: response@,
            },
            ConnectionAction::Ignore => ConnectionActionView::Ignore,
        }
    }
}

/// The type byte of a client command.
pub open spec fn client_msg_type(c: ClientContentView) -> u8 {
    match c {
        ClientContentView::Read => 0x01u8,
        ClientContentView::Write { .. } => 0x02u8,
    }
}

/// What a process does with a command, given its client key, its number of
/// sectors and whether the command's tag was valid.
pub open spec fn spec_route(
    client_key: Seq<u8>,
    n_sectors: u64,
    cmd: RegisterCommandView,
    hmac_ok: bool,
) -> ConnectionActionView {
    match cmd {
        RegisterCommandView::Client(c) => if hmac_ok && c.sector_idx < n_sectors {
            ConnectionActionView::DispatchClient { sector_idx: c.sector_idx, command: cmd }
        } else {
            let status = if hmac_ok {
                spec_status_code_byte(StatusCode::InvalidSectorIndex)
            } else {
                spec_status_code_byte(StatusCode::AuthFailure)
            };
            ConnectionActionView::Respond {
                response: signed(
                    encode_response(status, client_msg_type(c.content), c.request_identifier, Seq::empty()),
                    client_key,
                ),
            }
        },
        RegisterCommandView::System(s) => if hmac_ok {
            ConnectionActionView::DispatchSystem { sector_idx: s.header.sector_idx, command: cmd }
        } else {
            ConnectionActionView::Ignore
        },
    }
}

/// Whether `a` is what a process must do with `cmd`: a client command with
/// a valid tag for an existing sector, read or write, goes to the worker
/// of its sector unchanged; one for a sector beyond the last is answered
/// with `InvalidSectorIndex`, and one with a wrong tag with `AuthFailure`,
/// both naming the request and signed with the client key; a system
/// command with a valid tag, whatever its content, goes unchanged to the
/// worker of its sector; one with a wrong tag is dropped.
pub open spec fn routes_as_specified(
    client_key: Seq<u8>,
    n_sectors: u64,
    cmd: RegisterCommandView,
    hmac_ok: bool,
    a: ConnectionActionView,
) -> bool {
    match cmd {
        RegisterCommandView::Client(c) => if hmac_ok && c.sector_idx < n_sectors {
            a == (ConnectionActionView::DispatchClient { sector_idx: c.sector_idx, command: cmd })
        } else {
            &&& a is Respond
            &&& a->response.len() >= 16
            &&& a->response[6] == (if hmac_ok {
                spec_status_code_byte(StatusCode::InvalidSectorIndex)
            } else {
                spec_status_code_byte(StatusCode::AuthFailure)
            })
            &&& a->response[7] == client_msg_type(c.content) + 0x40
            &&& be_value(a->response.subrange(8, 16)) == c.request_identifier
            &&& a->response.subrange(16, a->response.len() as int) == hmac_sha256(
                client_key,
                a->response.subrange(0, 16),
            )
        },
        RegisterCommandView::System(sc) => if hmac_ok {
            a == (ConnectionActionView::DispatchSystem { sector_idx: sc.header.sector_idx, command: cmd })
        } else {
            a is Ignore
        },
    }
}

/// Routing does what a process must do with every command.
pub proof fn lemma_route(client_key: Seq<u8>, n_sectors: u64, cmd: RegisterCommandView, hmac_ok: bool)
    ensures
        routes_as_specified(client_key, n_sectors, cmd, hmac_ok, spec_route(client_key, n_sectors, cmd, hmac_ok)),
{
    match cmd {
        RegisterCommandView::Client(c) => {
            if !(hmac_ok && c.sector_idx < n_sectors) {
                let status = if hmac_ok {
                    spec_status_code_byte(StatusCode::InvalidSectorIndex)
                } else {
                    spec_status_code_byte(StatusCode::AuthFailure)
                };
                let m = encode_response(status, client_msg_type(c.content), c.request_identifier, Seq::empty());
                lemma_response_fields(status, client_msg_type(c.content), c.request_identifier, Seq::empty());
                let r = signed(m, client_key);
                assert(r.subrange(8, 16) =~= m.subrange(8, 16));
                assert(r.subrange(16, r.len() as int) =~= hmac_sha256(client_key, m));
                assert(r.subrange(0, 16) =~= m);
            }
        },
        RegisterCommandView::System(_) => {},
    }
}

} // verus!
