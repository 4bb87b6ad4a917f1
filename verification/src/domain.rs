//! The messages and values that processes and clients exchange, and their
//! mathematical views.
use crate::bytes::copy_bytes;
use vstd::prelude::*;

verus! {

/// Index of a sector of the shared disk.
pub type SectorIdx = u64;

/// Number of bytes in one sector.
pub const SECTOR_SIZE: usize = 4096;

/// The four bytes that open every message on the wire.
pub const MAGIC_NUMBER: [u8; 4] = [0x61, 0x74, 0x64, 0x64];

/// The magic number as a sequence of bytes.
pub open spec fn magic() -> Seq<u8> {
    seq![0x61u8, 0x74u8, 0x64u8, 0x64u8]
}

/// Contents of one sector.
#[derive(Debug, PartialEq, Eq)]
pub struct SectorVec(pub Vec<u8>);

impl View for SectorVec {
    type V = Seq<u8>;

    open spec fn view(&self) -> Seq<u8> {
        self.0@
    }
}

impl Clone for SectorVec {
    fn clone(&self) -> (res: Self)
        ensures
            res@ == self@,
    {
        SectorVec(copy_bytes(self.0.as_slice()))
    }
}

impl SectorVec {
    /// A sector filled with zeros, the contents of a sector never written.
    pub fn zeroed() -> (res: SectorVec)
        ensures
            res@ == Seq::new(SECTOR_SIZE as nat, |i: int| 0u8),
    {
        let mut v: Vec<u8> = Vec::new();
        let mut i: usize = 0;
        while i < SECTOR_SIZE
            invariant
                i <= SECTOR_SIZE,
                v@ == Seq::new(i as nat, |j: int| 0u8),
            decreases SECTOR_SIZE - i,
        {
            v.push(0u8);
            i = i + 1;
        }
        SectorVec(v)
    }
}

/// Header of a command that a client sends.
#[derive(Debug, Clone, Copy, PartialEq, Eq)]
pub struct ClientCommandHeader {
    pub request_identifier: u64,
    pub sector_idx: SectorIdx,
}

/// Contents of a command that a client sends.
#[derive(Debug, Clone, PartialEq, Eq)]
pub enum ClientRegisterCommandContent {
    Read,
    Write { data: SectorVec },
}

/// A command that a client sends.
#[derive(Debug, Clone, PartialEq, Eq)]
pub struct ClientRegisterCommand {
    pub header: ClientCommandHeader,
    pub content: ClientRegisterCommandContent,
}

/// Header of a command that one process sends another.
#[derive(Debug, Clone, Copy, PartialEq, Eq)]
pub struct SystemCommandHeader {
    pub process_identifier: u8,
    pub msg_ident: u128,
    pub sector_idx: SectorIdx,
}

/// Contents of a command that one process sends another.
#[derive(Debug, Clone, PartialEq, Eq)]
pub enum SystemRegisterCommandContent {
    ReadProc,
    Value { timestamp: u64, write_rank: u8, sector_data: SectorVec },
    WriteProc { timestamp: u64, write_rank: u8, data_to_write: SectorVec },
    Ack,
}

/// A command that one process sends another.
#[derive(Debug, Clone, PartialEq, Eq)]
pub struct SystemRegisterCommand {
    pub header: SystemCommandHeader,
    pub content: SystemRegisterCommandContent,
}

/// Any command that a process receives.
#[derive(Debug, Clone, PartialEq, Eq)]
pub enum RegisterCommand {
    Client(ClientRegisterCommand),
    System(SystemRegisterCommand),
}

/// What a completed read returns.
#[derive(Debug, Clone, PartialEq, Eq)]
pub struct ReadReturn {
    pub read_data: SectorVec,
}

/// What a completed client operation returns.
#[derive(Debug, Clone, PartialEq, Eq)]
pub enum OperationReturn {
    Read(ReadReturn),
    Write,
}

/// The result that is handed to a client once its command completes.
#[derive(Debug, Clone, PartialEq, Eq)]
pub struct OperationSuccess {
    pub request_identifier: u64,
    pub op_return: OperationReturn,
}

/// Status of a response to a client.
#[derive(Debug, Clone, Copy, PartialEq, Eq)]
pub enum StatusCode {
    Success,
    AuthFailure,
    InvalidSectorIndex,
}

/// The byte that stands for a status on the wire.
pub open spec fn spec_status_code_byte(s: StatusCode) -> u8 {
    match s {
        StatusCode::Success => 0u8,
        StatusCode::AuthFailure => 1u8,
        StatusCode::InvalidSectorIndex => 2u8,
    }
}

impl StatusCode {
    /// The byte that stands for this status on the wire.
    pub fn code(&self) -> (b: u8)
        ensures
            b == spec_status_code_byte(*self),
    {
        match self {
            StatusCode::Success => 0u8,
            StatusCode::AuthFailure => 1u8,
            StatusCode::InvalidSectorIndex => 2u8,
        }
    }
}

// ---------------------------------------------------------------------
// Mathematical views of the commands.
// ---------------------------------------------------------------------

/// View of the contents of a client command.
pub enum ClientContentView {
    Read,
    Write { data: Seq<u8> },
}

/// View of a client command.
pub struct ClientCommandView {
    pub request_identifier: u64,
    pub sector_idx: SectorIdx,
    pub content: ClientContentView,
}

/// View of the contents of a system command.
pub enum SystemContentView {
    ReadProc,
    Value { timestamp: u64, write_rank: u8, sector_data: Seq<u8> },
    WriteProc { timestamp: u64, write_rank: u8, data_to_write: Seq<u8> },
    Ack,
}

/// View of a system command.
pub struct SystemCommandView {
    pub header: SystemCommandHeader,
    pub content: SystemContentView,
}

/// View of any command.
pub enum RegisterCommandView {
    Client(ClientCommandView),
    System(SystemCommandView),
}

/// View of what a completed operation returns.
pub enum OperationReturnView {
    Read { read_data: Seq<u8> },
    Write,
}

/// View of an operation's result.
pub struct OperationSuccessView {
    pub request_identifier: u64,
    pub op_return: OperationReturnView,
}

impl View for ClientRegisterCommandContent {
    type V = ClientContentView;

    open spec fn view(&self) -> ClientContentView {
        match self {
            ClientRegisterCommandContent::Read => ClientContentView::Read,
            ClientRegisterCommandContent::Write { data } => ClientContentView::Write { data: data@ },
        }
    }
}

impl View for ClientRegisterCommand {
    type V = ClientCommandView;

    open spec fn view(&self) -> ClientCommandView {
        ClientCommandView {
            request_identifier: self.header.request_identifier,
            sector_idx: self.header.sector_idx,
            content: self.content@,
        }
    }
}

impl View for SystemRegisterCommandContent {
    type V = SystemContentView;

    open spec fn view(&self) -> SystemContentView {
        match self {
            SystemRegisterCommandContent::ReadProc => SystemContentView::ReadProc,
            SystemRegisterCommandContent::Value { timestamp, write_rank, sector_data } =>
                SystemContentView::Value {
                timestamp: *timestamp,
                write_rank: *write_rank,
                sector_data: sector_data@,
            },
            SystemRegisterCommandContent::WriteProc { timestamp, write_rank, data_to_write } =>
                SystemContentView::WriteProc {
                timestamp: *timestamp,
                write_rank: *write_rank,
                data_to_write: data_to_write@,
            },
            SystemRegisterCommandContent::Ack => SystemContentView::Ack,
        }
    }
}

impl View for SystemRegisterCommand {
    type V = SystemCommandView;

    open spec fn view(&self) -> SystemCommandView {
        SystemCommandView { header: self.header, content: self.content@ }
    }
}

impl View for RegisterCommand {
    type V = RegisterCommandView;

    open spec fn view(&self) -> RegisterCommandView {
        match self {
            RegisterCommand::Client(c) => RegisterCommandView::Client(c@),
            RegisterCommand::System(s) => RegisterCommandView::System(s@),
        }
    }
}

impl View for OperationSuccess {
    type V = OperationSuccessView;

    open spec fn view(&self) -> OperationSuccessView {
        OperationSuccessView {
            request_identifier: self.request_identifier,
            op_return: match &self.op_return {
                OperationReturn::Read(r) => OperationReturnView::Read { read_data: r.read_data@ },
                OperationReturn::Write => OperationReturnView::Write,
            },
        }
    }
}

} // verus!
