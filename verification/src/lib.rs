//! A distributed block device built from (N,N)-atomic registers: the wire
//! format of its messages, the register algorithm as a state machine, and the
//! bookkeeping of the sectors that each process keeps on disk.
pub mod bytes;
pub mod domain;
pub mod atomic_register;
pub mod primitives;
pub mod register_client;
pub mod register_process;
pub mod sectors_manager;
pub mod stable_storage;
pub mod system;
pub mod text;
pub mod transfer_operations;
pub mod utils;

pub use crate::domain::{
    ClientCommandHeader, ClientRegisterCommand, ClientRegisterCommandContent, OperationReturn,
    OperationSuccess, ReadReturn, RegisterCommand, SectorIdx, SectorVec, StatusCode,
    SystemCommandHeader, SystemRegisterCommand, SystemRegisterCommandContent, MAGIC_NUMBER,
    SECTOR_SIZE,
};
pub use crate::utils::SerializationError;
