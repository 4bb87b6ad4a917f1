use atomic_disk::register_process::{
    construct_invalid_hmac_response, construct_invalid_sector_index_response,
    construct_valid_response, get_rid_and_msg_type, ConnectionAction, RegisterProcessState,
};
use atomic_disk::{
    ClientCommandHeader, ClientRegisterCommand, ClientRegisterCommandContent, OperationReturn,
    OperationSuccess, ReadReturn, RegisterCommand, SectorVec, StatusCode, SystemCommandHeader,
    SystemRegisterCommand, SystemRegisterCommandContent,
};
use hmac::{Hmac, Mac};
use sha2::Sha256;

const CLIENT_KEY: [u8; 32] = [3u8; 32];
const SYSTEM_KEY: [u8; 64] = [4u8; 64];

fn reference_hmac(key: &[u8], data: &[u8]) -> Vec<u8> {
    let mut mac = <Hmac<Sha256> as Mac>::new_from_slice(key).unwrap();
    mac.update(data);
    mac.finalize().into_bytes().to_vec()
}

fn expected_response(status: u8, msg_type: u8, rid: u64, data: &[u8]) -> Vec<u8> {
    let mut v = vec![0x61, 0x74, 0x64, 0x64, 0, 0, status, msg_type];
    v.extend_from_slice(&rid.to_be_bytes());
    v.extend_from_slice(data);
    let tag = reference_hmac(&CLIENT_KEY, &v);
    v.extend_from_slice(&tag);
    v
}

fn read_cmd(rid: u64, sidx: u64) -> RegisterCommand {
    RegisterCommand::Client(ClientRegisterCommand {
        header: ClientCommandHeader { request_identifier: rid, sector_idx: sidx },
        content: ClientRegisterCommandContent::Read,
    })
}

fn write_cmd(rid: u64, sidx: u64) -> RegisterCommand {
    RegisterCommand::Client(ClientRegisterCommand {
        header: ClientCommandHeader { request_identifier: rid, sector_idx: sidx },
        content: ClientRegisterCommandContent::Write { data: SectorVec(vec![1; 4096]) },
    })
}

fn ack_cmd(sidx: u64) -> RegisterCommand {
    RegisterCommand::System(SystemRegisterCommand {
        header: SystemCommandHeader { process_identifier: 2, msg_ident: 5, sector_idx: sidx },
        content: SystemRegisterCommandContent::Ack,
    })
}

#[test]
fn status_codes() {
    assert_eq!(StatusCode::Success.code(), 0);
    assert_eq!(StatusCode::AuthFailure.code(), 1);
    assert_eq!(StatusCode::InvalidSectorIndex.code(), 2);
}

#[test]
fn valid_read_response_carries_data() {
    let data = vec![0x5a; 4096];
    let success = OperationSuccess {
        request_identifier: 42,
        op_return: OperationReturn::Read(ReadReturn { read_data: SectorVec(data.clone()) }),
    };
    let resp = construct_valid_response(success, &CLIENT_KEY, 0x01, 42);
    assert_eq!(resp, expected_response(0, 0x41, 42, &data));
    assert_eq!(resp.len(), 16 + 4096 + 32);
}

#[test]
fn valid_write_response_has_no_data() {
    let success = OperationSuccess { request_identifier: 7, op_return: OperationReturn::Write };
    let resp = construct_valid_response(success, &CLIENT_KEY, 0x02, 7);
    assert_eq!(resp, expected_response(0, 0x42, 7, &[]));
}

#[test]
fn error_responses() {
    assert_eq!(construct_invalid_hmac_response(&CLIENT_KEY, 0x01, 9), expected_response(1, 0x41, 9, &[]));
    assert_eq!(
        construct_invalid_sector_index_response(&CLIENT_KEY, 0x02, 10),
        expected_response(2, 0x42, 10, &[])
    );
}

#[test]
fn rid_and_msg_type() {
    assert_eq!(get_rid_and_msg_type(read_cmd(11, 0)), (11, 0x01));
    assert_eq!(get_rid_and_msg_type(write_cmd(12, 0)), (12, 0x02));
}

#[test]
fn routing_of_commands() {
    let rp = RegisterProcessState::new(SYSTEM_KEY, CLIENT_KEY, 10);
    assert_eq!(rp.n_sectors(), 10);
    assert_eq!(rp.hmac_client_key(), &CLIENT_KEY);
    assert_eq!(rp.hmac_system_key(), &SYSTEM_KEY);
    match rp.route_command(read_cmd(1, 9), true) {
        ConnectionAction::DispatchClient { sector_idx, command } => {
            assert_eq!(sector_idx, 9);
            assert_eq!(command, read_cmd(1, 9));
        }
        _ => panic!("expected dispatch"),
    }
    match rp.route_command(write_cmd(2, 10), true) {
        ConnectionAction::Respond { response } => {
            assert_eq!(response, expected_response(2, 0x42, 2, &[]))
        }
        _ => panic!("expected an InvalidSectorIndex response"),
    }
    match rp.route_command(read_cmd(3, 1), false) {
        ConnectionAction::Respond { response } => {
            assert_eq!(response, expected_response(1, 0x41, 3, &[]))
        }
        _ => panic!("expected an AuthFailure response"),
    }
    match rp.route_command(ack_cmd(4), true) {
        ConnectionAction::DispatchSystem { sector_idx, command } => {
            assert_eq!(sector_idx, 4);
            assert_eq!(command, ack_cmd(4));
        }
        _ => panic!("expected dispatch"),
    }
    assert!(matches!(rp.route_command(ack_cmd(4), false), ConnectionAction::Ignore));
}
