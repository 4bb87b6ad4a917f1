use atomic_disk::transfer_operations::{
    construct_advanced_system_command, construct_client_command, construct_system_command, deserialize_rc, parse_frame, serialize_rc, DeserializeStep, FrameParse, MessageType,
};
use atomic_disk::{
    ClientCommandHeader, ClientRegisterCommand, ClientRegisterCommandContent, RegisterCommand,
    SectorVec, SerializationError, SystemCommandHeader, SystemRegisterCommand,
    SystemRegisterCommandContent, MAGIC_NUMBER,
};
use hmac::{Hmac, Mac};
use sha2::Sha256;

const SYSTEM_KEY: [u8; 64] = [7u8; 64];
const CLIENT_KEY: [u8; 32] = [9u8; 32];

fn reference_hmac(key: &[u8], data: &[u8]) -> Vec<u8> {
    let mut mac = <Hmac<Sha256> as Mac>::new_from_slice(key).unwrap();
    mac.update(data);
    mac.finalize().into_bytes().to_vec()
}

fn sector(fill: u8) -> SectorVec {
    SectorVec(vec![fill; 4096])
}

fn client_read(rid: u64, sidx: u64) -> RegisterCommand {
    RegisterCommand::Client(ClientRegisterCommand {
        header: ClientCommandHeader { request_identifier: rid, sector_idx: sidx },
        content: ClientRegisterCommandContent::Read,
    })
}

fn client_write(rid: u64, sidx: u64, fill: u8) -> RegisterCommand {
    RegisterCommand::Client(ClientRegisterCommand {
        header: ClientCommandHeader { request_identifier: rid, sector_idx: sidx },
        content: ClientRegisterCommandContent::Write { data: sector(fill) },
    })
}

fn system(pid: u8, content: SystemRegisterCommandContent) -> RegisterCommand {
    RegisterCommand::System(SystemRegisterCommand {
        header: SystemCommandHeader {
            process_identifier: pid,
            msg_ident: 0x0102_0304_0506_0708_090a_0b0c_0d0e_0f10,
            sector_idx: 77,
        },
        content,
    })
}

fn roundtrip(cmd: RegisterCommand, key: &[u8]) {
    let bytes = serialize_rc(&cmd, key);
    match deserialize_rc(&bytes, &SYSTEM_KEY, &CLIENT_KEY) {
        DeserializeStep::Done { command, hmac_valid, consumed } => {
            assert_eq!(command, cmd);
            assert!(hmac_valid);
            assert_eq!(consumed, bytes.len());
        }
        _ => panic!("a serialized command must deserialize"),
    }
}

#[test]
fn client_read_bytes_are_exact() {
    let bytes = serialize_rc(&client_read(0x0102030405060708, 5), &CLIENT_KEY);
    let mut expected = MAGIC_NUMBER.to_vec();
    expected.extend_from_slice(&[0, 0, 0, 0x01]);
    expected.extend_from_slice(&[1, 2, 3, 4, 5, 6, 7, 8]);
    expected.extend_from_slice(&[0, 0, 0, 0, 0, 0, 0, 5]);
    let tag = reference_hmac(&CLIENT_KEY, &expected);
    expected.extend_from_slice(&tag);
    assert_eq!(bytes, expected);
    assert_eq!(bytes.len(), 24 + 32);
}

#[test]
fn value_bytes_are_exact() {
    let cmd = system(3, SystemRegisterCommandContent::Value {
        timestamp: 0x1122,
        write_rank: 9,
        sector_data: sector(0xab),
    });
    let bytes = serialize_rc(&cmd, &SYSTEM_KEY);
    assert_eq!(&bytes[0..4], &[0x61, 0x74, 0x64, 0x64]);
    assert_eq!(&bytes[4..8], &[0, 0, 3, 0x04]);
    assert_eq!(&bytes[8..24], &[1, 2, 3, 4, 5, 6, 7, 8, 9, 10, 11, 12, 13, 14, 15, 16]);
    assert_eq!(&bytes[24..32], &[0, 0, 0, 0, 0, 0, 0, 77]);
    assert_eq!(&bytes[32..40], &[0, 0, 0, 0, 0, 0, 0x11, 0x22]);
    assert_eq!(&bytes[40..48], &[0, 0, 0, 0, 0, 0, 0, 9]);
    assert!(bytes[48..48 + 4096].iter().all(|b| *b == 0xab));
    let tag = reference_hmac(&SYSTEM_KEY, &bytes[..48 + 4096]);
    assert_eq!(&bytes[48 + 4096..], &tag[..]);
}

#[test]
fn every_command_roundtrips() {
    roundtrip(client_read(1, 2), &CLIENT_KEY);
    roundtrip(client_write(u64::MAX, 3, 4), &CLIENT_KEY);
    roundtrip(system(1, SystemRegisterCommandContent::ReadProc), &SYSTEM_KEY);
    roundtrip(system(2, SystemRegisterCommandContent::Ack), &SYSTEM_KEY);
    roundtrip(
        system(3, SystemRegisterCommandContent::Value {
            timestamp: u64::MAX,
            write_rank: 255,
            sector_data: sector(1),
        }),
        &SYSTEM_KEY,
    );
    roundtrip(
        system(4, SystemRegisterCommandContent::WriteProc {
            timestamp: 12,
            write_rank: 3,
            data_to_write: sector(2),
        }),
        &SYSTEM_KEY,
    );
}

#[test]
fn wrong_key_gives_invalid_hmac_but_the_command() {
    let cmd = client_write(8, 1, 5);
    let bytes = serialize_rc(&cmd, &SYSTEM_KEY);
    match deserialize_rc(&bytes, &SYSTEM_KEY, &CLIENT_KEY) {
        DeserializeStep::Done { command, hmac_valid, consumed } => {
            assert_eq!(command, cmd);
            assert!(!hmac_valid);
            assert_eq!(consumed, bytes.len());
        }
        _ => panic!("expected a command"),
    }
}

#[test]
fn corrupted_tag_is_invalid() {
    let cmd = system(2, SystemRegisterCommandContent::Ack);
    let mut bytes = serialize_rc(&cmd, &SYSTEM_KEY);
    let last = bytes.len() - 1;
    bytes[last] ^= 1;
    match deserialize_rc(&bytes, &SYSTEM_KEY, &CLIENT_KEY) {
        DeserializeStep::Done { hmac_valid, .. } => assert!(!hmac_valid),
        _ => panic!("expected a command"),
    }
}

#[test]
fn garbage_before_magic_is_skipped() {
    let cmd = client_read(3, 4);
    let bytes = serialize_rc(&cmd, &CLIENT_KEY);
    let mut stream = vec![0x61, 0x74, 0x64, 1, 2, 3];
    stream.extend_from_slice(&bytes);
    match deserialize_rc(&stream, &SYSTEM_KEY, &CLIENT_KEY) {
        DeserializeStep::Done { command, hmac_valid, consumed } => {
            assert_eq!(command, cmd);
            assert!(hmac_valid);
            assert_eq!(consumed, stream.len());
        }
        _ => panic!("expected a command"),
    }
}

#[test]
fn missing_bytes_are_reported() {
    match deserialize_rc(&[], &SYSTEM_KEY, &CLIENT_KEY) {
        DeserializeStep::NeedMore { missing } => assert_eq!(missing, 4),
        _ => panic!("expected NeedMore"),
    }
    match deserialize_rc(&[1, 2, 3, 4], &SYSTEM_KEY, &CLIENT_KEY) {
        DeserializeStep::NeedMore { missing } => assert_eq!(missing, 1),
        _ => panic!("expected NeedMore"),
    }
    match deserialize_rc(&[9, 0x61, 0x74, 0x64, 0x64, 0], &SYSTEM_KEY, &CLIENT_KEY) {
        DeserializeStep::NeedMore { missing } => assert_eq!(missing, 3),
        _ => panic!("expected NeedMore"),
    }
    let bytes = serialize_rc(&client_write(1, 1, 1), &CLIENT_KEY);
    match deserialize_rc(&bytes[..100], &SYSTEM_KEY, &CLIENT_KEY) {
        DeserializeStep::NeedMore { missing } => assert_eq!(missing, bytes.len() - 100),
        _ => panic!("expected NeedMore"),
    }
}

#[test]
fn unknown_message_type_fails_after_header() {
    let stream = [0u8, 0x61, 0x74, 0x64, 0x64, 0, 0, 0, 0x07, 1, 2];
    match deserialize_rc(&stream, &SYSTEM_KEY, &CLIENT_KEY) {
        DeserializeStep::Failed { error, consumed } => {
            assert_eq!(error, SerializationError::InvalidMessageType);
            assert_eq!(consumed, 9);
        }
        _ => panic!("expected a failure"),
    }
    match parse_frame(&stream) {
        FrameParse::UnknownType { consumed } => assert_eq!(consumed, 9),
        _ => panic!("expected an unknown type"),
    }
}

#[test]
fn frame_bounds_of_a_system_message() {
    let bytes = serialize_rc(&system(5, SystemRegisterCommandContent::ReadProc), &SYSTEM_KEY);
    match parse_frame(&bytes) {
        FrameParse::Complete { start, end, command } => {
            assert_eq!(start, 0);
            assert_eq!(end, 32);
            assert_eq!(command, system(5, SystemRegisterCommandContent::ReadProc));
        }
        _ => panic!("expected a frame"),
    }
}

#[test]
fn message_type_codes() {
    assert_eq!(MessageType::try_from(0x01), Ok(MessageType::Read));
    assert_eq!(MessageType::try_from(0x02), Ok(MessageType::Write));
    assert_eq!(MessageType::try_from(0x03), Ok(MessageType::ReadProc));
    assert_eq!(MessageType::try_from(0x04), Ok(MessageType::Value));
    assert_eq!(MessageType::try_from(0x05), Ok(MessageType::WriteProc));
    assert_eq!(MessageType::try_from(0x06), Ok(MessageType::Ack));
    assert_eq!(MessageType::try_from(0x00), Err(SerializationError::InvalidMessageType));
    assert_eq!(MessageType::try_from(0x41), Err(SerializationError::InvalidMessageType));
    assert_eq!(MessageType::WriteProc.code(), 0x05);
}

#[test]
fn error_messages() {
    assert_eq!(SerializationError::Io.message(), "IO error");
    assert_eq!(SerializationError::InvalidHMAC.message(), "Invalid HMAC signature");
    assert_eq!(SerializationError::InvalidMagicNumber.message(), "Invalid magic number");
    assert_eq!(SerializationError::InvalidMessageType.message(), "Invalid message type");
}

#[test]
fn constructing_a_command_of_another_kind_is_invalid_data() {
    let bytes = serialize_rc(&client_read(1, 2), &CLIENT_KEY);
    assert_eq!(
        construct_client_command(&bytes, 0, MessageType::Ack),
        Err(SerializationError::InvalidData)
    );
    assert_eq!(
        construct_system_command(&bytes, 0, MessageType::Read),
        Err(SerializationError::InvalidData)
    );
    match construct_client_command(&bytes, 0, MessageType::Read) {
        Ok(c) => assert_eq!(RegisterCommand::Client(c), client_read(1, 2)),
        Err(_) => panic!("a read parses"),
    }
    assert_eq!(SerializationError::InvalidData.message(), "Invalid data");
}

#[test]
fn constructing_another_kind_reads_no_more_than_the_header() {
    let short = vec![0u8; 24];
    assert_eq!(
        construct_client_command(&short, 0, MessageType::Value),
        Err(SerializationError::InvalidData)
    );
    assert_eq!(
        construct_system_command(&short, 0, MessageType::Write),
        Err(SerializationError::InvalidData)
    );
    assert_eq!(
        construct_advanced_system_command(&short, 0, MessageType::Ack),
        Err(SerializationError::InvalidData)
    );
}
