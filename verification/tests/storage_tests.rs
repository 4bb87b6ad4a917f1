use atomic_disk::sectors_manager::SectorsManagerState;
use atomic_disk::stable_storage::StableStorageData;
use atomic_disk::text::{classify, format_triple, join, to_hex, FileNameKind};

fn names(v: &[&str]) -> Vec<String> {
    v.iter().map(|s| s.to_string()).collect()
}

#[test]
fn sector_file_names() {
    assert_eq!(format_triple(12, 0, 255), "12_0_255");
    assert_eq!(format_triple(u64::MAX, 10, 3), "18446744073709551615_10_3");
    let (sm, removed) = SectorsManagerState::new("/data".to_string(), vec![]);
    assert!(removed.is_empty());
    assert_eq!(sm.sectoridx_file_path(3, 44, 5), "/data/3_44_5");
}

#[test]
fn paths_are_joined_like_path_join() {
    assert_eq!(join(&"dir".to_string(), &"f".to_string()), "dir/f");
    assert_eq!(join(&"dir/".to_string(), &"f".to_string()), "dir/f");
    assert_eq!(join(&"".to_string(), &"f".to_string()), "f");
}

#[test]
fn file_names_are_classified() {
    assert!(matches!(classify("3_44_5"), FileNameKind::Sector { idx: 3, ts: 44, wr: 5 }));
    assert!(matches!(classify("+3_44_+5"), FileNameKind::Sector { idx: 3, ts: 44, wr: 5 }));
    assert!(matches!(classify("tmp_"), FileNameKind::Other));
    assert!(matches!(classify("a_b_c_d"), FileNameKind::Other));
    assert!(matches!(classify("plain"), FileNameKind::Other));
    assert!(matches!(classify("1_2_256"), FileNameKind::Unparsable));
    assert!(matches!(classify("1__2"), FileNameKind::Unparsable));
    assert!(matches!(classify("x_1_2"), FileNameKind::Unparsable));
    assert!(matches!(
        classify("18446744073709551615_18446744073709551615_255"),
        FileNameKind::Sector { idx: u64::MAX, ts: u64::MAX, wr: 255 }
    ));
    assert!(matches!(classify("18446744073709551616_1_1"), FileNameKind::Unparsable));
}

#[test]
fn recovery_keeps_the_newest_file_of_each_sector() {
    let listed = names(&["1_3_2", "junk", "1_5_1", "2_7_7", "1_4_9", "tmp_"]);
    let (sm, removed) = SectorsManagerState::new("d".to_string(), listed);
    assert_eq!(sm.read_metadata(1), (5, 1));
    assert_eq!(sm.read_metadata(2), (7, 7));
    assert_eq!(sm.read_metadata(3), (0, 0));
    assert_eq!(removed, vec!["d/1_3_2", "d/junk", "d/1_4_9", "d/tmp_"]);
    assert_eq!(sm.data_file_path(1), Some("d/1_5_1".to_string()));
    assert_eq!(sm.data_file_path(3), None);
}

#[test]
fn recovery_order_does_not_change_the_index() {
    let a = names(&["4_1_1", "4_9_0", "4_9_3"]);
    let b = names(&["4_9_3", "4_1_1", "4_9_0"]);
    let (sa, _) = SectorsManagerState::new("d".to_string(), a);
    let (sb, _) = SectorsManagerState::new("d".to_string(), b);
    assert_eq!(sa.read_metadata(4), (9, 3));
    assert_eq!(sb.read_metadata(4), (9, 3));
}

#[test]
fn writes_are_recorded() {
    let (mut sm, _) = SectorsManagerState::new("s".to_string(), vec![]);
    assert_eq!(sm.record_write(6, 0, 0), None);
    assert_eq!(sm.read_metadata(6), (0, 0));
    assert_eq!(sm.record_write(6, 2, 1), Some("s/6_0_0".to_string()));
    assert_eq!(sm.read_metadata(6), (2, 1));
    assert_eq!(sm.record_write(6, 2, 1), None);
    assert_eq!(sm.data_file_path(6), Some("s/6_2_1".to_string()));
    assert_eq!(sm.record_write(6, 3, 1), Some("s/6_2_1".to_string()));
    assert_eq!(sm.read_metadata(6), (3, 1));
    assert_eq!(sm.read_metadata(7), (0, 0));
}

#[test]
fn key_and_value_limits() {
    assert!(StableStorageData::validate_key(&"k".repeat(255)).is_ok());
    assert_eq!(
        StableStorageData::validate_key(&"k".repeat(256)),
        Err("Key length exceeds 255 bytes".to_string())
    );
    assert!(StableStorageData::validate_value(&vec![0; 65535]).is_ok());
    assert_eq!(
        StableStorageData::validate_value(&vec![0; 65536]),
        Err("Value length exceeds 65535 bytes".to_string())
    );
}

#[test]
fn keys_are_hashed_to_hex_file_names() {
    let abc = "ba7816bf8f01cfea414140de5dae2223b00361a396177a9cb410ff61f20015ad";
    assert_eq!(StableStorageData::hash_key("abc"), abc);
    let st = StableStorageData::new("/root".to_string());
    assert_eq!(st.key_path("abc"), format!("/root/{}", abc));
    assert_eq!(st.temp_path("abc"), format!("/root/{}.tmp", abc));
    assert_eq!(to_hex(&[0x00, 0x0f, 0xa0, 0xff]), "000fa0ff");
}

#[test]
fn recovery_removes_a_file_stored_at_zero() {
    let (sm, removed) = SectorsManagerState::new("d".to_string(), names(&["5_0_0", "5_1_1"]));
    assert_eq!(sm.read_metadata(5), (1, 1));
    assert_eq!(removed, vec!["d/5_0_0"]);
    let (sm, removed) = SectorsManagerState::new("d".to_string(), names(&["5_1_1", "5_0_0"]));
    assert_eq!(sm.read_metadata(5), (1, 1));
    assert_eq!(removed, vec!["d/5_0_0"]);
}

#[test]
fn recovery_reads_sector_names_as_numbers() {
    let (sm, removed) = SectorsManagerState::new("d".to_string(), names(&["+3_44_5", "3_2_1", "07_1_1"]));
    assert_eq!(sm.read_metadata(3), (44, 5));
    assert_eq!(sm.read_metadata(7), (1, 1));
    assert_eq!(removed, vec!["d/3_2_1"]);
}

#[test]
fn recovery_keeps_the_first_of_equal_files() {
    let (sm, removed) = SectorsManagerState::new("d".to_string(), names(&["3_1_1", "03_1_1", "4_0_1"]));
    assert_eq!(sm.read_metadata(3), (1, 1));
    assert_eq!(sm.read_metadata(4), (0, 1));
    assert_eq!(removed, vec!["d/03_1_1"]);
}

#[test]
fn restart_after_writes_reads_back_the_index() {
    let (mut sm, _) = SectorsManagerState::new("d".to_string(), vec![]);
    assert_eq!(sm.record_write(1, 0, 0), None);
    assert_eq!(sm.record_write(1, 4, 2), Some("d/1_0_0".to_string()));
    assert_eq!(sm.record_write(9, 1, 1), None);
    let (again, removed) = SectorsManagerState::new("d".to_string(), names(&["9_1_1", "1_4_2"]));
    assert!(removed.is_empty());
    assert_eq!(again.read_metadata(1), (4, 2));
    assert_eq!(again.read_metadata(9), (1, 1));
}

#[test]
fn temporary_file_is_in_the_directory() {
    let (sm, _) = SectorsManagerState::new("/data".to_string(), vec![]);
    assert_eq!(sm.temp_file_path(3, 44, 5), "/data/tmp_3_44_5");
    assert!(matches!(classify("tmp_3_44_5"), FileNameKind::Other));
}

#[test]
fn crash_during_a_write_recovers_old_or_new_metadata() {
    // Crash with the temporary file written: the old metadata.
    let (sm, removed) = SectorsManagerState::new("d".to_string(), names(&["tmp_3_2_1", "3_1_1", "4_5_5"]));
    assert_eq!(sm.read_metadata(3), (1, 1));
    assert_eq!(sm.read_metadata(4), (5, 5));
    assert_eq!(removed, vec!["d/tmp_3_2_1"]);
    // Crash with the new file renamed in, the old one still there: the new metadata.
    let (sm, removed) = SectorsManagerState::new("d".to_string(), names(&["3_2_1", "4_5_5", "3_1_1"]));
    assert_eq!(sm.read_metadata(3), (2, 1));
    assert_eq!(sm.read_metadata(4), (5, 5));
    assert_eq!(removed, vec!["d/3_1_1"]);
}
