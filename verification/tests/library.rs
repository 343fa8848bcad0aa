use std::sync::Arc;

use stipant::config::{split_extensions, AppConfig, Base64Fault, ConfigError, ConfigField, ConfigFile};
use stipant::handler::{data_file_name, DataHandler, RZData, StipantError};
use stipant::rz::RzFault;
use stipant::state::AppState;

fn raw(key: &str, dec: &str, reference: &str, exts: &str) -> ConfigFile {
    ConfigFile {
        resource_encode_key: key.to_string(),
        dec_table: dec.to_string(),
        ref_table: reference.to_string(),
        decrypted_extensions: exts.to_string(),
    }
}

/// A configuration whose resource key leaves the bytes as they are.
fn plain_config() -> AppConfig {
    AppConfig {
        resource_encryption_key: Some(vec![0]),
        dec_table: None,
        ref_table: None,
        decrypted_extensions: None,
    }
}

fn record(hash: &[u8], offset: u32, size: u32) -> Vec<u8> {
    let mut r = vec![hash.len() as u8];
    r.extend_from_slice(hash);
    r.extend_from_slice(&offset.to_le_bytes());
    r.extend_from_slice(&size.to_le_bytes());
    r
}

fn encoded(name: &str) -> String {
    rzfile::name::encode_file_name(name, None, None).unwrap()
}

/// Names whose encoded hashes land in the same archive.
fn names_in_one_archive(count: usize) -> (u8, Vec<String>) {
    for target in 1..=8u8 {
        let mut found = Vec::new();
        for i in 0..400 {
            let name = format!("file{i}.dds");
            if rzfile::name::get_file_no(&encoded(&name)) == target {
                found.push(name);
            }
            if found.len() == count {
                return (target, found);
            }
        }
    }
    panic!("no archive with enough names");
}

fn handler_with(records: &[Vec<u8>]) -> DataHandler {
    let data: Vec<u8> = records.concat();
    match DataHandler::new("/games/rose", data, Arc::new(plain_config())) {
        Ok(h) => h,
        Err(_) => panic!("index was refused"),
    }
}

// --------------------------------------------------------------------------
// Configuration
// --------------------------------------------------------------------------

#[test]
fn nothing_loaded_gives_empty_config() {
    let config = AppConfig::new(None).ok().unwrap();
    assert!(config.resource_encryption_key.is_none());
    assert!(config.dec_table.is_none());
    assert!(config.ref_table.is_none());
    assert!(config.decrypted_extensions.is_none());
}

#[test]
fn empty_values_stay_unset() {
    let config = AppConfig::new(Some(raw("", "", "", ""))).ok().unwrap();
    assert!(config.resource_encryption_key.is_none());
    assert!(config.dec_table.is_none());
    assert!(config.ref_table.is_none());
    assert!(config.decrypted_extensions.is_none());
}

#[test]
fn base64_fields_are_decoded() {
    let config = AppConfig::from_config_file(&raw("AQID", "aGVsbG8=", "/w==", "jpg;png;cob"))
        .ok()
        .unwrap();
    assert_eq!(config.resource_encryption_key, Some(vec![1, 2, 3]));
    assert_eq!(config.dec_table, Some(b"hello".to_vec()));
    assert_eq!(config.ref_table, Some(vec![0xff]));
    assert_eq!(
        config.decrypted_extensions,
        Some(vec!["jpg".to_string(), "png".to_string(), "cob".to_string()])
    );
}

#[test]
fn invalid_base64_names_the_field() {
    let e = AppConfig::from_config_file(&raw("AQID", "not base64!", "", "")).err().unwrap();
    assert!(matches!(e, ConfigError::InvalidBase64(ConfigField::DecTable, Base64Fault::InvalidByte(3, b' '))));
    let e = AppConfig::from_config_file(&raw("", "", "@@@@", "")).err().unwrap();
    assert!(matches!(e, ConfigError::InvalidBase64(ConfigField::RefTable, Base64Fault::InvalidByte(0, b'@'))));
    let e = AppConfig::from_config_file(&raw("AQI", "", "", "")).err().unwrap();
    assert!(matches!(e, ConfigError::InvalidBase64(ConfigField::ResourceEncodeKey, Base64Fault::InvalidPadding)));
}

#[test]
fn first_invalid_field_is_reported() {
    let e = AppConfig::new(Some(raw("%%%", "%%%", "%%%", ""))).err().unwrap();
    assert!(matches!(e, ConfigError::InvalidBase64(ConfigField::ResourceEncodeKey, _)));
}

#[test]
fn extension_list_keeps_empty_pieces() {
    assert_eq!(split_extensions("a;;b;"), vec!["a", "", "b", ""]);
    assert_eq!(split_extensions("dds"), vec!["dds"]);
    assert_eq!(split_extensions(""), vec![""]);
    assert_eq!(split_extensions("ä;ö"), vec!["ä", "ö"]);
}

#[test]
fn split_then_join_gives_back_the_text() {
    for text in ["jpg;png;cob", ";x;", "", ";;", "no separator"] {
        let pieces = split_extensions(text);
        assert_eq!(pieces.join(";"), text);
        assert!(pieces.iter().all(|p| !p.contains(';')));
    }
}

// --------------------------------------------------------------------------
// Reading the index
// --------------------------------------------------------------------------

#[test]
fn index_entries_are_decoded() {
    let a = encoded("texture.dds");
    let b = encoded("sound_file.wav");
    let h = handler_with(&[record(a.as_bytes(), 10, 20), record(b.as_bytes(), 30, 40)]);
    assert_eq!(h.len(), 2);
    let e = h.get_entry_by_name("texture.dds").unwrap();
    assert_eq!(e.name, "texture.dds");
    assert_eq!(e.hash, a);
    assert_eq!(e.offset, 10);
    assert_eq!(e.size, 20);
    assert!(e.found);
    assert_eq!(e.file, rzfile::name::get_file_no(&a));
    let e = h.get_entry_by_name("sound_file.wav").unwrap();
    assert_eq!(e.offset, 30);
    assert!(h.get_entry_by_name("missing.dds").is_none());
    assert_eq!(h.data_dir(), "/games/rose");
    assert!(h.export_dir().is_none());
}

#[test]
fn later_entry_of_a_name_wins() {
    let a = encoded("texture.dds");
    let h = handler_with(&[record(a.as_bytes(), 1, 2), record(a.as_bytes(), 3, 4)]);
    assert_eq!(h.len(), 1);
    let e = h.get_entry_by_name("texture.dds").unwrap();
    assert_eq!(e.offset, 3);
    assert_eq!(e.size, 4);
}

#[test]
fn built_in_key_deciphers_the_index() {
    let a = encoded("model.cob");
    let mut data = record(a.as_bytes(), 5, 6);
    rzfile::file::cipher(&mut data, None);
    let config = AppConfig { resource_encryption_key: None, ..plain_config() };
    let h = DataHandler::new("d", data, Arc::new(config)).ok().unwrap();
    assert_eq!(h.get_entry_by_name("model.cob").unwrap().offset, 5);
}

#[test]
fn configured_key_deciphers_the_index() {
    let a = encoded("model.cob");
    let key = vec![0x11, 0x22, 0x33];
    let mut data = record(a.as_bytes(), 7, 8);
    rzfile::file::cipher(&mut data, Some(&key));
    let config = AppConfig { resource_encryption_key: Some(key), ..plain_config() };
    let h = DataHandler::new("d", data, Arc::new(config)).ok().unwrap();
    assert_eq!(h.get_entry_by_name("model.cob").unwrap().size, 8);
}

#[test]
fn plain_names_are_kept() {
    let h = handler_with(&[record(b"soundtrack.ogg", 0, 1)]);
    assert_eq!(h.get_entry_by_name("soundtrack.ogg").unwrap().name, "soundtrack.ogg");
}

#[test]
fn empty_index_is_refused() {
    let e = DataHandler::new("d", Vec::new(), Arc::new(plain_config())).err().unwrap();
    assert!(matches!(e, StipantError::Index(RzFault::InvalidLength)));
}

#[test]
fn truncated_index_is_refused() {
    let mut data = record(encoded("texture.dds").as_bytes(), 1, 2);
    data.pop();
    let e = DataHandler::new("d", data, Arc::new(plain_config())).err().unwrap();
    assert!(matches!(e, StipantError::Index(RzFault::Unknown)));
}

#[test]
fn hash_that_is_not_text_is_refused() {
    let good = record(encoded("texture.dds").as_bytes(), 1, 2);
    let bad = record(&[0xff, 0xfe, 0x41, 0x42], 3, 4);
    let e = DataHandler::new("d", [good, bad].concat(), Arc::new(plain_config())).err().unwrap();
    match e {
        StipantError::HashNotText(f) => {
            assert_eq!(f.valid_up_to, 0);
            assert_eq!(f.error_len, Some(1));
        }
        _ => panic!("expected a text error"),
    }
    let cut = record(&[0x41, 0x42, 0xc3], 3, 4);
    match DataHandler::new("d", cut, Arc::new(plain_config())).err().unwrap() {
        StipantError::HashNotText(f) => {
            assert_eq!(f.valid_up_to, 2);
            assert_eq!(f.error_len, None);
        }
        _ => panic!("expected a text error"),
    }
}

#[test]
fn short_hash_is_refused() {
    let e = DataHandler::new("d", record(b"ab", 1, 2), Arc::new(plain_config())).err().unwrap();
    assert!(matches!(e, StipantError::NameDecode(RzFault::InvalidLength)));
    let e = DataHandler::new("d", record(b"", 1, 2), Arc::new(plain_config())).err().unwrap();
    assert!(matches!(e, StipantError::NameDecode(RzFault::NoHashProvided)));
}

#[test]
fn first_failing_record_decides() {
    let short = record(b"ab", 1, 2);
    let bad = record(&[0xff, 0xfe, 0x41, 0x42], 3, 4);
    let e = DataHandler::new("d", [short, bad].concat(), Arc::new(plain_config())).err().unwrap();
    assert!(matches!(e, StipantError::NameDecode(RzFault::InvalidLength)));
}

#[test]
fn checksum_of_i32_min_goes_to_archive_one() {
    let h = handler_with(&[record(b"polygenelubricants", 1, 2)]);
    let e = h.get_entry_by_name("polygenelubricants").unwrap();
    assert_eq!(e.file, 1);
    assert_eq!(e.offset, 1);
}

#[test]
fn archive_numbers_follow_rzfile() {
    for name in ["texture.dds", "model.cob", "Sound.WAV", "Mixed_Case.TGA"] {
        let hash = encoded(name);
        let h = handler_with(&[record(hash.as_bytes(), 0, 0)]);
        let e = h.get_entry_by_name(&rzfile::name::decode_file_name(&hash, None, None, true).unwrap()).unwrap();
        assert_eq!(e.file, rzfile::name::get_file_no(&hash));
    }
}

#[test]
fn reference_table_is_the_configured_one() {
    let hash = encoded("texture.dds");
    let reference = vec![b'X'; 128];
    assert_eq!(
        rzfile::name::decode_file_name(&hash, Some(&reference), None, true).unwrap_err(),
        rzfile::error::RZError::InvalidDepth
    );
    let config = AppConfig { ref_table: Some(reference), ..plain_config() };
    let e = DataHandler::new("d", record(hash.as_bytes(), 1, 2), Arc::new(config)).err().unwrap();
    assert!(matches!(e, StipantError::NameDecode(RzFault::InvalidDepth)));
}

#[test]
fn ascii_check_of_the_decryption_table() {
    assert!(plain_config().dec_table_is_ascii());
    let ascii = AppConfig { dec_table: Some(vec![0, 65, 127]), ..plain_config() };
    assert!(ascii.dec_table_is_ascii());
    let high = AppConfig { dec_table: Some(vec![65, 200]), ..plain_config() };
    assert!(!high.dec_table_is_ascii());
}

// --------------------------------------------------------------------------
// Groups and dumping
// --------------------------------------------------------------------------

#[test]
fn no_export_dir_plans_nothing() {
    let mut h = handler_with(&[record(encoded("texture.dds").as_bytes(), 1, 2)]);
    assert!(!h.check_export_dir(true));
    assert!(h.dump_all(true).is_empty());
    h.set_export_dir("/out");
    assert!(!h.check_export_dir(false));
    assert!(h.dump_all(false).is_empty());
    assert!(h.check_export_dir(true));
    assert_eq!(h.export_dir().unwrap(), "/out");
}

#[test]
fn groups_are_ordered_by_offset_and_stable() {
    let (archive, names) = names_in_one_archive(3);
    let h0 = encoded(&names[0]);
    let h1 = encoded(&names[1]);
    let h2 = encoded(&names[2]);
    let other = encoded("outsider.tga");
    let mut h = handler_with(&[
        record(h0.as_bytes(), 300, 1),
        record(h1.as_bytes(), 100, 1),
        record(other.as_bytes(), 50, 1),
        record(h2.as_bytes(), 300, 1),
    ]);
    h.set_export_dir("/out");
    let tasks = h.dump_all(true);
    assert_eq!(tasks.len(), 8);
    let mut total = 0;
    for (i, task) in tasks.iter().enumerate() {
        assert_eq!(task.file_no as usize, i + 1);
        assert_eq!(task.data_file, format!("data.00{}", i + 1));
        assert_eq!(task.export_dir, "/out");
        total += task.entries.len();
        assert!(task.entries.iter().all(|e| e.file == task.file_no));
        assert!(task.entries.windows(2).all(|w| w[0].offset <= w[1].offset));
    }
    assert_eq!(total, 4);
    let group = &tasks[archive as usize - 1].entries;
    let order: Vec<&str> = group
        .iter()
        .filter(|e| e.file == archive && e.name != "outsider.tga")
        .map(|e| e.name.as_str())
        .collect();
    assert_eq!(order, vec![names[1].as_str(), names[0].as_str(), names[2].as_str()]);
}

#[test]
fn dump_by_filename_checks_directory_and_name() {
    let a = encoded("texture.dds");
    let mut h = handler_with(&[record(a.as_bytes(), 1, 2)]);
    assert!(matches!(
        h.dump_by_filename("texture.dds", true),
        Err(StipantError::InvalidExportDirectory)
    ));
    h.set_export_dir("/out");
    assert!(matches!(
        h.dump_by_filename("texture.dds", false),
        Err(StipantError::InvalidExportDirectory)
    ));
    assert!(matches!(h.dump_by_filename("nope.dds", true), Err(StipantError::UnknownError)));
    let target = h.dump_by_filename("texture.dds", true).ok().unwrap();
    let no = rzfile::name::get_file_no(&a);
    assert_eq!(target.entry.offset, 1);
    assert_eq!(target.data_file, format!("data.00{no}"));
    assert_eq!(target.export_dir, "/out");
}

#[test]
fn data_file_names() {
    assert_eq!(data_file_name(1), "data.001");
    assert_eq!(data_file_name(8), "data.008");
    assert_eq!(data_file_name(0), "data.000");
    assert_eq!(data_file_name(12), "data.0012");
    assert_eq!(data_file_name(200), "data.00200");
}

// --------------------------------------------------------------------------
// Exporting
// --------------------------------------------------------------------------

fn entry_named(name: &str) -> RZData {
    RZData { name: name.to_string(), ..RZData::default() }
}

#[test]
fn encrypted_files_are_deciphered() {
    let key = vec![0x0f, 0xf0];
    let config = AppConfig { resource_encryption_key: Some(key.clone()), ..plain_config() };
    let mut data = record(b"plain.bin", 0, 0);
    rzfile::file::cipher(&mut data, Some(&key));
    let h = DataHandler::new("d", data, Arc::new(config)).ok().unwrap();
    let contents = vec![1u8, 2, 3];
    let f = h.export_payload(&entry_named("plain.bin"), contents.clone()).ok().unwrap();
    let mut expected = contents.clone();
    rzfile::file::cipher(&mut expected, Some(&key));
    assert_eq!(f.contents, expected);
    assert_eq!(f.contents, vec![1 ^ 0x0f, 2 ^ 0xf0, 3 ^ 0x0f]);
    assert_eq!(f.directory, "bin");
    assert_eq!(f.file_name, "plain.bin");
    let again = h.export_payload(&entry_named("plain.bin"), f.contents).ok().unwrap();
    assert_eq!(again.contents, contents);
}

#[test]
fn default_plain_extensions_are_left_alone() {
    let h = handler_with(&[record(b"plain.bin", 0, 0)]);
    let f = h.export_payload(&entry_named("texture.dds"), vec![9, 8, 7]).ok().unwrap();
    assert_eq!(f.contents, vec![9, 8, 7]);
    assert_eq!(f.directory, "dds");
}

#[test]
fn configured_plain_extensions_replace_the_default() {
    let config = AppConfig {
        resource_encryption_key: None,
        decrypted_extensions: Some(vec!["png".to_string()]),
        ..plain_config()
    };
    let mut data = record(b"plain.bin", 0, 0);
    rzfile::file::cipher(&mut data, None);
    let h = DataHandler::new("d", data, Arc::new(config)).ok().unwrap();
    let f = h.export_payload(&entry_named("image.png"), vec![5, 5]).ok().unwrap();
    assert_eq!(f.contents, vec![5, 5]);
    let f = h.export_payload(&entry_named("texture.dds"), vec![5, 5]).ok().unwrap();
    let mut expected = vec![5u8, 5];
    rzfile::file::cipher(&mut expected, None);
    assert_eq!(f.contents, expected);
    assert_ne!(f.contents, vec![5, 5]);
    let mut twice = f.contents.clone();
    rzfile::file::cipher(&mut twice, None);
    assert_eq!(twice, vec![5, 5]);
}

#[test]
fn name_without_extension_is_refused() {
    let h = handler_with(&[record(b"plain.bin", 0, 0)]);
    assert!(matches!(
        h.export_payload(&entry_named("README"), vec![1]),
        Err(StipantError::NotAnExtension)
    ));
    assert!(matches!(
        h.export_payload(&entry_named(".hidden"), vec![1]),
        Err(StipantError::NotAnExtension)
    ));
    let f = h.export_payload(&entry_named("archive.tar.gz"), vec![1]).ok().unwrap();
    assert_eq!(f.directory, "gz");
}

#[test]
fn default_entry_is_empty() {
    let e = RZData::default();
    assert!(e.hash.is_empty() && e.name.is_empty());
    assert_eq!((e.file, e.found, e.size, e.offset), (0, false, 0, 0));
}

// --------------------------------------------------------------------------
// Application state
// --------------------------------------------------------------------------

#[test]
fn state_before_and_after_choosing_directories() {
    let mut state = AppState::new(Arc::new(plain_config()));
    assert!(state.get_filename("texture.dds").is_none());
    assert!(!state.select_export_dir("/out"));
    assert!(state.data_handler().is_none());

    let a = encoded("texture.dds");
    let count = state.select_data_dir("/games", record(a.as_bytes(), 4, 5)).ok().unwrap();
    assert_eq!(count, 1);
    assert_eq!(state.get_filename("texture.dds").unwrap().offset, 4);
    let shown = state.get_filename("unknown.dds").unwrap();
    assert!(!shown.found && shown.name.is_empty());

    assert!(state.select_export_dir("/out"));
    let h = state.data_handler().unwrap();
    assert_eq!(h.export_dir().unwrap(), "/out");
    assert_eq!(h.data_dir(), "/games");
}

#[test]
fn failed_directory_keeps_the_former_table() {
    let mut state = AppState::new(Arc::new(plain_config()));
    let a = encoded("texture.dds");
    state.select_data_dir("/games", record(a.as_bytes(), 4, 5)).ok().unwrap();
    let e = state.select_data_dir("/other", Vec::new()).err().unwrap();
    assert!(matches!(e, StipantError::Index(RzFault::InvalidLength)));
    assert_eq!(state.data_handler().unwrap().data_dir(), "/games");
}

#[test]
fn non_ascii_decryption_table_is_refused() {
    let a = encoded("texture.dds");
    let config = AppConfig { dec_table: Some(vec![65, 200]), ..plain_config() };
    let e = DataHandler::new("d", record(a.as_bytes(), 1, 2), Arc::new(config)).err().unwrap();
    assert!(matches!(e, StipantError::DecTableNotAscii));
    // The index itself is read first: an empty one fails before any name.
    let config = AppConfig { dec_table: Some(vec![65, 200]), ..plain_config() };
    let e = DataHandler::new("d", Vec::new(), Arc::new(config)).err().unwrap();
    assert!(matches!(e, StipantError::Index(RzFault::InvalidLength)));
}

#[test]
fn data_directory_checks() {
    assert!(matches!(DataHandler::check_data_dir(false, true), Err(StipantError::NotADirectory)));
    assert!(matches!(DataHandler::check_data_dir(false, false), Err(StipantError::NotADirectory)));
    assert!(matches!(DataHandler::check_data_dir(true, false), Err(StipantError::NoDataPath(0))));
    assert!(DataHandler::check_data_dir(true, true).is_ok());
}

#[test]
fn dump_by_name_takes_the_entry_dump_all_writes() {
    let a = encoded("texture.dds");
    let b = encoded("sound_file.wav");
    let mut h = handler_with(&[
        record(a.as_bytes(), 1, 2),
        record(b.as_bytes(), 7, 8),
        record(a.as_bytes(), 3, 4),
    ]);
    h.set_export_dir("/out");
    let target = h.dump_by_filename("texture.dds", true).ok().unwrap();
    assert_eq!(target.entry.offset, 3);
    let tasks = h.dump_all(true);
    let task = &tasks[target.entry.file as usize - 1];
    assert_eq!(task.data_file, target.data_file);
    assert_eq!(task.export_dir, target.export_dir);
    assert!(task.entries.iter().any(|e| Arc::ptr_eq(e, &target.entry)));
    let bytes = vec![9u8, 8, 7];
    let by_name = h.export_payload(&target.entry, bytes.clone()).ok().unwrap();
    let from_task = h.export_payload(task.entries.iter().find(|e| Arc::ptr_eq(e, &target.entry)).unwrap(), bytes).ok().unwrap();
    assert_eq!(by_name.contents, from_task.contents);
    assert_eq!(by_name.directory, "dds");
    assert_eq!(by_name.file_name, from_task.file_name);
}

#[test]
fn errors_can_be_printed_for_debugging() {
    let e = DataHandler::check_data_dir(true, false).err().unwrap();
    assert_eq!(format!("{e:?}"), "NoDataPath(0)");
    assert!(format!("{:?}", plain_config()).contains("resource_encryption_key"));
}
