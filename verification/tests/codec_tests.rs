use sgvcs::codec::{encode_commit, parse_commit};
use sgvcs::errors::VcsError;
use sgvcs::records::{CommitData, IndexData};

#[test]
fn encode_parse_round_trip() {
    let record = CommitData {
        message: "first commit".to_string(),
        time_stamp: "01-01-2024 12:34:56".to_string(),
        files: vec![
            IndexData {
                path: "a.txt".to_string(),
                hash: "aaf4c61ddcc5e8a2dabede0f3b482cd9aea9434d".to_string(),
            },
            IndexData {
                path: "dir/b.txt".to_string(),
                hash: "7c211433f02071597741e6ff5a8ea34789abbf43".to_string(),
            },
        ],
        parent: String::new(),
    };
    let bytes = encode_commit(&record);
    let parsed = parse_commit(bytes.as_slice()).unwrap();
    assert_eq!(parsed.message, record.message);
    assert_eq!(parsed.time_stamp, record.time_stamp);
    assert_eq!(parsed.parent, record.parent);
    assert_eq!(parsed.files.len(), 2);
    assert_eq!(parsed.files[0].path, record.files[0].path);
    assert_eq!(parsed.files[0].hash, record.files[0].hash);
    assert_eq!(parsed.files[1].path, record.files[1].path);
    assert_eq!(parsed.files[1].hash, record.files[1].hash);
}

#[test]
fn encode_parse_round_trip_empty_record() {
    let record = CommitData {
        message: String::new(),
        time_stamp: String::new(),
        files: Vec::new(),
        parent: String::new(),
    };
    let bytes = encode_commit(&record);
    let parsed = parse_commit(bytes.as_slice()).unwrap();
    assert_eq!(parsed.message, String::new());
    assert_eq!(parsed.time_stamp, String::new());
    assert_eq!(parsed.parent, String::new());
    assert_eq!(parsed.files.len(), 0);
}

#[test]
fn encode_parse_round_trip_non_ascii_text() {
    let record = CommitData {
        message: "héllo wörld \u{1F600}".to_string(),
        time_stamp: "02-02-2024 00:00:00".to_string(),
        files: vec![IndexData {
            path: "nötes.txt".to_string(),
            hash: "aaf4c61ddcc5e8a2dabede0f3b482cd9aea9434d".to_string(),
        }],
        parent: "7c211433f02071597741e6ff5a8ea34789abbf43".to_string(),
    };
    let bytes = encode_commit(&record);
    let parsed = parse_commit(bytes.as_slice()).unwrap();
    assert_eq!(parsed.message, record.message);
    assert_eq!(parsed.files[0].path, record.files[0].path);
    assert_eq!(parsed.parent, record.parent);
}

#[test]
fn parse_rejects_plain_bytes() {
    assert!(matches!(
        parse_commit(b"hello".as_slice()),
        Err(VcsError::SerializationError)
    ));
}

#[test]
fn parse_rejects_empty_bytes() {
    assert!(matches!(
        parse_commit(b"".as_slice()),
        Err(VcsError::SerializationError)
    ));
}

#[test]
fn parse_rejects_trailing_bytes() {
    let record = CommitData {
        message: "m".to_string(),
        time_stamp: "t".to_string(),
        files: Vec::new(),
        parent: String::new(),
    };
    let mut bytes = encode_commit(&record);
    bytes.push(0);
    assert!(matches!(
        parse_commit(bytes.as_slice()),
        Err(VcsError::SerializationError)
    ));
}

#[test]
fn error_descriptions() {
    assert_eq!(VcsError::NotFound.describe(), "not found");
    assert_eq!(VcsError::SerializationError.describe(), "serialization error");
}
