use stork_search::builder::build;
use stork_search::codec::parse_index;
use stork_search::config::Config;
use stork_search::config::DataSource;
use stork_search::config::File;
use stork_search::config::Filetype;
use stork_search::config::InputConfig;
use stork_search::errors::IndexParseError;

fn sample_config(contents: &str) -> Config {
    Config {
        input: InputConfig {
            files: vec![File {
                source: DataSource::Contents(contents.to_string()),
                title: "Tïtle ñ".to_string(),
                filetype: Some(Filetype::PlainText),
                ..Default::default()
            }],
            ..Default::default()
        },
        ..Default::default()
    }
}

#[test]
fn test_round_trip_preserves_index() {
    let (index, _) = build(&sample_config("Müller quick brown fox")).unwrap();
    let bytes = index.to_bytes().unwrap();
    let decoded = parse_index(&bytes).unwrap();
    assert_eq!(decoded, index);
}

#[test]
fn test_build_is_byte_deterministic() {
    let b1 = build(&sample_config("one two three")).unwrap().0.to_bytes().unwrap();
    let b2 = build(&sample_config("one two three")).unwrap().0.to_bytes().unwrap();
    assert_eq!(b1, b2);
}

#[test]
fn test_unknown_version_is_reported() {
    let mut bytes: Vec<u8> = vec![0, 0, 0, 7];
    bytes.extend_from_slice(b"stork-2");
    bytes.extend_from_slice(&[0, 0, 0, 0]);
    assert_eq!(
        parse_index(&bytes).err().unwrap(),
        IndexParseError::UnknownIndexVersion("stork-2".to_string())
    );
}

#[test]
fn test_truncated_blob_is_malformed() {
    let bytes: Vec<u8> = vec![0, 0, 0, 7, 115, 116];
    assert_eq!(parse_index(&bytes).err().unwrap(), IndexParseError::Malformed);
    let empty: Vec<u8> = Vec::new();
    assert_eq!(parse_index(&empty).err().unwrap(), IndexParseError::Malformed);
}

#[test]
fn test_envelope_shape() {
    let (index, _) = build(&sample_config("alpha beta")).unwrap();
    let bytes = index.to_bytes().unwrap();
    assert_eq!(&bytes[0..4], &[0, 0, 0, 7]);
    assert_eq!(&bytes[4..11], b"stork-3");
    let l2 = u32::from_be_bytes([bytes[11], bytes[12], bytes[13], bytes[14]]) as usize;
    assert_eq!(bytes.len(), 15 + l2);
}
