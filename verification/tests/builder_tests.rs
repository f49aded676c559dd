use stork_search::builder::build;
use stork_search::config::Config;
use stork_search::config::DataSource;
use stork_search::config::File;
use stork_search::config::Filetype;
use stork_search::config::InputConfig;
use stork_search::errors::IndexGenerationError;
use stork_search::tokens::remove_surrounding_punctuation;
use stork_search::builder::test_handler;

fn generate_invalid_file_missing_selector() -> File {
    File {
        source: DataSource::Contents("".to_string()),
        title: "Missing Selector".to_string(),
        filetype: Some(Filetype::HTML),
        html_selector_override: Some(".article".to_string()),
        ..Default::default()
    }
}

fn generate_invalid_file_empty_contents() -> File {
    File {
        source: DataSource::Contents("".to_string()),
        title: "Empty Contents".to_string(),
        filetype: Some(Filetype::PlainText),
        ..Default::default()
    }
}

fn generate_valid_file() -> File {
    File {
        source: DataSource::Contents("This is contents".to_string()),
        title: "Successful File".to_string(),
        filetype: Some(Filetype::PlainText),
        ..Default::default()
    }
}

#[test]
fn test_missing_html_selector_fails_gracefully() {
    let config = Config {
        input: InputConfig {
            files: vec![
                generate_invalid_file_missing_selector(),
                generate_valid_file(),
            ],
            ..Default::default()
        },
        ..Default::default()
    };

    assert_eq!(build(&config).unwrap().1.len(), 1);

    assert_eq!(
        build(&config).unwrap().1.first().unwrap().error_string(),
        "Error: HTML selector `.article` is not present in the file while indexing `Missing Selector`"
    );
}

#[test]
fn test_empty_contents_fails_gracefully() {
    let config = Config {
        input: InputConfig {
            files: vec![
                generate_invalid_file_empty_contents(),
                generate_valid_file(),
            ],
            ..Default::default()
        },
        ..Default::default()
    };

    assert_eq!(build(&config).unwrap().1.len(), 1);

    assert_eq!(
        build(&config).unwrap().1.first().unwrap().error_string(),
        "Error: No words in word list while indexing `Empty Contents`"
    );
}

#[test]
fn test_all_invalid_files_return_error() {
    let config = Config {
        input: InputConfig {
            files: vec![
                generate_invalid_file_empty_contents(),
                generate_invalid_file_missing_selector(),
            ],
            ..Default::default()
        },
        ..Default::default()
    };

    assert_eq!(
        build(&config).err().unwrap(),
        IndexGenerationError::NoValidFiles
    );
}

#[test]
fn test_failing_file_does_not_halt_indexing() {
    let config = Config {
        input: InputConfig {
            files: vec![
                generate_invalid_file_missing_selector(),
                generate_valid_file(),
            ],
            ..Default::default()
        },
        ..Default::default()
    };

    assert_eq!(build(&config).unwrap().1.len(), 1);
    assert_eq!(build(&config).unwrap().0.entries.len(), 1);
}

#[test]
fn test_unreadable_source_is_collected() {
    let config = Config {
        input: InputConfig {
            files: vec![
                File {
                    source: DataSource::FilePath("notes.txt".to_string()),
                    title: "On Disk".to_string(),
                    filetype: Some(Filetype::PlainText),
                    ..Default::default()
                },
                generate_valid_file(),
            ],
            ..Default::default()
        },
        ..Default::default()
    };

    let (index, errors) = build(&config).unwrap();
    assert_eq!(index.entries.len(), 1);
    assert_eq!(errors.len(), 1);
    assert_eq!(
        errors[0].error_string(),
        "Error: Cannot read source: file not resolved to contents while indexing `On Disk`"
    );
}

#[test]
fn test_missing_filetype_is_unsupported() {
    let config = Config {
        input: InputConfig {
            files: vec![File {
                source: DataSource::Contents("some words".to_string()),
                title: "No Type".to_string(),
                filetype: None,
                ..Default::default()
            }],
            ..Default::default()
        },
        ..Default::default()
    };

    assert_eq!(
        build(&config).err().unwrap(),
        IndexGenerationError::NoValidFiles
    );
}

#[test]
fn test_single_plaintext_file_containers() {
    let config = Config {
        input: InputConfig {
            files: vec![File {
                source: DataSource::Contents("The quick brown fox".to_string()),
                title: "T".to_string(),
                filetype: Some(Filetype::PlainText),
                ..Default::default()
            }],
            ..Default::default()
        },
        ..Default::default()
    };

    let (index, errors) = build(&config).unwrap();
    assert_eq!(errors.len(), 0);
    assert_eq!(index.entries.len(), 1);
    let keys: Vec<&str> = index.containers.iter().map(|c| c.0.as_str()).collect();
    for expected in ["the", "quick", "brown", "fox", "qui", "quic", "bro", "brow"] {
        assert!(keys.contains(&expected), "missing container key {}", expected);
    }
    assert_eq!(index.config.excerpt_buffer, 8);
    assert_eq!(index.config.excerpts_per_result, 5);
    assert_eq!(index.config.displayed_results_count, 10);
}

#[test]
fn test_remove_surrounding_punctuation() {
    assert_eq!(remove_surrounding_punctuation("!!hello-world?!"), "hello-world");
    assert_eq!(remove_surrounding_punctuation("it's"), "it's");
    assert_eq!(remove_surrounding_punctuation("..."), "");
    assert_eq!(remove_surrounding_punctuation("plain"), "plain");
}

#[test]
fn test_test_handler_picks_config_argument() {
    let args = vec![
        "stork".to_string(),
        "--test".to_string(),
        "config.toml".to_string(),
    ];
    assert_eq!(test_handler(&args), Some("config.toml".to_string()));
    let short = vec!["stork".to_string(), "--test".to_string()];
    assert_eq!(test_handler(&short), None);
}
