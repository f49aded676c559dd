use stork_search::builder::build;
use stork_search::cache::IndexCache;
use stork_search::config::Config;
use stork_search::config::DataSource;
use stork_search::config::File;
use stork_search::config::Filetype;
use stork_search::config::InputConfig;
use stork_search::errors::SearchError;
use stork_search::search::search;

fn doc(title: &str, contents: &str) -> File {
    File {
        source: DataSource::Contents(contents.to_string()),
        title: title.to_string(),
        filetype: Some(Filetype::PlainText),
        ..Default::default()
    }
}

fn build_index(files: Vec<File>) -> stork_search::model::Index {
    let config = Config {
        input: InputConfig {
            files,
            ..Default::default()
        },
        ..Default::default()
    };
    build(&config).unwrap().0
}

#[test]
fn test_exact_query_single_hit() {
    let index = build_index(vec![doc("T", "The quick brown fox")]);
    let out = search(&index, &"quick".to_string());
    assert_eq!(out.total_hit_count, 1);
    assert_eq!(out.results.len(), 1);
    assert_eq!(out.results[0].excerpts.len(), 1);
    assert_eq!(out.results[0].excerpts[0].text, "The quick brown fox");
    assert_eq!(out.results[0].excerpts[0].highlight_ranges[0].beginning, 4);
    assert_eq!(out.results[0].excerpts[0].highlight_ranges[0].end, 9);
}

#[test]
fn test_prefix_query_matches() {
    let index = build_index(vec![doc("T", "an international treaty")]);
    let out = search(&index, &"inter".to_string());
    assert_eq!(out.total_hit_count, 1);
    assert_eq!(out.results.len(), 1);
    // prefix quality: 1024 - (13 - 5) * 32 = 768 of 1024, at least one half
    assert_eq!(out.results[0].score, 2 * 768 + 4096);
}

#[test]
fn test_fuzzy_query_matches() {
    let index = build_index(vec![doc("T", "search the archives")]);
    let out = search(&index, &"serach".to_string());
    assert_eq!(out.total_hit_count, 1);
    assert_eq!(out.results.len(), 1);
    // distance 2 of 6 characters: quality (6 - 2) * 1024 / 6 = 682 of 1024
    assert_eq!(out.results[0].score, 2 * 682 + 4096);
}

#[test]
fn test_coverage_bonus_ranks_both_terms_first() {
    let index = build_index(vec![doc("A", "cat"), doc("B", "cat dog")]);
    let out = search(&index, &"cat dog".to_string());
    assert_eq!(out.total_hit_count, 2);
    assert_eq!(out.results[0].title, "B");
    assert_eq!(out.results[1].title, "A");
}

#[test]
fn test_added_term_does_not_drop_hits() {
    let index = build_index(vec![doc("A", "cat"), doc("B", "cat dog")]);
    let one = search(&index, &"cat".to_string());
    let two = search(&index, &"cat dog".to_string());
    assert!(one.total_hit_count <= two.total_hit_count);
}

#[test]
fn test_stemmed_query_matches_inflected_word() {
    let index = build_index(vec![doc("T", "searching fish")]);
    let out = search(&index, &"search".to_string());
    assert_eq!(out.total_hit_count, 1);
}

#[test]
fn test_empty_query_returns_empty_output() {
    let index = build_index(vec![doc("T", "anything at all")]);
    let out = search(&index, &"   ".to_string());
    assert_eq!(out.total_hit_count, 0);
    assert_eq!(out.results.len(), 0);
}

#[test]
fn test_title_hit_outranks_body_hit() {
    let index = build_index(vec![doc("salmon", "about trout"), doc("trout", "about salmon")]);
    let out = search(&index, &"salmon".to_string());
    assert_eq!(out.total_hit_count, 2);
    assert_eq!(out.results[0].title, "salmon");
    assert_eq!(out.results[0].title_highlight_ranges.len(), 1);
}

#[test]
fn test_cache_round_trip_and_missing_name() {
    let index = build_index(vec![doc("T", "The quick brown fox")]);
    let bytes = index.to_bytes().unwrap();
    let mut cache = IndexCache::new();
    assert_eq!(
        cache.parse_and_cache_index(&bytes, &"a".to_string()).unwrap(),
        1
    );
    let out = cache
        .search_from_cache(&"a".to_string(), &"quick".to_string())
        .unwrap();
    assert_eq!(out.total_hit_count, 1);
    assert_eq!(
        cache
            .search_from_cache(&"b".to_string(), &"quick".to_string())
            .err()
            .unwrap(),
        SearchError::IndexNotInCache
    );
}
