use book_catalog::naming::{artifact_path, u64_to_dec_string, ArtifactNamer};
use book_catalog::order::{compare_titles, TitleOrder};
use book_catalog::scanner::is_supported_candidate;

#[test]
fn decimal_rendering_exact_values() {
    assert_eq!(u64_to_dec_string(0), "0");
    assert_eq!(u64_to_dec_string(7), "7");
    assert_eq!(u64_to_dec_string(10), "10");
    assert_eq!(u64_to_dec_string(10000), "10000");
    assert_eq!(u64_to_dec_string(12345), "12345");
    assert_eq!(u64_to_dec_string(u64::MAX), "18446744073709551615");
}

#[test]
fn artifact_path_shape() {
    assert_eq!(artifact_path("library", 42), "library/covers/42.jpg");
    assert_eq!(artifact_path("", 0), "/covers/0.jpg");
}

#[test]
fn one_run_yields_distinct_artifact_names() {
    let mut namer = ArtifactNamer::new();
    let mut paths: Vec<String> = Vec::new();
    for _ in 0..100 {
        paths.push(namer.next_artifact_path("library"));
    }
    for i in 0..paths.len() {
        for j in 0..paths.len() {
            if i != j {
                assert_ne!(paths[i], paths[j]);
            }
        }
    }
    assert_eq!(paths[0], "library/covers/0.jpg");
    assert_eq!(paths[99], "library/covers/99.jpg");
}

#[test]
fn candidate_filter_accepts_only_the_supported_extension() {
    assert!(is_supported_candidate("library/one.epub"));
    assert!(is_supported_candidate("b.epub"));
    assert!(!is_supported_candidate("library/one.pdf"));
    assert!(!is_supported_candidate("library/one.epub.txt"));
    // a dotfile with no stem has no extension
    assert!(!is_supported_candidate(".epub"));
    assert!(!is_supported_candidate("library/.epub"));
    assert!(!is_supported_candidate(""));
    // the extension proper, not merely a name containing it
    assert!(is_supported_candidate("one.epub.epub"));
}

#[test]
fn title_comparison_orders_lexicographically() {
    assert_eq!(compare_titles("Alpha", "Bravo"), TitleOrder::Before);
    assert_eq!(compare_titles("Bravo", "Alpha"), TitleOrder::After);
    assert_eq!(compare_titles("Alpha", "Alpha"), TitleOrder::Same);
    // a prefix comes before its extension
    assert_eq!(compare_titles("Alp", "Alpha"), TitleOrder::Before);
    assert_eq!(compare_titles("Alpha", "Alp"), TitleOrder::After);
    // the empty string comes first
    assert_eq!(compare_titles("", "A"), TitleOrder::Before);
    assert_eq!(compare_titles("", ""), TitleOrder::Same);
    // case-sensitive: upper-case code points precede lower-case ones
    assert_eq!(compare_titles("Zebra", "apple"), TitleOrder::Before);
}
