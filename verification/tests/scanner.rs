use deduplicator::fileinfo::FileInfo;
use deduplicator::params::Params;
use deduplicator::scanner::Scanner;
use deduplicator::server::Server;

fn scan_into_server(scanner: &Scanner, entries: &[(&str, &str, u64)]) -> Vec<String> {
    let mut server = Server::new(Params::default(), 1);
    for (path, ext, size) in entries {
        if scanner.accepts_file(&String::from(*ext), *size) {
            server.push_file(FileInfo::new(String::from(*path), *size, 0));
        }
    }
    server.filequeue.iter().map(|f| f.path.clone()).collect()
}

const ENTRIES: [(&str, &str, u64); 4] = [
    ("/t/this-is-a-js-file.js", "js", 10),
    ("/t/this-is-a-css-file.css", "css", 10),
    ("/t/this-is-a-csv-file.csv", "csv", 10),
    ("/t/this-is-a-rust-file.rs", "rs", 10),
];

#[test]
fn ensure_file_include_type_filter_includes_expected_file_types() {
    let params = Params {
        types: Some(String::from("js,csv")),
        ..Default::default()
    };
    let scanner = Scanner::new(&params, String::from("/t"));
    let scanned = scan_into_server(&scanner, &ENTRIES);

    assert!(scanned.iter().any(|p| p == "/t/this-is-a-js-file.js"));
    assert!(scanned.iter().any(|p| p == "/t/this-is-a-csv-file.csv"));
    assert!(scanned.iter().all(|p| p != "/t/this-is-a-css-file.css"));
    assert!(scanned.iter().all(|p| p != "/t/this-is-a-rust-file.rs"));
}

#[test]
fn ensure_file_exclude_type_filter_excludes_expected_file_types() {
    let params = Params {
        exclude_types: Some(String::from("js,csv")),
        ..Default::default()
    };
    let scanner = Scanner::new(&params, String::from("/t"));
    let scanned = scan_into_server(&scanner, &ENTRIES);

    assert!(scanned.iter().all(|p| p != "/t/this-is-a-js-file.js"));
    assert!(scanned.iter().all(|p| p != "/t/this-is-a-csv-file.csv"));
    assert!(scanned.iter().any(|p| p == "/t/this-is-a-css-file.css"));
    assert!(scanned.iter().any(|p| p == "/t/this-is-a-rust-file.rs"));
}

#[test]
fn complex_file_type_params() {
    let params = Params {
        types: Some(String::from("js,csv,rs")),
        exclude_types: Some(String::from("csv")),
        ..Default::default()
    };
    let scanner = Scanner::new(&params, String::from("/t"));
    let scanned = scan_into_server(&scanner, &ENTRIES);

    assert!(scanned.iter().any(|p| p == "/t/this-is-a-js-file.js"));
    assert!(scanned.iter().all(|p| p != "/t/this-is-a-csv-file.csv"));
    assert!(scanned.iter().any(|p| p == "/t/this-is-a-rust-file.rs"));
    assert!(scanned.iter().all(|p| p != "/t/this-is-a-css-file.css"));
}

#[test]
fn min_size_filter_is_inclusive_at_the_threshold() {
    let params = Params {
        min_size: Some(String::from("10")),
        ..Default::default()
    };
    let scanner = Scanner::new(&params, String::from("/t"));
    assert!(scanner.size_selected(10));
    assert!(!scanner.size_selected(9));
    assert!(scanner.size_selected(11));

    let scanned = scan_into_server(
        &scanner,
        &[("/t/big", "bin", 10), ("/t/small", "bin", 9)],
    );
    assert_eq!(scanned, vec![String::from("/t/big")]);
}

#[test]
fn scan_patterns_mirror_the_type_lists() {
    let both = Scanner::new(
        &Params {
            types: Some(String::from("js,csv")),
            exclude_types: Some(String::from("csv")),
            ..Default::default()
        },
        String::from("/t"),
    );
    let patterns = both.scan_patterns();
    assert_eq!(
        patterns,
        vec![String::from("**/*.{js,csv}"), String::from("!**/*.{csv}")]
    );

    let neither = Scanner::new(&Params::default(), String::from("/t"));
    assert_eq!(neither.scan_patterns(), vec![String::from("**/*")]);
}

#[test]
fn builder_methods_override_one_field_each() {
    let base = Scanner::new(&Params::default(), String::from("/t"));
    let built = base
        .min_size(64)
        .min_depth(1)
        .max_depth(3)
        .filetypes(String::from("js,rs"))
        .follow_links()
        .directory(String::from("/elsewhere"));
    assert_eq!(built.min_size, Some(64));
    assert_eq!(built.min_depth, Some(1));
    assert_eq!(built.max_depth, Some(3));
    assert_eq!(built.include_types, Some(String::from("js,rs")));
    assert!(built.follow_links);
    assert_eq!(built.directory, "/elsewhere");
    let relinked = built.ignore_links();
    assert!(!relinked.follow_links);
}
