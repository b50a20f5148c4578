use deduplicator::file_manager::File;
use deduplicator::filters::{is_file_gt_min_size, is_file_gt_minsize};
use deduplicator::params::Params;

fn base_params() -> Params {
    Params::default()
}

#[test]
fn mixing_include_and_exclude_types_works_as_expected() {
    let params = Params {
        types: Some(String::from("js,xml,ts,pdf,tiff")),
        exclude_types: Some(String::from("js,ts,xml")),
        ..Default::default()
    };

    assert!(params
        .get_types()
        .is_some_and(|x| x == "pdf,tiff" || x == "tiff,pdf"))
}

#[test]
fn types_intersection_keeps_include_order() {
    assert_eq!(
        Params::types_intersection("js,csv,rs", "csv"),
        String::from("js,rs")
    );
    assert_eq!(
        Params::types_intersection("a,b,c", "d"),
        String::from("a,b,c")
    );
    assert_eq!(Params::types_intersection("a,b", "a,b"), String::from(""));
}

#[test]
fn types_intersection_is_a_set_difference() {
    // A repeated include token is kept once, at its first occurrence.
    assert_eq!(Params::types_intersection("a,a", "b"), String::from("a"));
    assert_eq!(
        Params::types_intersection("js,js,csv,js", "csv"),
        String::from("js")
    );
    assert_eq!(
        Params::types_intersection("a,b,a,c,b", "c"),
        String::from("a,b")
    );
}

#[test]
fn get_types_with_only_one_list() {
    let inc_only = Params {
        types: Some(String::from("js,rs")),
        ..base_params()
    };
    assert_eq!(inc_only.get_types(), Some(String::from("js,rs")));

    let exc_only = Params {
        exclude_types: Some(String::from("csv")),
        ..base_params()
    };
    assert_eq!(exc_only.get_types(), Some(String::from("csv")));

    assert_eq!(base_params().get_types(), None);
}

#[test]
fn min_size_parses_plain_numbers_and_units() {
    let p = Params {
        min_size: Some(String::from("100")),
        ..base_params()
    };
    assert_eq!(p.get_min_size(), Some(100));

    let k = Params {
        min_size: Some(String::from("1K")),
        ..base_params()
    };
    assert_eq!(k.get_min_size(), Some(1000));

    let kib = Params {
        min_size: Some(String::from("1KiB")),
        ..base_params()
    };
    assert_eq!(kib.get_min_size(), Some(1024));

    let bad = Params {
        min_size: Some(String::from("many bytes")),
        ..base_params()
    };
    assert_eq!(bad.get_min_size(), None);

    assert_eq!(base_params().get_min_size(), None);
}

#[test]
fn min_size_threshold_is_inclusive() {
    let opts = Params {
        min_size: Some(String::from("100")),
        ..base_params()
    };
    let exactly = File {
        path: String::from("/t/a"),
        size: Some(100),
        hash: None,
    };
    let smaller = File {
        path: String::from("/t/b"),
        size: Some(99),
        hash: None,
    };
    let unknown = File {
        path: String::from("/t/c"),
        size: None,
        hash: None,
    };
    assert!(is_file_gt_minsize(&opts, &exactly));
    assert!(!is_file_gt_minsize(&opts, &smaller));
    assert!(is_file_gt_minsize(&opts, &unknown));
    assert!(is_file_gt_min_size(&opts, &exactly));
    assert!(!is_file_gt_min_size(&opts, &smaller));

    let no_min = base_params();
    assert!(is_file_gt_minsize(&no_min, &smaller));
}
