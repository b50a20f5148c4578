use deduplicator::fileinfo::FileInfo;
use deduplicator::params::Params;
use deduplicator::processor::{ContentTable, Processor, State};
use deduplicator::server::Server;

fn patterned_bytes(len: usize, mut state: u64) -> Vec<u8> {
    let mut out = Vec::with_capacity(len);
    for _ in 0..len {
        state ^= state << 13;
        state ^= state >> 7;
        state ^= state << 17;
        out.push((state & 0xff) as u8);
    }
    out
}

struct Tree {
    server: Server,
    table: ContentTable,
}

fn tree(strict: bool, files: &[(&str, Vec<u8>)]) -> Tree {
    let params = Params {
        strict,
        ..Default::default()
    };
    let mut server = Server::new(params, 300);
    let mut table = ContentTable::new();
    for (path, content) in files {
        let info = FileInfo::new(String::from(*path), content.len() as u64, 0);
        server.push_file(info);
        table.add(String::from(*path), content.clone());
    }
    server.set_scanner_finished();
    Tree { server, table }
}

fn group_paths(groups: &[Vec<FileInfo>]) -> Vec<Vec<String>> {
    let mut out: Vec<Vec<String>> = groups
        .iter()
        .map(|g| {
            let mut ps: Vec<String> = g.iter().map(|f| f.path.clone()).collect();
            ps.sort();
            ps
        })
        .collect();
    out.sort();
    out
}

#[test]
fn sizewise_sorting_two_files_of_different_sizes() {
    let mut t = tree(
        false,
        &[
            ("/t/fileone.bin", patterned_bytes(282624, 1)),
            ("/t/filetwo.bin", patterned_bytes(1720320, 2)),
        ],
    );
    Processor::sizewise(&mut t.server);
    assert_eq!(t.server.sw_bucket_count(), 2);
    assert!(t.server.sw_sort_finished);
}

#[test]
fn sizewise_sorting_two_files_of_same_size() {
    let mut t = tree(
        false,
        &[
            ("/t/fileone.bin", patterned_bytes(282624, 3)),
            ("/t/filetwo.bin", patterned_bytes(282624, 4)),
        ],
    );
    Processor::sizewise(&mut t.server);
    assert_eq!(t.server.sw_bucket_count(), 1);
}

#[test]
fn processor_groups_files_with_same_size() {
    let content = patterned_bytes(440, 5);
    let mut t = tree(
        false,
        &[
            ("/t/hello.txt", content.clone()),
            ("/t/hello_dup.txt", content),
        ],
    );
    Processor::sizewise(&mut t.server);
    assert_eq!(t.server.sw_bucket_count(), 1);
}

#[test]
fn hashwise_sorting_two_files_with_identical_init_pages_only_strict_mode() {
    let prefix = patterned_bytes(16384, 6);
    let mut one = prefix.clone();
    let mut two = prefix;
    one.extend(patterned_bytes(1720320, 7));
    two.extend(patterned_bytes(1720320, 8));

    let mut t = tree(true, &[("/t/fileone.bin", one), ("/t/filetwo.bin", two)]);
    t.server.start(&t.table);
    assert_eq!(t.server.hw_bucket_count(), 2);
}

#[test]
fn hashwise_sorting_two_files_with_identical_init_pages_only_fast_mode() {
    let prefix = patterned_bytes(16384, 9);
    let mut one = prefix.clone();
    let mut two = prefix;
    one.extend(patterned_bytes(1720320, 10));
    two.extend(patterned_bytes(1720320, 11));

    let mut t = tree(false, &[("/t/fileone.bin", one), ("/t/filetwo.bin", two)]);
    t.server.start(&t.table);
    assert_eq!(t.server.hw_bucket_count(), 1);
}

#[test]
fn hashwise_sorting_two_files_with_identical_data() {
    let content = patterned_bytes(282624, 12);
    let mut t = tree(
        false,
        &[
            ("/t/fileone.bin", content.clone()),
            ("/t/filetwo.bin", content),
        ],
    );
    t.server.start(&t.table);
    assert_eq!(t.server.hw_bucket_count(), 1);
    let groups = t.server.duplicate_groups();
    assert_eq!(
        group_paths(&groups),
        vec![vec![
            String::from("/t/fileone.bin"),
            String::from("/t/filetwo.bin")
        ]]
    );
}

#[test]
fn empty_root_yields_an_empty_digest_map() {
    let mut t = tree(false, &[]);
    t.server.start(&t.table);
    assert_eq!(t.server.sw_bucket_count(), 0);
    assert_eq!(t.server.hw_bucket_count(), 0);
    assert!(t.server.duplicate_groups().is_empty());
    assert!(t.server.scanner_finished);
    assert!(t.server.sw_sort_finished);
    assert_eq!(t.server.filequeue.len(), 0);
    assert_eq!(t.server.stage, State::HashWise);
}

#[test]
fn single_file_yields_no_duplicate_groups() {
    let mut t = tree(false, &[("/t/only.bin", patterned_bytes(500, 13))]);
    t.server.start(&t.table);
    assert_eq!(t.server.sw_bucket_count(), 1);
    assert_eq!(t.server.hw_bucket_count(), 0);
    assert!(t.server.duplicate_groups().is_empty());
}

#[test]
fn distinct_sizes_yield_no_candidates() {
    let mut t = tree(
        false,
        &[
            ("/t/a", patterned_bytes(80, 14)),
            ("/t/b", patterned_bytes(120, 15)),
        ],
    );
    t.server.start(&t.table);
    assert_eq!(t.server.sw_bucket_count(), 2);
    assert_eq!(t.server.hw_bucket_count(), 0);
    assert!(t.server.duplicate_groups().is_empty());
}

#[test]
fn equal_sizes_distinct_contents_yield_singleton_digests() {
    let mut t = tree(
        false,
        &[
            ("/t/a", patterned_bytes(282624, 16)),
            ("/t/b", patterned_bytes(282624, 17)),
        ],
    );
    t.server.start(&t.table);
    assert_eq!(t.server.sw_bucket_count(), 1);
    assert_eq!(t.server.hw_bucket_count(), 2);
    assert!(t.server.duplicate_groups().is_empty());
}

#[test]
fn empty_file_and_null_file_never_group() {
    let mut t = tree(
        false,
        &[("/t/e", Vec::new()), ("/t/n", vec![0u8; 4096000])],
    );
    t.server.start(&t.table);
    assert_eq!(t.server.sw_bucket_count(), 2);
    assert_eq!(t.server.hw_bucket_count(), 0);
    assert!(t.server.duplicate_groups().is_empty());
}

#[test]
fn two_empty_files_form_one_group() {
    let mut t = tree(false, &[("/t/e1", Vec::new()), ("/t/e2", Vec::new())]);
    t.server.start(&t.table);
    assert_eq!(t.server.hw_bucket_count(), 1);
    let groups = t.server.duplicate_groups();
    assert_eq!(groups.len(), 1);
    assert_eq!(groups[0].len(), 2);
}

#[test]
fn a_file_that_vanished_before_hashing_is_dropped() {
    let params = Params::default();
    let mut server = Server::new(params, 300);
    let content = patterned_bytes(100, 18);
    server.push_file(FileInfo::new(String::from("/t/kept"), 100, 0));
    server.push_file(FileInfo::new(String::from("/t/vanished"), 100, 0));
    server.push_file(FileInfo::new(String::from("/t/shrunk"), 100, 0));
    server.set_scanner_finished();

    let mut table = ContentTable::new();
    table.add(String::from("/t/kept"), content);
    table.add(String::from("/t/shrunk"), patterned_bytes(50, 19));

    server.start(&table);
    assert_eq!(server.hw_bucket_count(), 1);
    assert!(server.duplicate_groups().is_empty());
}

#[test]
fn two_pairs_group_separately() {
    let one = patterned_bytes(4096, 20);
    let two = patterned_bytes(4096, 21);
    let mut t = tree(
        true,
        &[
            ("/t/a1", one.clone()),
            ("/t/a2", one),
            ("/t/b1", two.clone()),
            ("/t/b2", two),
        ],
    );
    t.server.start(&t.table);
    let groups = t.server.duplicate_groups();
    assert_eq!(
        group_paths(&groups),
        vec![
            vec![String::from("/t/a1"), String::from("/t/a2")],
            vec![String::from("/t/b1"), String::from("/t/b2")],
        ]
    );
}

#[test]
fn grouping_is_the_same_across_seeds() {
    let one = patterned_bytes(8192, 22);
    let two = patterned_bytes(8192, 23);
    let files = [
        ("/t/a1", one.clone()),
        ("/t/a2", one),
        ("/t/b1", two),
    ];

    let mut first: Option<Vec<Vec<String>>> = None;
    for seed in [300i64, -987654321i64] {
        let mut server = Server::new(Params::default(), seed);
        let mut table = ContentTable::new();
        for (path, content) in &files {
            server.push_file(FileInfo::new(String::from(*path), content.len() as u64, 0));
            table.add(String::from(*path), content.clone());
        }
        server.set_scanner_finished();
        server.start(&table);
        let paths = group_paths(&server.duplicate_groups());
        match &first {
            None => first = Some(paths),
            Some(prev) => assert_eq!(prev, &paths),
        }
    }
    assert_eq!(
        first.unwrap(),
        vec![vec![String::from("/t/a1"), String::from("/t/a2")]]
    );
}

#[test]
fn max_path_len_counts_recorded_path_graphemes() {
    let content = patterned_bytes(64, 24);
    let mut t = tree(
        false,
        &[("/t/abcd", content.clone()), ("/t/xy", content)],
    );
    assert_eq!(t.server.max_file_path_len, 0);
    t.server.start(&t.table);
    assert_eq!(t.server.max_file_path_len, 7);
}

#[test]
fn compare_and_update_keeps_the_maximum() {
    let mut current: u64 = 5;
    Processor::compare_and_update_max_path_len(&mut current, 3);
    assert_eq!(current, 5);
    Processor::compare_and_update_max_path_len(&mut current, 9);
    assert_eq!(current, 9);
}

#[test]
fn buckets_keep_arrival_order() {
    // The file queue is a FIFO: a duplicate group lists its files in the
    // order the walker pushed them.
    let content = patterned_bytes(2048, 26);
    let mut t = tree(
        false,
        &[
            ("/t/first", content.clone()),
            ("/t/second", content.clone()),
            ("/t/third", content),
        ],
    );
    t.server.start(&t.table);
    let groups = t.server.duplicate_groups();
    assert_eq!(groups.len(), 1);
    let paths: Vec<&str> = groups[0].iter().map(|f| f.path.as_str()).collect();
    assert_eq!(paths, vec!["/t/first", "/t/second", "/t/third"]);
}

#[test]
fn late_arrivals_are_picked_up_without_rehashing() {
    let content = patterned_bytes(1024, 25);
    let mut server = Server::new(Params::default(), 300);
    let mut table = ContentTable::new();
    for path in ["/t/a1", "/t/a2", "/t/a3"] {
        table.add(String::from(path), content.clone());
    }

    // The walker yields two files; the size stage files them and the
    // digest stage takes the young candidate bucket at once.
    server.push_file(FileInfo::new(String::from("/t/a1"), 1024, 0));
    server.push_file(FileInfo::new(String::from("/t/a2"), 1024, 0));
    while server.size_step() {}
    Processor::hash_bucket(&mut server, 1024, &table);
    assert_eq!(server.hw_bucket_count(), 1);

    // A third file of the same size arrives later; the next pass takes
    // only the newcomer, and the group grows to three without repeats.
    server.push_file(FileInfo::new(String::from("/t/a3"), 1024, 0));
    server.set_scanner_finished();
    Processor::sizewise(&mut server);
    Processor::hashwise(&mut server, &table);

    let groups = server.duplicate_groups();
    assert_eq!(
        group_paths(&groups),
        vec![vec![
            String::from("/t/a1"),
            String::from("/t/a2"),
            String::from("/t/a3")
        ]]
    );
}
