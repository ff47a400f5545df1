use file_system_manipulation::file_system::dir::{Dir, Node};
use file_system_manipulation::file_system::file::{File, FileType};
use file_system_manipulation::file_system::{parse_query, FileSystem, Queries};

fn make_file(name: &str, content: &[u8], time: u64, text: bool) -> File {
    let mut f = File::default();
    f.set_name(name.to_string());
    f.set_content(content.to_vec());
    f.set_creation_time(time);
    f.set_type_(if text { FileType::Text } else { FileType::Binary });
    f
}

fn parse(raw: &str) -> Option<Queries> {
    parse_query(&raw.to_string())
}

#[test]
fn larger_matches_strictly_above_the_threshold() {
    let q = parse("larger:10").expect("well-formed query");
    let eleven = make_file("a", &[0u8; 11], 1, false);
    let ten = make_file("b", &[0u8; 10], 1, false);
    let nine = make_file("c", &[0u8; 9], 1, false);
    assert!(q.match_for_file(&eleven));
    assert!(!q.match_for_file(&ten));
    assert!(!q.match_for_file(&nine));
}

#[test]
fn smaller_matches_strictly_below_the_threshold() {
    let q = parse("smaller:10").expect("well-formed query");
    assert!(q.match_for_file(&make_file("a", &[0u8; 9], 1, false)));
    assert!(!q.match_for_file(&make_file("b", &[0u8; 10], 1, false)));
    assert!(!q.match_for_file(&make_file("c", &[0u8; 11], 1, false)));
}

#[test]
fn name_matches_any_node_whose_name_contains_the_text() {
    let q = parse("name:foo").expect("well-formed query");
    assert!(q.match_for_file(&make_file("dir/foo.txt", b"", 1, true)));
    assert!(q.match_for_file(&make_file("foods", b"", 1, true)));
    assert!(!q.match_for_file(&make_file("dir/bar.txt", b"", 1, true)));
    let foo_dir = Dir::new_from_dir("a/foo2", 1);
    let bar_dir = Dir::new_from_dir("a/bar", 1);
    assert!(q.match_for_dir(&foo_dir));
    assert!(!q.match_for_dir(&bar_dir));
    assert!(q.matches(&Node::Dir(foo_dir)));
    assert!(!q.matches(&Node::Dir(bar_dir)));
}

#[test]
fn content_matches_only_decodable_text_files() {
    let q = parse("content:ell").expect("well-formed query");
    assert!(q.match_for_file(&make_file("a.txt", b"hello", 1, true)));
    assert!(!q.match_for_file(&make_file("a.txt", b"hexxo", 1, true)));
    // a binary-classified file never matches on content
    assert!(!q.match_for_file(&make_file("a.bin", b"hello", 1, false)));
    // bytes that are not well-formed text never match
    assert!(!q.match_for_file(&make_file("a.txt", &[0x68, 0xff, 0x65], 1, true)));
    // a directory never matches on content
    assert!(!q.match_for_dir(&Dir::new_from_dir("ell", 1)));
}

#[test]
fn newer_and_older_compare_creation_times() {
    let newer = parse("newer:100").expect("well-formed query");
    let older = parse("older:100").expect("well-formed query");
    let at_99 = make_file("a", b"", 99, true);
    let at_100 = make_file("b", b"", 100, true);
    let at_101 = make_file("c", b"", 101, true);
    assert!(!newer.match_for_file(&at_99));
    assert!(!newer.match_for_file(&at_100));
    assert!(newer.match_for_file(&at_101));
    assert!(older.match_for_file(&at_99));
    assert!(!older.match_for_file(&at_100));
    assert!(!older.match_for_file(&at_101));
    assert!(newer.match_for_dir(&Dir::new_from_dir("d", 101)));
    assert!(!older.match_for_dir(&Dir::new_from_dir("d", 100)));
}

#[test]
fn malformed_queries_do_not_parse() {
    assert!(parse("bogus:xyz").is_none());
    assert!(parse("nocolon").is_none());
    assert!(parse("larger:abc").is_none());
    assert!(parse("larger:").is_none());
    assert!(parse("newer:+").is_none());
    assert!(parse("newer:99999999999999999999999999").is_none());
    assert!(parse("").is_none());
}

#[test]
fn parsing_keeps_the_raw_string_and_the_argument() {
    let q = parse("name:some text").expect("well-formed query");
    assert_eq!(q.to_str(), "name:some text");
    let q2 = parse("newer:+42").expect("a leading plus sign is a number");
    assert_eq!(q2.to_str(), "newer:+42");
    assert!(q2.match_for_file(&make_file("a", b"", 43, true)));
    assert!(!q2.match_for_file(&make_file("a", b"", 42, true)));
}

#[test]
fn the_argument_is_everything_after_the_first_colon() {
    let q = parse("content:a:b").expect("well-formed query");
    assert!(q.match_for_file(&make_file("f.txt", b"xx a:b yy", 1, true)));
    assert!(!q.match_for_file(&make_file("f.txt", b"xx a b yy", 1, true)));
}

#[test]
fn an_empty_argument_is_contained_everywhere() {
    let q = parse("name:").expect("well-formed query");
    assert!(q.match_for_file(&make_file("anything", b"", 1, true)));
    assert!(q.match_for_dir(&Dir::new_from_dir("", 1)));
}

fn example_tree() -> FileSystem {
    let mut root = Dir::new_from_dir("root", 1);
    root.mk_dir("root/docs", 2).unwrap();
    let template = make_file("t", b"hello", 100, true);
    root.new_file("root/docs/a.txt", &template).unwrap();
    FileSystem::from_dir(root)
}

#[test]
fn search_example_finds_content_and_drops_the_rest() {
    let fs = example_tree();
    let queries = vec!["content:hell".to_string(), "smaller:3".to_string()];
    let res = fs.search(&queries);
    assert_eq!(res.get_queries(), &vec!["content:hell".to_string()]);
    assert_eq!(res.get_nodes(), &vec!["root/docs/a.txt".to_string()]);
}

#[test]
fn search_drops_malformed_queries_silently() {
    let fs = example_tree();
    let queries = vec!["bogus:xyz".to_string(), "name:a.txt".to_string()];
    let res = fs.search(&queries);
    assert_eq!(res.get_queries(), &vec!["name:a.txt".to_string()]);
    assert_eq!(res.get_nodes(), &vec!["root/docs/a.txt".to_string()]);
}

#[test]
fn search_records_only_the_first_matching_query() {
    let fs = example_tree();
    let queries = vec!["name:a.txt".to_string(), "larger:0".to_string()];
    let res = fs.search(&queries);
    // the file satisfies both, but only the first is recorded
    assert_eq!(res.get_queries(), &vec!["name:a.txt".to_string()]);
    assert_eq!(res.get_nodes(), &vec!["root/docs/a.txt".to_string()]);
}

#[test]
fn search_sorts_and_deduplicates_matched_queries() {
    let mut root = Dir::new_from_dir("root", 1);
    let small = make_file("t", b"x", 10, false);
    let big = make_file("t", &[0u8; 20], 10, false);
    root.new_file("root/zebra.bin", &small).unwrap();
    root.new_file("root/alpha.bin", &big).unwrap();
    root.new_file("root/omega.bin", &small).unwrap();
    let fs = FileSystem::from_dir(root);
    let queries = vec!["smaller:5".to_string(), "larger:5".to_string()];
    let res = fs.search(&queries);
    // both raw strings matched somewhere; they come back sorted, once each
    assert_eq!(
        res.get_queries(),
        &vec!["larger:5".to_string(), "smaller:5".to_string()]
    );
    assert_eq!(
        res.get_nodes(),
        &vec![
            "root/zebra.bin".to_string(),
            "root/alpha.bin".to_string(),
            "root/omega.bin".to_string(),
        ]
    );
}

#[test]
fn search_twice_yields_identical_results() {
    let fs = example_tree();
    let queries = vec![
        "content:hell".to_string(),
        "name:docs".to_string(),
        "smaller:3".to_string(),
    ];
    let first = fs.search(&queries);
    let second = fs.search(&queries);
    assert_eq!(first.get_queries(), second.get_queries());
    assert_eq!(first.get_nodes(), second.get_nodes());
}

#[test]
fn search_with_no_match_is_empty() {
    let fs = example_tree();
    let queries = vec!["name:zzz".to_string(), "larger:1000".to_string()];
    let res = fs.search(&queries);
    assert!(res.get_queries().is_empty());
    assert!(res.get_nodes().is_empty());
}

#[test]
fn directories_are_descended_but_not_recorded() {
    let fs = example_tree();
    // "name:docs" matches the directory as a predicate, but the search
    // records files only
    let q = parse("name:docs").expect("well-formed query");
    assert!(q.match_for_dir(&Dir::new_from_dir("root/docs", 2)));
    let res = fs.search(&vec!["name:docs".to_string()]);
    assert_eq!(res.get_nodes(), &vec!["root/docs/a.txt".to_string()]);
}
