use kidex::find::filter;
use kidex::ipc::IndexEntry;
use kidex::path::{merge_paths, path_components};
use kidex::query::{CaseOption, FileType, Keyword, Query, QueryOptions, QueryParameter};

fn query_of(tokens: &[&str]) -> Query {
    Query::from_query_elements(tokens.iter().map(|t| t.to_string()).collect())
}

fn entry(path: &str, directory: bool) -> IndexEntry {
    IndexEntry { path: path.to_string(), directory }
}

fn options(tokens: &[&str], limit: Option<usize>) -> QueryOptions {
    let mut o = QueryOptions::default();
    o.query = query_of(tokens);
    o.limit = limit;
    o
}

fn paths(es: &[IndexEntry]) -> Vec<String> {
    es.iter().map(|e| e.path.clone()).collect()
}

#[test]
fn simple_find_keeps_basename_matches() {
    let q = query_of(&["foo"]);
    assert_eq!(q.calc_score("/tmp/a/b/foo.txt", false), 50);
    assert_eq!(q.calc_score("/tmp/a/bar.txt", false), -2222);
    assert_eq!(q.calc_score("/tmp/c/foo/baz.md", false), -2222);
    let index = vec![
        entry("/tmp/a/b/foo.txt", false),
        entry("/tmp/a/bar.txt", false),
        entry("/tmp/c/foo/baz.md", false),
    ];
    let out = filter(index, &options(&["foo"], Some(10)));
    assert_eq!(paths(&out), vec!["/tmp/a/b/foo.txt".to_string()]);
}

#[test]
fn path_keyword_and_basename_keyword() {
    let q = query_of(&["/src", "rs"]);
    assert_eq!(q.calc_score("/root/src/main.rs", false), 30);
    assert_eq!(q.calc_score("/root/src/lib/util.rs", false), 26);
    assert_eq!(q.calc_score("/root/src/lib", true), -2222);
    let index = vec![
        entry("/root/src/main.rs", false),
        entry("/root/src/lib/util.rs", false),
        entry("/root/src/lib", true),
    ];
    let out = filter(index, &options(&["/src", "rs"], Some(5)));
    assert_eq!(paths(&out), vec!["/root/src/main.rs".to_string(), "/root/src/lib/util.rs".to_string()]);
}

#[test]
fn exact_keyword_needs_whole_basename() {
    let q = query_of(&["README/"]);
    assert_eq!(q.calc_score("/x/README", false), 10);
    assert_eq!(q.calc_score("/x/README.md", false), -2222);
    let out = filter(vec![entry("/x/README", false), entry("/x/README.md", false)], &options(&["README/"], None));
    assert_eq!(paths(&out), vec!["/x/README".to_string()]);
}

#[test]
fn smart_case_follows_the_keyword() {
    assert_eq!(query_of(&["Foo"]).calc_score("/d/Foobar", false), 50);
    assert_eq!(query_of(&["foo"]).calc_score("/d/Foobar", false), 50);
    assert_eq!(query_of(&["Foo"]).calc_score("/d/foobar", false), -2222);
    assert_eq!(query_of(&["foo"]).calc_score("/d/FOOBAR", false), 50);
}

#[test]
fn ignore_case_lowercases_both_sides() {
    let k = Keyword::new("BAR", false);
    assert!(k.is_in("xbarx", &CaseOption::Ignore));
    assert!(!k.is_in("xbarx", &CaseOption::Match));
    assert!(!k.is_in("xbarx", &CaseOption::Smart));
    assert!(k.is_at_beginning("Barn", &CaseOption::Ignore));
    assert!(!k.is_at_beginning("Barn", &CaseOption::Match));
}

#[test]
fn keyword_text_is_trimmed() {
    let k = Keyword::new("  //docs/  ", true);
    assert_eq!(k.word, "docs");
    assert!(k.exact_match);
    assert_eq!(Keyword::new("\tname\n", false).word, "name");
    assert_eq!(Keyword::new("///", false).word, "");
    assert_eq!(Keyword::new("\u{3000}word\u{a0}\u{2009}", false).word, "word");
    assert_eq!(Keyword::new(" a b ", false).word, "a b");
}

#[test]
fn tokens_parse_to_parameters() {
    assert!(matches!(QueryParameter::from_str("/"), QueryParameter::Type(FileType::DirOnly)));
    assert!(matches!(QueryParameter::from_str("f/"), QueryParameter::Type(FileType::FilesOnly)));
    match QueryParameter::from_str("//parent") {
        QueryParameter::DirectParent(k) => {
            assert_eq!(k.word, "parent");
            assert!(!k.exact_match);
        }
        _ => panic!("expected a direct-parent keyword"),
    }
    match QueryParameter::from_str("/dir/") {
        QueryParameter::PathKeyword(k) => {
            assert_eq!(k.word, "dir");
            assert!(k.exact_match);
        }
        _ => panic!("expected a path keyword"),
    }
    match QueryParameter::from_str("base") {
        QueryParameter::Keyword(k) => assert_eq!(k.word, "base"),
        _ => panic!("expected a basename keyword"),
    }
}

#[test]
fn no_parameters_scores_zero() {
    let q = Query::new();
    assert_eq!(q.calc_score("/a/b", false), 0);
    assert_eq!(q.calc_score("", true), 0);
    assert_eq!(Query::default().calc_score("/x", true), 0);
}

#[test]
fn type_mismatch_scores_sentinel() {
    assert_eq!(query_of(&["/"]).calc_score("/a/file.txt", false), -8888);
    assert_eq!(query_of(&["f/"]).calc_score("/a/dir", true), -8888);
    assert_eq!(query_of(&["f/"]).calc_score("/a/file", false), 0);
    assert_eq!(query_of(&["/", "x"]).calc_score("/a/xfile", false), -8888);
}

#[test]
fn earlier_elimination_wins_over_type() {
    // the keyword is applied before the type constraint
    assert_eq!(query_of(&["zzz", "/"]).calc_score("/a/file", false), -2222);
}

#[test]
fn path_keyword_misses_and_direct_parent() {
    assert_eq!(query_of(&["/nothere"]).calc_score("/a/b/c", false), -5555);
    assert_eq!(query_of(&["//b"]).calc_score("/a/b/c", false), 1);
    assert_eq!(query_of(&["//a"]).calc_score("/a/b/c", false), -9999);
    assert_eq!(query_of(&["//x"]).calc_score("c", false), -9999);
}

#[test]
fn path_keyword_weighs_depth() {
    // matches at depth 20 (d) and 8 (a): /, a, b, c, d, file
    assert_eq!(query_of(&["/a"]).calc_score("/a/b/c/da/file", false), 20 + 8);
    // the root component is a candidate too, at the last step
    assert_eq!(query_of(&["//"]).calc_score("/a", false), 1);
}

#[test]
fn type_parameter_replaces_earlier_one() {
    let mut q = query_of(&["/", "doc"]);
    q.add_parameter(QueryParameter::Type(FileType::FilesOnly));
    let ps = q.parameters();
    assert_eq!(ps.len(), 2);
    assert!(matches!(ps[0], QueryParameter::Keyword(_)));
    assert!(matches!(ps[1], QueryParameter::Type(FileType::FilesOnly)));
}

#[test]
fn options_from_one_token() {
    let o = QueryOptions::from_str("f/");
    assert_eq!(o.query.parameters().len(), 1);
    assert!(matches!(o.query.parameters()[0], QueryParameter::Type(FileType::FilesOnly)));
    assert!(o.limit.is_none());
    assert!(o.root_path.is_none());
}

#[test]
fn filter_without_limit_is_ascending_and_positive_only() {
    let index = vec![entry("/p/ab", false), entry("/p/xab", false), entry("/p/abc", false), entry("/p/zz", false)];
    let out = filter(index, &options(&["ab"], None));
    assert_eq!(
        paths(&out),
        vec!["/p/xab".to_string(), "/p/ab".to_string(), "/p/abc".to_string()]
    );
}

#[test]
fn filter_drops_zero_scores() {
    // a query without parameters scores 0, which the client-side search drops
    let out = filter(vec![entry("/a", false), entry("/b", true)], &options(&[], None));
    assert!(out.is_empty());
}

#[test]
fn filter_with_limit_is_descending() {
    let index = vec![entry("/p/xab", false), entry("/p/ab", false), entry("/p/yab", false)];
    let out = filter(index, &options(&["ab"], Some(2)));
    assert_eq!(paths(&out), vec!["/p/ab".to_string(), "/p/xab".to_string()]);
}

#[test]
fn components_of_paths() {
    assert_eq!(path_components("/a//b/./c/"), vec!["/", "a", "b", "c"]);
    assert_eq!(path_components("a/b"), vec!["a", "b"]);
    assert!(path_components("").is_empty());
    assert_eq!(path_components("/"), vec!["/"]);
}

#[test]
fn merging_paths() {
    assert_eq!(merge_paths("/tmp/a", "b.txt"), "/tmp/a/b.txt");
    assert_eq!(merge_paths("/tmp/a/", "b/c"), "/tmp/a/b/c");
    assert_eq!(merge_paths("/tmp/a", "/etc"), "/etc");
    assert_eq!(merge_paths("", "x"), "x");
    assert_eq!(merge_paths("/", "x"), "/x");
}
