use nx_core::context::{gather_and_hash_files, RootFiles, WorkspaceContext};
use nx_core::files::FileData;
use nx_core::glob::glob_match_str;

fn fd(file: &str, hash: &str) -> FileData {
    FileData { file: file.to_owned(), hash: hash.to_owned() }
}

#[test]
fn single_star_stays_inside_a_segment() {
    assert!(glob_match_str("*.ts", "a.ts"));
    assert!(!glob_match_str("*.ts", "sub/a.ts"));
    assert!(glob_match_str("src/*.rs", "src/lib.rs"));
    assert!(!glob_match_str("src/*.rs", "src/x/lib.rs"));
}

#[test]
fn double_star_crosses_segments() {
    assert!(glob_match_str("**/*.ts", "a.ts"));
    assert!(glob_match_str("**/*.ts", "sub/deep/a.ts"));
    assert!(!glob_match_str("**/*.ts", "a.rs"));
    assert!(glob_match_str("sub/**", "sub/a/b/c.txt"));
}

#[test]
fn question_mark_matches_one_character() {
    assert!(glob_match_str("a?.ts", "ab.ts"));
    assert!(!glob_match_str("a?.ts", "a.ts"));
    assert!(!glob_match_str("a?.ts", "a/.ts"));
}

#[test]
fn literals_must_match_exactly() {
    assert!(glob_match_str("a.ts", "a.ts"));
    assert!(!glob_match_str("a.ts", "b.ts"));
    assert!(!glob_match_str("a.ts", "a.tsx"));
}

#[test]
fn glob_selects_and_excludes_over_the_index() {
    let workspace_hashes = vec![
        fd("a.ts", "h1"),
        fd("b.rs", "h2"),
        fd("sub/c.ts", "h3"),
    ];
    let raw = gather_and_hash_files("/w", &workspace_hashes, &Vec::new());
    let ctx = WorkspaceContext::new("/w".to_owned(), Vec::new(), Some(raw));
    let hits = ctx.glob(vec!["**/*.ts".to_owned()], None);
    assert_eq!(hits, vec!["a.ts".to_owned(), "sub/c.ts".to_owned()]);
    let hits = ctx.glob(vec!["**/*.ts".to_owned()], Some(vec!["sub/**".to_owned()]));
    assert_eq!(hits, vec!["a.ts".to_owned()]);
}

#[test]
fn multi_glob_matches_per_root() {
    let workspace_hashes = vec![fd("a.ts", "h1"), fd("b.rs", "h2")];
    let extra = RootFiles {
        root: "/w/extra".to_owned(),
        files: vec![fd("x.ts", "hx"), fd("y.rs", "hy")],
    };
    let raw = gather_and_hash_files("/w", &workspace_hashes, &vec![extra]);
    let ctx = WorkspaceContext::new("/w".to_owned(), vec!["/w/extra".to_owned()], Some(raw));
    let r = ctx.multi_glob(vec!["**/*.ts".to_owned()], None);
    assert_eq!(r.workspace_files, vec!["a.ts".to_owned()]);
    assert_eq!(r.additional_root_files.len(), 1);
    assert_eq!(r.additional_root_files[0].root, "/w/extra");
    assert_eq!(r.additional_root_files[0].paths, vec!["extra/x.ts".to_owned()]);
}

#[test]
fn multi_glob_union_equals_whole_index_glob() {
    let workspace_hashes = vec![fd("a.ts", "h1"), fd("b.rs", "h2")];
    let extra = RootFiles {
        root: "/w/extra".to_owned(),
        files: vec![fd("x.ts", "hx")],
    };
    let raw = gather_and_hash_files("/w", &workspace_hashes, &vec![extra]);
    let ctx = WorkspaceContext::new("/w".to_owned(), vec!["/w/extra".to_owned()], Some(raw));
    let whole = ctx.glob(vec!["**/*.ts".to_owned()], None);
    let split = ctx.multi_glob(vec!["**/*.ts".to_owned()], None);
    let mut union = split.workspace_files.clone();
    for rp in &split.additional_root_files {
        union.extend(rp.paths.iter().cloned());
    }
    assert_eq!(whole, union);
}
