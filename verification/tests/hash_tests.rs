use nx_core::context::{gather_and_hash_files, WorkspaceContext};
use nx_core::files::FileData;
use nx_core::strkit::u64_to_hex;

fn fd(file: &str, hash: &str) -> FileData {
    FileData { file: file.to_owned(), hash: hash.to_owned() }
}

fn demo_context() -> WorkspaceContext {
    let workspace_hashes = vec![fd("a.ts", "h1"), fd("b.ts", "h2"), fd("c.rs", "h3")];
    let raw = gather_and_hash_files("/w", &workspace_hashes, &Vec::new());
    WorkspaceContext::new("/w".to_owned(), Vec::new(), Some(raw))
}

#[test]
fn u64_to_hex_prints_exact_lowercase_hex() {
    assert_eq!(u64_to_hex(0), "0");
    assert_eq!(u64_to_hex(7), "7");
    assert_eq!(u64_to_hex(0xdeadbeef), "deadbeef");
    assert_eq!(u64_to_hex(1234567890), format!("{:x}", 1234567890u64));
    assert_eq!(u64_to_hex(u64::MAX), "ffffffffffffffff");
}

#[test]
fn hash_files_matching_glob_is_deterministic() {
    let ctx = demo_context();
    let a = ctx.hash_files_matching_glob(vec!["**/*.ts".to_owned()], None);
    let b = ctx.hash_files_matching_glob(vec!["**/*.ts".to_owned()], None);
    assert_eq!(a, b);
    let other = demo_context();
    let c = other.hash_files_matching_glob(vec!["**/*.ts".to_owned()], None);
    assert_eq!(a, c);
}

#[test]
fn hash_files_matching_glob_matches_direct_digest() {
    let ctx = demo_context();
    let got = ctx.hash_files_matching_glob(vec!["**/*.ts".to_owned()], None);
    let mut hasher = xxhash_rust::xxh3::Xxh3::new();
    hasher.update("a.ts".as_bytes());
    hasher.update("h1".as_bytes());
    hasher.update("b.ts".as_bytes());
    hasher.update("h2".as_bytes());
    let expected = hasher.digest();
    assert_eq!(got, u64_to_hex(expected));
    assert_eq!(got, format!("{:x}", expected));
}

#[test]
fn hash_changes_when_a_hash_changes() {
    let ctx = demo_context();
    let a = ctx.hash_files_matching_glob(vec!["**/*.ts".to_owned()], None);
    let workspace_hashes = vec![fd("a.ts", "h1x"), fd("b.ts", "h2"), fd("c.rs", "h3")];
    let raw = gather_and_hash_files("/w", &workspace_hashes, &Vec::new());
    let changed = WorkspaceContext::new("/w".to_owned(), Vec::new(), Some(raw));
    let b = changed.hash_files_matching_glob(vec!["**/*.ts".to_owned()], None);
    assert_ne!(a, b);
}

#[test]
fn hash_files_matching_globs_keeps_group_order() {
    let ctx = demo_context();
    let grouped = ctx.hash_files_matching_globs(vec![
        vec!["**/*.ts".to_owned()],
        vec!["**/*.rs".to_owned()],
    ]);
    assert_eq!(grouped.len(), 2);
    let ts = ctx.hash_files_matching_glob(vec!["**/*.ts".to_owned()], None);
    let rs = ctx.hash_files_matching_glob(vec!["**/*.rs".to_owned()], None);
    assert_eq!(grouped, vec![ts, rs]);
}
