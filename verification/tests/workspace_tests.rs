use nx_core::context::{
    gather_and_hash_files, RawFilesByRoot, RootFiles, WorkspaceContext,
};
use nx_core::files::FileData;

fn fd(file: &str, hash: &str) -> FileData {
    FileData { file: file.to_owned(), hash: hash.to_owned() }
}

fn demo_context() -> WorkspaceContext {
    let workspace_hashes = vec![fd("sub/b.txt", "h2"), fd("a.txt", "h1")];
    let raw = gather_and_hash_files("/w", &workspace_hashes, &Vec::new());
    WorkspaceContext::new("/w".to_owned(), Vec::new(), Some(raw))
}

#[test]
fn all_file_data_returns_sorted_normalized_entries() {
    let ctx = demo_context();
    assert!(ctx.is_ready());
    let all = ctx.all_file_data();
    let names: Vec<&str> = all.iter().map(|e| e.file.as_str()).collect();
    assert_eq!(names, vec!["a.txt", "sub/b.txt"]);
    assert_eq!(all[0].hash, "h1");
    assert_eq!(all[1].hash, "h2");
}

#[test]
fn incremental_update_applies_hashes_and_deletions() {
    let mut ctx = demo_context();
    let updated = vec![fd("a.txt", "h1b")];
    let deleted = vec!["sub/b.txt".to_owned()];
    let applied = ctx.incremental_update(&updated, &deleted);
    assert_eq!(applied.len(), 1);
    assert_eq!(applied[0].file, "a.txt");
    assert_eq!(applied[0].hash, "h1b");
    let all = ctx.all_file_data();
    assert_eq!(all.len(), 1);
    assert_eq!(all[0].file, "a.txt");
    assert_eq!(all[0].hash, "h1b");
}

#[test]
fn incremental_update_deletes_whole_directories() {
    let workspace_hashes = vec![
        fd("a.txt", "h1"),
        fd("sub/b.txt", "h2"),
        fd("sub/c.txt", "h3"),
        fd("subx.txt", "h4"),
    ];
    let raw = gather_and_hash_files("/w", &workspace_hashes, &Vec::new());
    let mut ctx = WorkspaceContext::new("/w".to_owned(), Vec::new(), Some(raw));
    let deleted = vec!["sub".to_owned()];
    ctx.incremental_update(&Vec::new(), &deleted);
    let names: Vec<String> = ctx.all_file_data().into_iter().map(|e| e.file).collect();
    assert_eq!(names, vec!["a.txt".to_owned(), "subx.txt".to_owned()]);
}

#[test]
fn incremental_update_keeps_list_sorted() {
    let mut ctx = demo_context();
    let updated = vec![fd("zz.txt", "hz"), fd("b.txt", "hb")];
    ctx.incremental_update(&updated, &Vec::new());
    let names: Vec<String> = ctx.all_file_data().into_iter().map(|e| e.file).collect();
    let mut sorted = names.clone();
    sorted.sort();
    assert_eq!(names, sorted);
    assert_eq!(names.len(), 4);
}

#[test]
fn incremental_update_without_index_returns_nothing() {
    let mut ctx = WorkspaceContext::new("/missing".to_owned(), Vec::new(), None);
    assert!(!ctx.is_ready());
    let applied = ctx.incremental_update(&vec![fd("a.txt", "h")], &Vec::new());
    assert!(applied.is_empty());
    assert!(ctx.all_file_data().is_empty());
}

#[test]
fn gather_rewrites_additional_root_paths() {
    let workspace_hashes = vec![fd("a.txt", "h1")];
    let extra = RootFiles {
        root: "/w/extra".to_owned(),
        files: vec![fd("y.ts", "hy"), fd("x.ts", "hx")],
    };
    let raw = gather_and_hash_files("/w", &workspace_hashes, &vec![extra]);
    assert_eq!(raw.additional_root_files.len(), 1);
    let entry = &raw.additional_root_files[0];
    assert_eq!(entry.root, "/w/extra");
    let names: Vec<&str> = entry.files.iter().map(|e| e.file.as_str()).collect();
    assert_eq!(names, vec!["extra/x.ts", "extra/y.ts"]);
}

#[test]
fn gather_keeps_outside_roots_verbatim() {
    let raw = gather_and_hash_files(
        "/w",
        &vec![],
        &vec![RootFiles { root: "/elsewhere".to_owned(), files: vec![fd("z.ts", "hz")] }],
    );
    let entry = &raw.additional_root_files[0];
    assert_eq!(entry.files[0].file, "/elsewhere/z.ts");
}

#[test]
fn get_files_in_directory_filters_by_prefix() {
    let workspace_hashes = vec![
        fd("a.txt", "h1"),
        fd("sub/b.txt", "h2"),
        fd("subx.txt", "h3"),
    ];
    let raw = gather_and_hash_files("/w", &workspace_hashes, &Vec::new());
    let ctx = WorkspaceContext::new("/w".to_owned(), Vec::new(), Some(raw));
    let inside = ctx.get_files_in_directory("sub".to_owned());
    assert_eq!(inside, vec!["sub/b.txt".to_owned()]);
}

#[test]
fn empty_index_reads_as_default() {
    let raw = RawFilesByRoot { workspace_files: Vec::new(), additional_root_files: Vec::new() };
    let ctx = WorkspaceContext::new("/w".to_owned(), Vec::new(), Some(raw));
    assert!(!ctx.is_ready());
    assert!(ctx.all_file_data().is_empty());
}

#[test]
fn large_gathers_come_out_sorted() {
    // Past five hundred entries the sort runs on the parallel path.
    let mut workspace_hashes = Vec::new();
    let mut i = 600;
    while i > 0 {
        i -= 1;
        workspace_hashes.push(fd(&format!("dir{}/file{}.txt", i % 7, i), &format!("h{}", i)));
    }
    let raw = gather_and_hash_files("/w", &workspace_hashes, &Vec::new());
    assert_eq!(raw.workspace_files.len(), 600);
    for w in raw.workspace_files.windows(2) {
        assert!(w[0].file < w[1].file);
    }
}
