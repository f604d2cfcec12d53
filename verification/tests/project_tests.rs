use nx_core::context::{gather_and_hash_files, WorkspaceContext};
use nx_core::files::FileData;
use nx_core::project::{find_project_for_path, ProjectEntry, ProjectRootMapping};

fn fd(file: &str, hash: &str) -> FileData {
    FileData { file: file.to_owned(), hash: hash.to_owned() }
}

fn mapping(root: &str, project: &str) -> ProjectRootMapping {
    ProjectRootMapping { root: root.to_owned(), project: project.to_owned() }
}

fn demo_mappings() -> Vec<ProjectRootMapping> {
    vec![mapping("libs", "libs-root"), mapping("libs/util", "util"), mapping("apps/web", "web")]
}

#[test]
fn find_project_prefers_the_longest_root() {
    let ms = demo_mappings();
    assert_eq!(find_project_for_path("libs/util/src/a.ts", &ms), Some("util".to_owned()));
    assert_eq!(find_project_for_path("libs/other/a.ts", &ms), Some("libs-root".to_owned()));
    assert_eq!(find_project_for_path("apps/web", &ms), Some("web".to_owned()));
    assert_eq!(find_project_for_path("tools/x.ts", &ms), None);
    assert_eq!(find_project_for_path("libsx/a.ts", &ms), None);
}

fn demo_context() -> WorkspaceContext {
    let workspace_hashes = vec![
        fd("libs/util/src/a.ts", "h1"),
        fd("apps/web/main.ts", "h2"),
        fd("tools/x.ts", "h3"),
    ];
    let raw = gather_and_hash_files("/w", &workspace_hashes, &Vec::new());
    WorkspaceContext::new("/w".to_owned(), Vec::new(), Some(raw))
}

#[test]
fn get_workspace_files_partitions_by_owner() {
    let ctx = demo_context();
    let r = ctx.get_workspace_files(&demo_mappings());
    assert_eq!(r.project_file_map.len(), 2);
    let util = r.project_file_map.iter().find(|e| e.project == "util").unwrap();
    assert_eq!(util.files.len(), 1);
    assert_eq!(util.files[0].file, "libs/util/src/a.ts");
    let web = r.project_file_map.iter().find(|e| e.project == "web").unwrap();
    assert_eq!(web.files[0].file, "apps/web/main.ts");
    assert_eq!(r.global_files.len(), 1);
    assert_eq!(r.global_files[0].file, "tools/x.ts");
}

#[test]
fn update_project_files_routes_updates_and_deletions() {
    let ctx = demo_context();
    let project_files = vec![
        ProjectEntry {
            project: "util".to_owned(),
            files: vec![fd("libs/util/src/a.ts", "h1")],
        },
        ProjectEntry {
            project: "web".to_owned(),
            files: vec![fd("apps/web/main.ts", "h2")],
        },
    ];
    let global_files = vec![fd("tools/x.ts", "h3")];
    let updated = vec![
        fd("libs/util/src/a.ts", "h1b"),
        fd("libs/util/src/b.ts", "hb"),
        fd("tools/y.ts", "hy"),
    ];
    let deleted = vec!["apps/web/main.ts".to_owned(), "tools/x.ts".to_owned()];
    let r = ctx.update_project_files(
        &demo_mappings(),
        &project_files,
        &global_files,
        &updated,
        &deleted,
    );

    let util = r
        .file_map
        .project_file_map
        .iter()
        .find(|e| e.project == "util")
        .unwrap();
    let names: Vec<&str> = util.files.iter().map(|e| e.file.as_str()).collect();
    assert_eq!(names, vec!["libs/util/src/a.ts", "libs/util/src/b.ts"]);
    assert_eq!(util.files[0].hash, "h1b");
    assert_eq!(util.files[1].hash, "hb");

    let web = r
        .file_map
        .project_file_map
        .iter()
        .find(|e| e.project == "web")
        .unwrap();
    assert!(web.files.is_empty());

    let globals: Vec<&str> = r.file_map.non_project_files.iter().map(|e| e.file.as_str()).collect();
    assert_eq!(globals, vec!["tools/y.ts"]);

    assert_eq!(r.external_references.all_workspace_files.len(), 3);
    assert_eq!(
        r.external_references.project_files.len(),
        r.file_map.project_file_map.len()
    );
}

#[test]
fn update_project_files_moves_unowned_paths_to_global() {
    let ctx = demo_context();
    let project_files: Vec<ProjectEntry> = Vec::new();
    let global_files = Vec::new();
    let updated = vec![fd("libs/util/src/a.ts", "h1")];
    let r = ctx.update_project_files(
        &Vec::new(),
        &project_files,
        &global_files,
        &updated,
        &Vec::new(),
    );
    assert_eq!(r.file_map.non_project_files.len(), 1);
    assert_eq!(r.file_map.non_project_files[0].file, "libs/util/src/a.ts");
}

#[test]
fn update_moves_a_migrated_path_out_of_global() {
    // The path sits in the global list although a project owns it; the
    // update routes it to its owner and the global copy goes, so the
    // union holds it once.
    let ctx = demo_context();
    let project_files = vec![ProjectEntry { project: "util".to_owned(), files: Vec::new() }];
    let global_files = vec![fd("libs/util/src/a.ts", "h1"), fd("tools/x.ts", "h3")];
    let updated = vec![fd("libs/util/src/a.ts", "h1b")];
    let r = ctx.update_project_files(
        &demo_mappings(),
        &project_files,
        &global_files,
        &updated,
        &Vec::new(),
    );
    let util = &r.file_map.project_file_map[0];
    assert_eq!(util.files.len(), 1);
    assert_eq!(util.files[0].file, "libs/util/src/a.ts");
    assert_eq!(util.files[0].hash, "h1b");
    let globals: Vec<&str> = r.file_map.non_project_files.iter().map(|e| e.file.as_str()).collect();
    assert_eq!(globals, vec!["tools/x.ts"]);

    // Each path occurs at most once over all lists.
    let mut seen = std::collections::HashSet::new();
    for entry in &r.file_map.project_file_map {
        for e in &entry.files {
            assert!(seen.insert(e.file.clone()));
        }
    }
    for e in &r.file_map.non_project_files {
        assert!(seen.insert(e.file.clone()));
    }
}
