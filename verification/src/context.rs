//! The workspace file index: the gathered per-root file lists, the worker
//! that holds and patches them, and the query facade.
use vstd::prelude::*;
use crate::files::{
    apply_deletes, apply_upserts, clone_file_data, clone_files, has_entry, strict_sorted,
    unique_files, update_file_list, sort_file_list, views, FileData, FileView,
};
use crate::glob::{exclude_views, glob_files, selected};
use crate::strkit::{is_prefix, path_join, str_eq, str_starts_with, strip_prefix_str};
use crate::xxh::{entries_digest, hash_file_entries};

verus! {

/// The files of one additional root, with paths already rewritten to the
/// workspace-relative form.
pub struct RootFiles {
    pub root: String,
    pub files: Vec<FileData>,
}

/// The mathematical value of one root's files.
#[verifier::ext_equal]
pub ghost struct RootFilesView {
    pub root: Seq<char>,
    pub files: Seq<FileView>,
}

impl View for RootFiles {
    type V = RootFilesView;

    open spec fn view(&self) -> RootFilesView {
        RootFilesView { root: self.root@, files: views(self.files@) }
    }
}

/// The views of all root entries.
pub open spec fn rviews(s: Seq<RootFiles>) -> Seq<RootFilesView> {
    s.map_values(|e: RootFiles| e@)
}

/// The gathered index: the workspace's own files and those of each
/// additional root, every list sorted by path.
pub struct RawFilesByRoot {
    pub workspace_files: Vec<FileData>,
    pub additional_root_files: Vec<RootFiles>,
}

/// Every list of the index is strictly sorted.
pub open spec fn raw_wf(r: &RawFilesByRoot) -> bool {
    &&& strict_sorted(views(r.workspace_files@))
    &&& forall|k: int|
        0 <= k < r.additional_root_files@.len() ==> strict_sorted(
            (#[trigger] rviews(r.additional_root_files@)[k]).files,
        )
}

/// All entries of the index: the workspace files, then each root's files
/// in root order.
pub open spec fn flat_roots(roots: Seq<RootFilesView>) -> Seq<FileView>
    decreases roots.len(),
{
    if roots.len() == 0 {
        Seq::empty()
    } else {
        flat_roots(roots.drop_last()) + roots.last().files
    }
}

/// Copies an index.
pub fn clone_raw(r: &RawFilesByRoot) -> (out: RawFilesByRoot)
    ensures
        views(out.workspace_files@) == views(r.workspace_files@),
        rviews(out.additional_root_files@) == rviews(r.additional_root_files@),
{
    let ws = clone_files(&r.workspace_files);
    let mut roots: Vec<RootFiles> = Vec::new();
    let mut i: usize = 0;
    while i < r.additional_root_files.len()
        invariant
            i <= r.additional_root_files@.len(),
            rviews(roots@) == rviews(r.additional_root_files@).take(i as int),
        decreases r.additional_root_files@.len() - i,
    {
        proof {
            assert(rviews(r.additional_root_files@)[i as int] == r.additional_root_files@[i
                as int]@);
        }
        let e = RootFiles {
            root: r.additional_root_files[i].root.clone(),
            files: clone_files(&r.additional_root_files[i].files),
        };
        let ghost before = roots@;
        roots.push(e);
        proof {
            assert(e@ =~= r.additional_root_files@[i as int]@);
            assert(rviews(before).len() == before.len());
            assert(roots@ == before.push(e));
            assert(rviews(roots@) =~= rviews(r.additional_root_files@).take(i + 1));
        }
        i = i + 1;
    }
    proof {
        assert(rviews(r.additional_root_files@).take(r.additional_root_files@.len() as int)
            =~= rviews(r.additional_root_files@));
    }
    RawFilesByRoot { workspace_files: ws, additional_root_files: roots }
}

/// The asynchronously filled holder of the gathered index. Absent when
/// the workspace root did not exist; the lock and the readiness signal
/// around it belong to the embedding program.
pub struct FilesWorker {
    pub files: Option<RawFilesByRoot>,
}

impl FilesWorker {
    /// A worker holding the gathered index, or nothing for a missing
    /// workspace root.
    pub fn new(files: Option<RawFilesByRoot>) -> (r: FilesWorker)
        ensures
            r.files == files,
    {
        FilesWorker { files }
    }

    /// The readiness test that first reads wait on: some list is already
    /// non-empty.
    pub fn is_ready(&self) -> (r: bool)
        ensures
            r == match self.files {
                Some(f) => views(f.workspace_files@).len() > 0 || rviews(
                    f.additional_root_files@,
                ).len() > 0,
                None => false,
            },
    {
        match &self.files {
            Some(f) => f.workspace_files.len() > 0 || f.additional_root_files.len() > 0,
            None => false,
        }
    }

    /// A copy of the held index; empty when the workspace root was
    /// absent.
    pub fn get_raw_files(&self) -> (r: RawFilesByRoot)
        ensures
            match self.files {
                Some(f) => views(r.workspace_files@) == views(f.workspace_files@) && rviews(
                    r.additional_root_files@,
                ) == rviews(f.additional_root_files@),
                None => views(r.workspace_files@).len() == 0 && rviews(
                    r.additional_root_files@,
                ).len() == 0,
            },
    {
        match &self.files {
            Some(f) => clone_raw(f),
            None => RawFilesByRoot {
                workspace_files: Vec::new(),
                additional_root_files: Vec::new(),
            },
        }
    }

    /// Patches the workspace list in place: deletions first, exact or by
    /// directory, then the updated hashes; the list comes out sorted.
    /// Returns the applied updates, or nothing when no index is held.
    /// Additional-root lists are left as gathered.
    pub fn update_files(&mut self, updated: &Vec<FileData>, deleted: &Vec<String>) -> (r: Vec<
        FileData,
    >)
        requires
            match old(self).files {
                Some(f) => strict_sorted(views(f.workspace_files@)),
                None => true,
            },
        ensures
            match old(self).files {
                Some(f) => {
                    &&& final(self).files is Some
                    &&& views(final(self).files->0.workspace_files@) == apply_upserts(
                        apply_deletes(
                            views(f.workspace_files@),
                            deleted@.map_values(|d: String| d@),
                        ),
                        views(updated@),
                    )
                    &&& strict_sorted(views(final(self).files->0.workspace_files@))
                    &&& rviews(final(self).files->0.additional_root_files@) == rviews(
                        f.additional_root_files@,
                    )
                    &&& views(r@) == views(updated@)
                },
                None => final(self).files is None && views(r@).len() == 0,
            },
    {
        match &mut self.files {
            Some(f) => {
                let new_ws = update_file_list(&f.workspace_files, updated, deleted);
                f.workspace_files = new_ws;
                clone_files(updated)
            },
            None => Vec::new(),
        }
    }
}

/// The workspace-relative form of an additional root: the part after the
/// workspace root, or the root itself when it lies outside.
pub open spec fn rel_of(ws: Seq<char>, root: Seq<char>) -> Seq<char> {
    if root == ws {
        Seq::empty()
    } else if is_prefix(ws + seq!['/'], root) {
        root.skip(ws.len() as int + 1)
    } else {
        root
    }
}

/// A path prefixed with a relative root; an empty root adds nothing.
pub open spec fn join_spec(a: Seq<char>, b: Seq<char>) -> Seq<char> {
    if a.len() == 0 {
        b
    } else {
        a + seq!['/'] + b
    }
}

/// Each entry's path prefixed with `rel`.
pub open spec fn prefixed(rel: Seq<char>, files: Seq<FileView>) -> Seq<FileView> {
    files.map_values(|e: FileView| FileView { file: join_spec(rel, e.file), hash: e.hash })
}

/// Computes the workspace-relative form of an additional root.
pub fn relative_root(workspace_root: &str, root: &str) -> (r: String)
    ensures
        r@ == rel_of(workspace_root@, root@),
{
    if str_eq(root, workspace_root) {
        String::new()
    } else {
        let mut pre = workspace_root.to_owned();
        pre.append("/");
        proof {
            reveal_strlit("/");
            assert(pre@ =~= workspace_root@ + seq!['/']);
        }
        match strip_prefix_str(root, pre.as_str()) {
            Some(rest) => {
                proof {
                    assert(root@.skip(pre@.len() as int) =~= root@.skip(
                        workspace_root@.len() as int + 1,
                    ));
                }
                rest
            },
            None => root.to_owned(),
        }
    }
}

/// Prefixes every path of `files` with `rel`.
pub fn prefix_files(rel: &str, files: &Vec<FileData>) -> (r: Vec<FileData>)
    ensures
        views(r@) == prefixed(rel@, views(files@)),
{
    let ghost m = views(files@);
    let mut out: Vec<FileData> = Vec::new();
    let mut i: usize = 0;
    while i < files.len()
        invariant
            i <= files@.len(),
            m == views(files@),
            views(out@) == prefixed(rel@, m.take(i as int)),
        decreases files@.len() - i,
    {
        proof {
            assert(m[i as int] == files@[i as int]@);
        }
        let joined = path_join(rel, files[i].file.as_str());
        let e = FileData { file: joined, hash: files[i].hash.clone() };
        let ghost before = out@;
        out.push(e);
        proof {
            assert(views(before) == prefixed(rel@, m.take(i as int)));
            assert(views(before).len() == before.len());
            assert(prefixed(rel@, m.take(i as int)).len() == i as int);
            assert(before.len() == i as int);
            assert(out@ == before.push(e));
            assert(e@ =~= FileView { file: join_spec(rel@, m[i as int].file), hash: m[i as int].hash });
            assert forall|k: int| 0 <= k < i + 1 implies views(out@)[k] == prefixed(
                rel@,
                m.take(i + 1),
            )[k] by {
                assert(views(out@)[k] == out@[k]@);
                if k < i as int {
                    assert(out@[k] == before[k]);
                    assert(views(before)[k] == before[k]@);
                    assert(m.take(i + 1)[k] == m.take(i as int)[k]);
                } else {
                    assert(out@[k] == e);
                }
            }
            assert(views(out@) =~= prefixed(rel@, m.take(i + 1)));
        }
        i = i + 1;
    }
    proof {
        assert(m.take(m.len() as int) =~= m);
    }
    out
}

/// Prefixing with one root keeps paths pairwise distinct.
proof fn lemma_prefixed_unique(rel: Seq<char>, files: Seq<FileView>)
    requires
        unique_files(files),
    ensures
        unique_files(prefixed(rel, files)),
{
    let r = prefixed(rel, files);
    assert forall|i: int, j: int|
        0 <= i < j < r.len() implies (#[trigger] r[i]).file != (#[trigger] r[j]).file by {
        assert(files[i].file != files[j].file);
        if join_spec(rel, files[i].file) == join_spec(rel, files[j].file) {
            if rel.len() == 0 {
            } else {
                let a = rel + seq!['/'] + files[i].file;
                let b = rel + seq!['/'] + files[j].file;
                assert(a.len() == b.len());
                assert(files[i].file.len() == files[j].file.len());
                assert forall|q: int|
                    0 <= q < files[i].file.len() implies files[i].file[q] == files[j].file[q] by {
                    assert(a[rel.len() + 1 + q] == files[i].file[q]);
                    assert(b[rel.len() + 1 + q] == files[j].file[q]);
                }
                assert(files[i].file =~= files[j].file);
            }
        }
    }
}

/// Combines the hashed workspace files and the hashed files of each
/// existing additional root into the index: root paths are rewritten
/// relative to the workspace and every list is sorted by path.
pub fn gather_and_hash_files(
    workspace_root: &str,
    workspace_hashes: &Vec<FileData>,
    additional: &Vec<RootFiles>,
) -> (r: RawFilesByRoot)
    requires
        unique_files(views(workspace_hashes@)),
        forall|k: int|
            0 <= k < additional@.len() ==> unique_files(
                (#[trigger] rviews(additional@)[k]).files,
            ),
    ensures
        raw_wf(&r),
        views(r.workspace_files@).len() == views(workspace_hashes@).len(),
        forall|g: FileView|
            views(r.workspace_files@).contains(g) <==> views(workspace_hashes@).contains(g),
        rviews(r.additional_root_files@).len() == additional@.len(),
        forall|k: int|
            0 <= k < additional@.len() ==> {
                let fin = #[trigger] rviews(r.additional_root_files@)[k];
                let src = rviews(additional@)[k];
                &&& fin.root == src.root
                &&& fin.files.len() == src.files.len()
                &&& forall|g: FileView|
                    fin.files.contains(g) <==> prefixed(
                        rel_of(workspace_root@, src.root),
                        src.files,
                    ).contains(g)
            },
{
    let mut ws = clone_files(workspace_hashes);
    sort_file_list(&mut ws);
    let mut roots: Vec<RootFiles> = Vec::new();
    let mut i: usize = 0;
    while i < additional.len()
        invariant
            i <= additional@.len(),
            forall|k: int|
                0 <= k < additional@.len() ==> unique_files(
                    (#[trigger] rviews(additional@)[k]).files,
                ),
            rviews(roots@).len() == i,
            forall|k: int|
                0 <= k < i ==> {
                    let fin = #[trigger] rviews(roots@)[k];
                    let src = rviews(additional@)[k];
                    &&& fin.root == src.root
                    &&& strict_sorted(fin.files)
                    &&& fin.files.len() == src.files.len()
                    &&& forall|g: FileView|
                        fin.files.contains(g) <==> prefixed(
                            rel_of(workspace_root@, src.root),
                            src.files,
                        ).contains(g)
                },
        decreases additional@.len() - i,
    {
        proof {
            assert(rviews(additional@)[i as int] == additional@[i as int]@);
        }
        let rel = relative_root(workspace_root, additional[i].root.as_str());
        let mut pf = prefix_files(rel.as_str(), &additional[i].files);
        proof {
            lemma_prefixed_unique(rel@, views(additional@[i as int].files@));
        }
        sort_file_list(&mut pf);
        let e = RootFiles { root: additional[i].root.clone(), files: pf };
        let ghost before = roots@;
        roots.push(e);
        proof {
            assert(rviews(before).len() == before.len());
            assert(roots@ == before.push(e));
            assert(prefixed(rel_of(workspace_root@, rviews(additional@)[i as int].root), rviews(
                additional@,
            )[i as int].files).len() == rviews(additional@)[i as int].files.len());
            assert forall|k: int| 0 <= k < i + 1 implies #[trigger] rviews(roots@)[k] == if k
                < i as int {
                rviews(before)[k]
            } else {
                e@
            } by {
                assert(rviews(roots@)[k] == roots@[k]@);
                if k < i as int {
                    assert(roots@[k] == before[k]);
                }
            }
        }
        i = i + 1;
    }
    RawFilesByRoot { workspace_files: ws, additional_root_files: roots }
}

} // verus!

verus! {

/// The workspace context: the root strings and the worker holding the
/// gathered index.
pub struct WorkspaceContext {
    pub workspace_root: String,
    pub additional_project_roots: Vec<String>,
    pub files_worker: FilesWorker,
}

impl WorkspaceContext {
    /// The workspace file list of the held index; empty when none is
    /// held.
    pub open spec fn ws_views(&self) -> Seq<FileView> {
        match self.files_worker.files {
            Some(f) => views(f.workspace_files@),
            None => Seq::empty(),
        }
    }

    /// The additional-root lists of the held index; empty when none is
    /// held.
    pub open spec fn root_views(&self) -> Seq<RootFilesView> {
        match self.files_worker.files {
            Some(f) => rviews(f.additional_root_files@),
            None => Seq::empty(),
        }
    }

    /// Every entry the context knows: workspace files, then each root's
    /// files.
    pub open spec fn all_views(&self) -> Seq<FileView> {
        self.ws_views() + flat_roots(self.root_views())
    }

    /// Every held list is sorted.
    pub open spec fn wf(&self) -> bool {
        match self.files_worker.files {
            Some(f) => raw_wf(&f),
            None => true,
        }
    }

    /// A context over a gathered index; `files` is absent when the
    /// workspace root did not exist.
    pub fn new(
        workspace_root: String,
        additional_project_roots: Vec<String>,
        files: Option<RawFilesByRoot>,
    ) -> (r: WorkspaceContext)
        requires
            match files {
                Some(f) => raw_wf(&f),
                None => true,
            },
        ensures
            r.wf(),
            r.workspace_root@ == workspace_root@,
            r.files_worker.files == files,
    {
        WorkspaceContext {
            workspace_root,
            additional_project_roots,
            files_worker: FilesWorker::new(files),
        }
    }

    /// Whether the initial gather has produced anything to read.
    pub fn is_ready(&self) -> (r: bool)
        ensures
            r == (self.ws_views().len() > 0 || self.root_views().len() > 0),
    {
        self.files_worker.is_ready()
    }

    /// All entries with workspace-relative paths: the workspace files,
    /// then each additional root's files in root order.
    pub fn all_file_data(&self) -> (r: Vec<FileData>)
        ensures
            views(r@) == self.all_views(),
    {
        let raw = self.files_worker.get_raw_files();
        let ghost wsv = self.ws_views();
        let ghost rv = self.root_views();
        let mut out = raw.workspace_files;
        proof {
            if self.files_worker.files is None {
                assert(views(out@) =~= wsv + flat_roots(rv.take(0)));
            } else {
                assert(views(out@) =~= wsv + flat_roots(rv.take(0)));
            }
        }
        let mut k: usize = 0;
        while k < raw.additional_root_files.len()
            invariant
                k <= raw.additional_root_files@.len(),
                rviews(raw.additional_root_files@) == rv,
                views(out@) == wsv + flat_roots(rv.take(k as int)),
            decreases raw.additional_root_files@.len() - k,
        {
            proof {
                assert(rv[k as int] == raw.additional_root_files@[k as int]@);
            }
            let mut part = clone_files(&raw.additional_root_files[k].files);
            let ghost before = out@;
            out.append(&mut part);
            proof {
                assert(rv.take(k + 1).drop_last() =~= rv.take(k as int));
                assert(rv.take(k + 1).last() == rv[k as int]);
                assert(views(out@) =~= views(before) + rv[k as int].files) by {
                    assert(views(before).len() == before.len());
                    assert forall|q: int| 0 <= q < out@.len() implies views(out@)[q] == (views(
                        before,
                    ) + rv[k as int].files)[q] by {
                        assert(views(out@)[q] == out@[q]@);
                        if q < before.len() {
                            assert(out@[q] == before[q]);
                            assert(views(before)[q] == before[q]@);
                        }
                    }
                }
                assert(wsv + flat_roots(rv.take(k as int)) + rv[k as int].files =~= wsv
                    + flat_roots(rv.take(k + 1)));
            }
            k = k + 1;
        }
        proof {
            assert(rv.take(rv.len() as int) =~= rv);
        }
        out
    }
}

/// The path strings of a list of entries, in order.
pub fn paths_of(files: &Vec<FileData>) -> (r: Vec<String>)
    ensures
        r@.map_values(|s: String| s@) == views(files@).map_values(|e: FileView| e.file),
{
    let mut out: Vec<String> = Vec::new();
    let mut i: usize = 0;
    while i < files.len()
        invariant
            i <= files@.len(),
            out@.map_values(|s: String| s@) == views(files@).map_values(
                |e: FileView| e.file,
            ).take(i as int),
        decreases files@.len() - i,
    {
        proof {
            assert(views(files@)[i as int] == files@[i as int]@);
        }
        let ghost before = out@;
        out.push(files[i].file.clone());
        proof {
            assert(before.map_values(|s: String| s@).len() == before.len());
            assert(out@ == before.push(out@[out@.len() - 1]));
            assert(out@.map_values(|s: String| s@) =~= views(files@).map_values(
                |e: FileView| e.file,
            ).take(i + 1));
        }
        i = i + 1;
    }
    proof {
        assert(views(files@).map_values(|e: FileView| e.file).take(files@.len() as int)
            =~= views(files@).map_values(|e: FileView| e.file));
    }
    out
}

impl WorkspaceContext {
    /// The paths of all entries that the globs select, over the whole
    /// index, in index order.
    pub fn glob(&self, globs: Vec<String>, exclude: Option<Vec<String>>) -> (r: Vec<String>)
        ensures
            r@.map_values(|s: String| s@) == self.all_views().filter(
                |e: FileView|
                    selected(
                        globs@.map_values(|g: String| g@),
                        exclude_views(exclude),
                        e.file,
                    ),
            ).map_values(|e: FileView| e.file),
    {
        let all = self.all_file_data();
        let matched = glob_files(&all, &globs, &exclude);
        paths_of(&matched)
    }
}

} // verus!

verus! {

/// The matched paths of one additional root.
pub struct RootPaths {
    pub root: String,
    pub paths: Vec<String>,
}

/// What a per-root glob query answers: the matched workspace paths and
/// the matched paths of each additional root.
pub struct FilePathsByRoot {
    pub workspace_files: Vec<String>,
    pub additional_root_files: Vec<RootPaths>,
}

/// The per-root filtered lists, concatenated in root order.
pub open spec fn flat_filtered(
    roots: Seq<RootFilesView>,
    pred: spec_fn(FileView) -> bool,
) -> Seq<FileView>
    decreases roots.len(),
{
    if roots.len() == 0 {
        Seq::empty()
    } else {
        flat_filtered(roots.drop_last(), pred) + roots.last().files.filter(pred)
    }
}

/// One glob query over the whole index selects the same entries as the
/// per-root queries together: filtering the concatenation equals
/// concatenating the filtered workspace list and the filtered list of
/// each root.
pub proof fn lemma_glob_union(
    ws: Seq<FileView>,
    roots: Seq<RootFilesView>,
    pred: spec_fn(FileView) -> bool,
)
    ensures
        (ws + flat_roots(roots)).filter(pred) == ws.filter(pred) + flat_filtered(roots, pred),
    decreases roots.len(),
{
    broadcast use vstd::seq_lib::group_filter_ensures;

    if roots.len() == 0 {
        assert(flat_roots(roots) =~= Seq::<FileView>::empty());
        assert(ws + Seq::<FileView>::empty() =~= ws);
        assert(flat_filtered(roots, pred) =~= Seq::<FileView>::empty());
        assert(ws.filter(pred) + Seq::<FileView>::empty() =~= ws.filter(pred));
    } else {
        lemma_glob_union(ws, roots.drop_last(), pred);
        Seq::filter_distributes_over_add(
            ws + flat_roots(roots.drop_last()),
            roots.last().files,
            pred,
        );
        assert(ws + flat_roots(roots) =~= (ws + flat_roots(roots.drop_last()))
            + roots.last().files);
        assert((ws.filter(pred) + flat_filtered(roots.drop_last(), pred))
            + roots.last().files.filter(pred) =~= ws.filter(pred) + flat_filtered(roots, pred));
    }
}

impl WorkspaceContext {
    /// Runs the globs separately per root: once over the workspace files
    /// and once over each additional root's files, same patterns and
    /// excludes everywhere.
    pub fn multi_glob(&self, globs: Vec<String>, exclude: Option<Vec<String>>) -> (r:
        FilePathsByRoot)
        ensures
            ({
                let pred = |e: FileView|
                    selected(
                        globs@.map_values(|g: String| g@),
                        exclude_views(exclude),
                        e.file,
                    );
                &&& r.workspace_files@.map_values(|s: String| s@) == self.ws_views().filter(
                    pred,
                ).map_values(|e: FileView| e.file)
                &&& r.additional_root_files@.len() == self.root_views().len()
                &&& forall|k: int|
                    0 <= k < self.root_views().len() ==> {
                        let rp = #[trigger] r.additional_root_files@[k];
                        &&& rp.root@ == self.root_views()[k].root
                        &&& rp.paths@.map_values(|s: String| s@) == self.root_views()[k].files.filter(
                            pred,
                        ).map_values(|e: FileView| e.file)
                    }
            }),
    {
        let ghost pred = |e: FileView|
            selected(globs@.map_values(|g: String| g@), exclude_views(exclude), e.file);
        let raw = self.files_worker.get_raw_files();
        let ghost rv = self.root_views();
        let ws_matched = glob_files(&raw.workspace_files, &globs, &exclude);
        let workspace_files = paths_of(&ws_matched);
        let mut additional_root_files: Vec<RootPaths> = Vec::new();
        let mut k: usize = 0;
        while k < raw.additional_root_files.len()
            invariant
                k <= raw.additional_root_files@.len(),
                rviews(raw.additional_root_files@) == rv,
                pred == (|e: FileView|
                    selected(
                        globs@.map_values(|g: String| g@),
                        exclude_views(exclude),
                        e.file,
                    )),
                additional_root_files@.len() == k,
                forall|q: int|
                    0 <= q < k ==> {
                        let rp = #[trigger] additional_root_files@[q];
                        &&& rp.root@ == rv[q].root
                        &&& rp.paths@.map_values(|s: String| s@) == rv[q].files.filter(
                            pred,
                        ).map_values(|e: FileView| e.file)
                    },
            decreases raw.additional_root_files@.len() - k,
        {
            proof {
                assert(rv[k as int] == raw.additional_root_files@[k as int]@);
            }
            let matched = glob_files(&raw.additional_root_files[k].files, &globs, &exclude);
            let paths = paths_of(&matched);
            let rp = RootPaths { root: raw.additional_root_files[k].root.clone(), paths };
            let ghost before = additional_root_files@;
            additional_root_files.push(rp);
            proof {
                assert(additional_root_files@ == before.push(rp));
                assert forall|q: int| 0 <= q < k + 1 implies {
                    let e = #[trigger] additional_root_files@[q];
                    &&& e.root@ == rv[q].root
                    &&& e.paths@.map_values(|s: String| s@) == rv[q].files.filter(
                        pred,
                    ).map_values(|e2: FileView| e2.file)
                } by {
                    if q < k as int {
                        assert(additional_root_files@[q] == before[q]);
                    }
                }
            }
            k = k + 1;
        }
        FilePathsByRoot { workspace_files, additional_root_files }
    }

    /// The lowercase hex xxh3 digest of the selected entries' paths and
    /// hashes, fed in index order: a pure function of the index and the
    /// patterns.
    pub fn hash_files_matching_glob(&self, globs: Vec<String>, exclude: Option<Vec<String>>) -> (r:
        String)
        ensures
            r@ == entries_digest(
                self.all_views().filter(
                    |e: FileView|
                        selected(
                            globs@.map_values(|g: String| g@),
                            exclude_views(exclude),
                            e.file,
                        ),
                ),
            ),
    {
        let all = self.all_file_data();
        let matched = glob_files(&all, &globs, &exclude);
        hash_file_entries(&matched)
    }

    /// One digest per glob group, in group order, each over the whole
    /// index without excludes.
    pub fn hash_files_matching_globs(&self, glob_groups: Vec<Vec<String>>) -> (r: Vec<String>)
        ensures
            r@.len() == glob_groups@.len(),
            forall|i: int|
                0 <= i < glob_groups@.len() ==> (#[trigger] r@[i])@ == entries_digest(
                    self.all_views().filter(
                        |e: FileView|
                            selected(
                                glob_groups@[i]@.map_values(|g: String| g@),
                                Seq::empty(),
                                e.file,
                            ),
                    ),
                ),
    {
        let all = self.all_file_data();
        let mut out: Vec<String> = Vec::new();
        let mut i: usize = 0;
        while i < glob_groups.len()
            invariant
                i <= glob_groups@.len(),
                views(all@) == self.all_views(),
                out@.len() == i,
                forall|q: int|
                    0 <= q < i ==> (#[trigger] out@[q])@ == entries_digest(
                        self.all_views().filter(
                            |e: FileView|
                                selected(
                                    glob_groups@[q]@.map_values(|g: String| g@),
                                    Seq::empty(),
                                    e.file,
                                ),
                        ),
                    ),
            decreases glob_groups@.len() - i,
        {
            let none: Option<Vec<String>> = None;
            let matched = glob_files(&all, &glob_groups[i], &none);
            let digest = hash_file_entries(&matched);
            let ghost before = out@;
            out.push(digest);
            proof {
                assert(exclude_views(none) =~= Seq::<Seq<char>>::empty());
                assert(forall|q: int| 0 <= q < i ==> out@[q] == before[q]);
            }
            i = i + 1;
        }
        out
    }

    /// Applies an incremental patch to the workspace list: deleted paths
    /// go, exact or as directories, updated hashes are upserted, and the
    /// list stays sorted. Returns the applied updates.
    pub fn incremental_update(&mut self, updated: &Vec<FileData>, deleted: &Vec<String>) -> (r:
        Vec<FileData>)
        requires
            old(self).wf(),
        ensures
            final(self).wf(),
            match old(self).files_worker.files {
                Some(f) => {
                    &&& final(self).files_worker.files is Some
                    &&& views(final(self).files_worker.files->0.workspace_files@)
                        == apply_upserts(
                        apply_deletes(
                            views(f.workspace_files@),
                            deleted@.map_values(|d: String| d@),
                        ),
                        views(updated@),
                    )
                    &&& rviews(final(self).files_worker.files->0.additional_root_files@)
                        == rviews(f.additional_root_files@)
                    &&& views(r@) == views(updated@)
                },
                None => final(self).files_worker.files is None && views(r@).len() == 0,
            },
            final(self).workspace_root == old(self).workspace_root,
    {
        let r = self.files_worker.update_files(updated, deleted);
        proof {
            match old(self).files_worker.files {
                Some(f) => {
                    let cur = self.files_worker.files->0;
                    assert(rviews(cur.additional_root_files@) == rviews(f.additional_root_files@));
                    assert forall|k: int|
                        0 <= k < cur.additional_root_files@.len() implies strict_sorted(
                        (#[trigger] rviews(cur.additional_root_files@)[k]).files,
                    ) by {
                        assert(rviews(cur.additional_root_files@)[k] == rviews(
                            f.additional_root_files@,
                        )[k]);
                    }
                    assert(raw_wf(&cur));
                },
                None => {},
            }
        }
        r
    }

    /// The paths of all entries lying under the directory, in index
    /// order.
    pub fn get_files_in_directory(&self, directory: String) -> (r: Vec<String>)
        ensures
            r@.map_values(|s: String| s@) == self.all_views().filter(
                |e: FileView| crate::files::under_dir(e.file, directory@),
            ).map_values(|e: FileView| e.file),
    {
        let all = self.all_file_data();
        let inside = files_under_dir(&all, directory.as_str());
        paths_of(&inside)
    }
}

/// The entries whose path lies under `dir`, in order.
fn files_under_dir(files: &Vec<FileData>, dir: &str) -> (r: Vec<FileData>)
    ensures
        views(r@) == views(files@).filter(
            |e: FileView| crate::files::under_dir(e.file, dir@),
        ),
{
    let ghost m = views(files@);
    let ghost pred = |e: FileView| crate::files::under_dir(e.file, dir@);
    let mut prefix = dir.to_owned();
    prefix.append("/");
    proof {
        reveal_strlit("/");
        assert(prefix@ =~= dir@ + seq!['/']);
    }
    let mut out: Vec<FileData> = Vec::new();
    let mut i: usize = 0;
    while i < files.len()
        invariant
            i <= files@.len(),
            m == views(files@),
            prefix@ == dir@ + seq!['/'],
            pred == (|e: FileView| crate::files::under_dir(e.file, dir@)),
            views(out@) == m.take(i as int).filter(pred),
        decreases files@.len() - i,
    {
        proof {
            assert(m[i as int] == files@[i as int]@);
            assert(m.take(i + 1).drop_last() =~= m.take(i as int));
            crate::files::lemma_filter_push(m.take(i as int), pred, m[i as int]);
            assert(m.take(i + 1) =~= m.take(i as int).push(m[i as int]));
        }
        if str_starts_with(files[i].file.as_str(), prefix.as_str()) {
            let e = clone_file_data(&files[i]);
            let ghost before = out@;
            out.push(e);
            proof {
                assert(views(before).len() == before.len());
                assert(out@ == before.push(e));
                assert(views(out@) =~= views(before).push(e@));
                assert(pred(m[i as int]));
            }
        } else {
            proof {
                assert(!pred(m[i as int]));
            }
        }
        proof {
            assert(views(out@) == m.take(i + 1).filter(pred));
        }
        i = i + 1;
    }
    proof {
        assert(m.take(m.len() as int) =~= m);
    }
    out
}

} // verus!

verus! {

/// The index split by owning project: one list per project that owns a
/// file, and the files no project owns.
pub struct NxWorkspaceFiles {
    pub project_file_map: Vec<crate::project::ProjectEntry>,
    pub global_files: Vec<FileData>,
}

/// One entry routed into the partition: appended to its owner's list, a
/// new list for a first-seen project, or the global list.
pub open spec fn partition_step(
    ms: Seq<crate::project::MappingView>,
    pm: Seq<crate::project::ProjectEntryView>,
    g: Seq<FileView>,
    e: FileView,
) -> (Seq<crate::project::ProjectEntryView>, Seq<FileView>) {
    match crate::project::owner_of(ms, e.file) {
        Option::None => (pm, g.push(e)),
        Option::Some(pr) => {
            let k = crate::project::proj_idx(crate::project::pnames(pm), pr);
            if k == -1 {
                (
                    pm.push(
                        crate::project::ProjectEntryView { project: pr, files: seq![e] },
                    ),
                    g,
                )
            } else {
                (
                    pm.update(
                        k,
                        crate::project::ProjectEntryView {
                            project: pm[k].project,
                            files: pm[k].files.push(e),
                        },
                    ),
                    g,
                )
            }
        },
    }
}

/// The whole partition, entries routed left to right.
pub open spec fn partition_all(
    ms: Seq<crate::project::MappingView>,
    pm: Seq<crate::project::ProjectEntryView>,
    g: Seq<FileView>,
    es: Seq<FileView>,
) -> (Seq<crate::project::ProjectEntryView>, Seq<FileView>)
    decreases es.len(),
{
    if es.len() == 0 {
        (pm, g)
    } else {
        let s = partition_step(ms, pm, g, es[0]);
        partition_all(ms, s.0, s.1, es.skip(1))
    }
}

proof fn lemma_partition_snoc(
    ms: Seq<crate::project::MappingView>,
    pm: Seq<crate::project::ProjectEntryView>,
    g: Seq<FileView>,
    es: Seq<FileView>,
    e: FileView,
)
    ensures
        partition_all(ms, pm, g, es.push(e)).0 == partition_step(
            ms,
            partition_all(ms, pm, g, es).0,
            partition_all(ms, pm, g, es).1,
            e,
        ).0,
        partition_all(ms, pm, g, es.push(e)).1 == partition_step(
            ms,
            partition_all(ms, pm, g, es).0,
            partition_all(ms, pm, g, es).1,
            e,
        ).1,
    decreases es.len(),
{
    if es.len() == 0 {
        let s = partition_step(ms, pm, g, e);
        assert(es.push(e)[0] == e);
        assert(es.push(e).skip(1) =~= Seq::<FileView>::empty());
        assert(partition_all(ms, s.0, s.1, Seq::<FileView>::empty()).0 == s.0);
        assert(partition_all(ms, s.0, s.1, Seq::<FileView>::empty()).1 == s.1);
        assert(partition_all(ms, pm, g, es).0 == pm);
        assert(partition_all(ms, pm, g, es).1 == g);
    } else {
        assert(es.push(e)[0] == es[0]);
        assert(es.push(e).skip(1) =~= es.skip(1).push(e));
        let s = partition_step(ms, pm, g, es[0]);
        lemma_partition_snoc(ms, s.0, s.1, es.skip(1), e);
        assert(partition_all(ms, pm, g, es.push(e)).0 == partition_all(
            ms,
            s.0,
            s.1,
            es.skip(1).push(e),
        ).0);
        assert(partition_all(ms, pm, g, es.push(e)).1 == partition_all(
            ms,
            s.0,
            s.1,
            es.skip(1).push(e),
        ).1);
        assert(partition_all(ms, pm, g, es).0 == partition_all(ms, s.0, s.1, es.skip(1)).0);
        assert(partition_all(ms, pm, g, es).1 == partition_all(ms, s.0, s.1, es.skip(1)).1);
    }
}

impl WorkspaceContext {
    /// Splits the whole index by owning project: each entry goes to the
    /// list of the project with the longest matching root, in index
    /// order, or to the global list when no root matches.
    pub fn get_workspace_files(
        &self,
        project_root_mappings: &Vec<crate::project::ProjectRootMapping>,
    ) -> (r: NxWorkspaceFiles)
        ensures
            ({
                let st = partition_all(
                    crate::project::mapping_views(project_root_mappings@),
                    Seq::empty(),
                    Seq::empty(),
                    self.all_views(),
                );
                &&& crate::project::pviews(r.project_file_map@) == st.0
                &&& views(r.global_files@) == st.1
            }),
    {
        let ghost ms = crate::project::mapping_views(project_root_mappings@);
        let all = self.all_file_data();
        let ghost es = views(all@);
        let mut pmap: Vec<crate::project::ProjectEntry> = Vec::new();
        let mut global: Vec<FileData> = Vec::new();
        let mut i: usize = 0;
        proof {
            assert(es.take(0) =~= Seq::<FileView>::empty());
        }
        while i < all.len()
            invariant
                i <= all@.len(),
                es == views(all@),
                ms == crate::project::mapping_views(project_root_mappings@),
                crate::project::pviews(pmap@) == partition_all(
                    ms,
                    Seq::empty(),
                    Seq::empty(),
                    es.take(i as int),
                ).0,
                views(global@) == partition_all(
                    ms,
                    Seq::empty(),
                    Seq::empty(),
                    es.take(i as int),
                ).1,
            decreases all@.len() - i,
        {
            let ghost pm_cur = crate::project::pviews(pmap@);
            let ghost g_cur = views(global@);
            proof {
                assert(es[i as int] == all@[i as int]@);
                assert(es.take(i + 1) =~= es.take(i as int).push(es[i as int]));
                lemma_partition_snoc(
                    ms,
                    Seq::empty(),
                    Seq::empty(),
                    es.take(i as int),
                    es[i as int],
                );
            }
            let e = clone_file_data(&all[i]);
            let owner = crate::project::find_project_for_path(
                e.file.as_str(),
                project_root_mappings,
            );
            match owner {
                Some(pr) => {
                    match crate::project::find_entry(&pmap, pr.as_str()) {
                        Some(k) => {
                            proof {
                                assert(crate::project::pviews(pmap@)[k as int] == pmap@[k
                                    as int]@);
                            }
                            let mut entry = pmap.remove(k);
                            let ghost old_files = views(entry.files@);
                            entry.files.push(e);
                            let ghost new_ev = entry@;
                            pmap.insert(k, entry);
                            proof {
                                assert(new_ev.project == pm_cur[k as int].project);
                                assert(new_ev.files =~= pm_cur[k as int].files.push(
                                    es[i as int],
                                ));
                                assert(crate::project::pviews(pmap@) =~= pm_cur.update(
                                    k as int,
                                    new_ev,
                                ));
                            }
                        },
                        None => {
                            let mut fl: Vec<FileData> = Vec::new();
                            fl.push(e);
                            let entry = crate::project::ProjectEntry { project: pr, files: fl };
                            let ghost new_ev = entry@;
                            let ghost before = pmap@;
                            pmap.push(entry);
                            proof {
                                assert(new_ev.files =~= seq![es[i as int]]);
                                assert(crate::project::pviews(before).len() == before.len());
                                assert(pmap@ == before.push(entry));
                                assert(crate::project::pviews(pmap@) =~= pm_cur.push(new_ev));
                            }
                        },
                    }
                },
                None => {
                    let ghost before = global@;
                    global.push(e);
                    proof {
                        assert(views(before).len() == before.len());
                        assert(global@ == before.push(e));
                        assert(views(global@) =~= g_cur.push(es[i as int]));
                    }
                },
            }
            i = i + 1;
        }
        proof {
            assert(es.take(es.len() as int) =~= es);
        }
        NxWorkspaceFiles { project_file_map: pmap, global_files: global }
    }

    /// Routes updated and deleted files into the per-project lists and
    /// the global list, as the patcher does, and hands back the whole
    /// index beside the result.
    pub fn update_project_files(
        &self,
        project_root_mappings: &Vec<crate::project::ProjectRootMapping>,
        project_files: &Vec<crate::project::ProjectEntry>,
        global_files: &Vec<FileData>,
        updated_files: &Vec<FileData>,
        deleted_files: &Vec<String>,
    ) -> (r: crate::project::UpdatedWorkspaceFiles)
        requires
            crate::project::at_most_once(
                crate::project::pviews(project_files@),
                views(global_files@),
            ),
        ensures
            ({
                let st = crate::project::patched_state(
                    crate::project::mapping_views(project_root_mappings@),
                    crate::project::pviews(project_files@),
                    views(global_files@),
                    views(updated_files@),
                    deleted_files@.map_values(|d: String| d@),
                );
                let ts = crate::project::touched_updates(
                    crate::project::mapping_views(project_root_mappings@),
                    crate::project::pviews(project_files@),
                    views(global_files@),
                    views(updated_files@),
                );
                &&& views(r.file_map.non_project_files@) == st.1
                &&& crate::project::pviews(r.file_map.project_file_map@).len() == st.0.len()
                &&& st.0.len() == project_files@.len()
                &&& crate::project::at_most_once(
                    crate::project::pviews(r.file_map.project_file_map@),
                    views(r.file_map.non_project_files@),
                )
                &&& forall|k: int|
                    0 <= k < st.0.len() ==> {
                        let fin = #[trigger] crate::project::pviews(
                            r.file_map.project_file_map@,
                        )[k];
                        &&& fin.project == st.0[k].project
                        &&& fin.files.len() == st.0[k].files.len()
                        &&& forall|g: FileView|
                            has_entry(fin.files, g) <==> has_entry(st.0[k].files, g)
                        &&& unique_files(fin.files)
                    }
                &&& forall|k: int|
                    0 <= k < st.0.len() && ts.contains(k) ==> strict_sorted(
                        (#[trigger] crate::project::pviews(r.file_map.project_file_map@)[k]).files,
                    )
                &&& forall|k: int|
                    0 <= k < st.0.len() && !ts.contains(k) ==> #[trigger] crate::project::pviews(
                        r.file_map.project_file_map@,
                    )[k] == st.0[k]
                &&& crate::project::pviews(r.external_references.project_files@)
                    == crate::project::pviews(r.file_map.project_file_map@)
                &&& views(r.external_references.global_files@) == views(
                    r.file_map.non_project_files@,
                )
                &&& views(r.external_references.all_workspace_files@) == self.all_views()
            }),
    {
        let all = self.all_file_data();
        crate::project::update_project_files(
            project_root_mappings,
            project_files,
            global_files,
            updated_files,
            deleted_files,
            all,
        )
    }
}

} // verus!
