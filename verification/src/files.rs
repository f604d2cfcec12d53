//! The workspace file list: entries of path and content hash, kept strictly
//! sorted by path, with the deletion and upsert passes that incremental
//! updates apply to it.
use vstd::prelude::*;
use rayon::slice::ParallelSliceMut;
use crate::strkit::{
    is_prefix, lemma_lex_asym, lemma_lex_connex, lemma_lex_lt_trans, lex_lt, str_cmp, str_eq,
    str_lt, str_starts_with, StrOrder,
};

verus! {

/// One indexed file: a workspace-relative path in forward-slash form and
/// its content hash.
#[derive(Clone)]
pub struct FileData {
    pub file: String,
    pub hash: String,
}

/// The mathematical value of a [`FileData`]: both fields as character
/// sequences.
#[verifier::ext_equal]
pub ghost struct FileView {
    pub file: Seq<char>,
    pub hash: Seq<char>,
}

impl View for FileData {
    type V = FileView;

    open spec fn view(&self) -> FileView {
        FileView { file: self.file@, hash: self.hash@ }
    }
}

/// The views of all entries of a file list.
pub open spec fn views(s: Seq<FileData>) -> Seq<FileView> {
    s.map_values(|e: FileData| e@)
}

/// Paths are strictly increasing: sorted, and no path occurs twice.
pub open spec fn strict_sorted(s: Seq<FileView>) -> bool {
    forall|i: int, j: int| 0 <= i < j < s.len() ==> lex_lt(s[i].file, s[j].file)
}

/// Paths are non-decreasing.
pub open spec fn sorted_le(s: Seq<FileView>) -> bool {
    forall|i: int, j: int|
        0 <= i < j < s.len() ==> lex_lt(s[i].file, s[j].file) || s[i].file == s[j].file
}

/// Some entry has the path `p`.
pub open spec fn has_file(s: Seq<FileView>, p: Seq<char>) -> bool {
    exists|i: int| 0 <= i < s.len() && s[i].file == p
}

/// `f` lies inside the directory `d`: `d` plus a separator prefixes it.
pub open spec fn under_dir(f: Seq<char>, d: Seq<char>) -> bool {
    is_prefix(d + seq!['/'], f)
}

/// Copies an entry.
pub fn clone_file_data(e: &FileData) -> (r: FileData)
    ensures
        r@ == e@,
{
    let r = FileData { file: e.file.clone(), hash: e.hash.clone() };
    proof {
        assert(r@ =~= e@);
    }
    r
}

pub proof fn lemma_filter_push(s: Seq<FileView>, pred: spec_fn(FileView) -> bool, x: FileView)
    ensures
        s.push(x).filter(pred) == if pred(x) {
            s.filter(pred).push(x)
        } else {
            s.filter(pred)
        },
{
    reveal(Seq::filter);
    assert(s.push(x).drop_last() =~= s);
    assert(s.push(x).last() == x);
}

/// Every element of a filtered sequence occurs in the sequence it was
/// filtered from.
pub proof fn lemma_filter_subset_pub(s: Seq<FileView>, pred: spec_fn(FileView) -> bool)
    ensures
        forall|k: int|
            0 <= k < s.filter(pred).len() ==> exists|i: int|
                0 <= i < s.len() && s[i] == #[trigger] s.filter(pred)[k],
    decreases s.len(),
{
    reveal(Seq::filter);
    if s.len() > 0 {
        let pre = s.drop_last();
        lemma_filter_subset_pub(pre, pred);
        assert forall|k: int| 0 <= k < s.filter(pred).len() implies exists|i: int|
            0 <= i < s.len() && s[i] == #[trigger] s.filter(pred)[k] by {
            if k < pre.filter(pred).len() {
                let i = choose|i: int| 0 <= i < pre.len() && pre[i] == pre.filter(pred)[k];
                assert(s[i] == s.filter(pred)[k]);
            } else {
                assert(s[s.len() - 1] == s.filter(pred)[k]);
            }
        }
    }
}

/// Filtering never introduces a path that was absent.
proof fn lemma_filter_absent(s: Seq<FileView>, pred: spec_fn(FileView) -> bool, p: Seq<char>)
    requires
        !has_file(s, p),
    ensures
        !has_file(s.filter(pred), p),
{
    lemma_filter_subset_pub(s, pred);
    if has_file(s.filter(pred), p) {
        let k = choose|k: int| 0 <= k < s.filter(pred).len() && s.filter(pred)[k].file == p;
        let i = choose|i: int| 0 <= i < s.len() && s[i] == s.filter(pred)[k];
        assert(s[i].file == p);
    }
}

/// Filtering keeps strict sortedness.
proof fn lemma_filter_sorted(s: Seq<FileView>, pred: spec_fn(FileView) -> bool)
    requires
        strict_sorted(s),
    ensures
        strict_sorted(s.filter(pred)),
    decreases s.len(),
{
    reveal(Seq::filter);
    if s.len() > 0 {
        let pre = s.drop_last();
        let x = s.last();
        assert(strict_sorted(pre));
        lemma_filter_sorted(pre, pred);
        lemma_filter_subset_pub(pre, pred);
        if pred(x) {
            assert forall|i: int, j: int|
                0 <= i < j < s.filter(pred).len() implies lex_lt(
                #[trigger] s.filter(pred)[i].file,
                #[trigger] s.filter(pred)[j].file,
            ) by {
                if j < pre.filter(pred).len() {
                } else {
                    let fi = choose|k: int| 0 <= k < pre.len() && pre[k] == pre.filter(pred)[i];
                    assert(s[fi] == s.filter(pred)[i]);
                    assert(lex_lt(s[fi].file, x.file));
                }
            }
        }
    }
}

/// Finds the index of the entry with path `p`, scanning left to right.
pub fn find_file(files: &Vec<FileData>, p: &str) -> (r: Option<usize>)
    ensures
        match r {
            Some(i) => i < files@.len() && views(files@)[i as int].file == p@,
            None => !has_file(views(files@), p@),
        },
{
    let ghost m = views(files@);
    let mut i: usize = 0;
    while i < files.len()
        invariant
            i <= files@.len(),
            m == views(files@),
            forall|j: int| 0 <= j < i ==> m[j].file != p@,
        decreases files@.len() - i,
    {
        if str_eq(files[i].file.as_str(), p) {
            return Some(i);
        }
        i = i + 1;
    }
    None
}

/// Removes every entry whose path equals `d`.
pub fn remove_exact(files: &Vec<FileData>, d: &str) -> (r: Vec<FileData>)
    ensures
        views(r@) == views(files@).filter(|e: FileView| e.file != d@),
{
    let ghost m = views(files@);
    let ghost pred = |e: FileView| e.file != d@;
    let mut out: Vec<FileData> = Vec::new();
    let mut i: usize = 0;
    while i < files.len()
        invariant
            i <= files@.len(),
            m == views(files@),
            pred == (|e: FileView| e.file != d@),
            views(out@) == m.take(i as int).filter(pred),
        decreases files@.len() - i,
    {
        proof {
            assert(m[i as int] == files@[i as int]@);
            assert(m.take(i + 1).drop_last() =~= m.take(i as int));
            lemma_filter_push(m.take(i as int), pred, m[i as int]);
            assert(m.take(i + 1) =~= m.take(i as int).push(m[i as int]));
        }
        if !str_eq(files[i].file.as_str(), d) {
            let e = clone_file_data(&files[i]);
            out.push(e);
            proof {
                assert(pred(m[i as int]));
                assert(views(out@) =~= m.take(i as int).filter(pred).push(m[i as int]));
            }
        } else {
            proof {
                assert(!pred(m[i as int]));
            }
        }
        proof {
            assert(views(out@) == m.take(i + 1).filter(pred));
        }
        i = i + 1;
    }
    proof {
        assert(m.take(m.len() as int) =~= m);
    }
    out
}

/// Removes every entry lying under the directory `d`.
fn remove_under_dir(files: &Vec<FileData>, d: &str) -> (r: Vec<FileData>)
    ensures
        views(r@) == views(files@).filter(|e: FileView| !under_dir(e.file, d@)),
{
    let ghost m = views(files@);
    let ghost pred = |e: FileView| !under_dir(e.file, d@);
    let mut dir_prefix = d.to_owned();
    dir_prefix.append("/");
    proof {
        reveal_strlit("/");
        assert(dir_prefix@ =~= d@ + seq!['/']);
    }
    let mut out: Vec<FileData> = Vec::new();
    let mut i: usize = 0;
    while i < files.len()
        invariant
            i <= files@.len(),
            m == views(files@),
            dir_prefix@ == d@ + seq!['/'],
            pred == (|e: FileView| !under_dir(e.file, d@)),
            views(out@) == m.take(i as int).filter(pred),
        decreases files@.len() - i,
    {
        proof {
            assert(m[i as int] == files@[i as int]@);
            assert(m.take(i + 1).drop_last() =~= m.take(i as int));
            lemma_filter_push(m.take(i as int), pred, m[i as int]);
            assert(m.take(i + 1) =~= m.take(i as int).push(m[i as int]));
        }
        if !str_starts_with(files[i].file.as_str(), dir_prefix.as_str()) {
            let e = clone_file_data(&files[i]);
            out.push(e);
            proof {
                assert(views(out@) =~= m.take(i as int).filter(pred).push(m[i as int]));
            }
        }
        i = i + 1;
    }
    proof {
        assert(m.take(m.len() as int) =~= m);
    }
    out
}

/// One deletion step: an exact path is removed when present; otherwise the
/// path is read as a directory and everything under it goes.
pub open spec fn remove_one(m: Seq<FileView>, d: Seq<char>) -> Seq<FileView> {
    if has_file(m, d) {
        m.filter(|e: FileView| e.file != d)
    } else {
        m.filter(|e: FileView| !under_dir(e.file, d))
    }
}

/// Applies the deletion steps left to right.
pub open spec fn apply_deletes(m: Seq<FileView>, ds: Seq<Seq<char>>) -> Seq<FileView>
    decreases ds.len(),
{
    if ds.len() == 0 {
        m
    } else {
        apply_deletes(remove_one(m, ds[0]), ds.skip(1))
    }
}

/// Performs one deletion step on a file list.
fn delete_one(files: &Vec<FileData>, d: &str) -> (r: Vec<FileData>)
    ensures
        views(r@) == remove_one(views(files@), d@),
{
    match find_file(files, d) {
        Some(_) => remove_exact(files, d),
        None => remove_under_dir(files, d),
    }
}

} // verus!

verus! {

/// Inserts `f` before the first entry whose path is greater.
pub open spec fn spec_insert(m: Seq<FileView>, f: FileView) -> Seq<FileView>
    decreases m.len(),
{
    if m.len() == 0 {
        seq![f]
    } else if lex_lt(f.file, m[0].file) {
        seq![f] + m
    } else {
        seq![m[0]] + spec_insert(m.skip(1), f)
    }
}

/// Replaces the entry whose path is `f.file` when there is one, else
/// inserts `f` at its sorted position.
pub open spec fn upsert_one(m: Seq<FileView>, f: FileView) -> Seq<FileView> {
    if has_file(m, f.file) {
        m.map_values(|e: FileView| if e.file == f.file { f } else { e })
    } else {
        spec_insert(m, f)
    }
}

/// Applies the upserts left to right.
pub open spec fn apply_upserts(m: Seq<FileView>, us: Seq<FileView>) -> Seq<FileView>
    decreases us.len(),
{
    if us.len() == 0 {
        m
    } else {
        apply_upserts(upsert_one(m, us[0]), us.skip(1))
    }
}

/// Some entry equals `f`, path and hash.
pub open spec fn has_entry(m: Seq<FileView>, f: FileView) -> bool {
    exists|i: int| 0 <= i < m.len() && m[i] == f
}

proof fn lemma_insert_at(m: Seq<FileView>, f: FileView, i: int)
    requires
        0 <= i <= m.len(),
        forall|j: int| 0 <= j < i ==> !lex_lt(f.file, m[j].file),
        i < m.len() ==> lex_lt(f.file, m[i].file),
    ensures
        spec_insert(m, f) == m.insert(i, f),
    decreases m.len(),
{
    if m.len() == 0 {
        assert(spec_insert(m, f) =~= m.insert(0, f));
    } else if i == 0 {
        assert(spec_insert(m, f) =~= m.insert(0, f));
    } else {
        assert(!lex_lt(f.file, m[0].file));
        assert(forall|j: int| 0 <= j < i - 1 ==> m.skip(1)[j] == m[j + 1]);
        lemma_insert_at(m.skip(1), f, i - 1);
        assert(spec_insert(m, f) =~= m.insert(i, f));
    }
}

/// What `spec_insert` holds: one more entry, `f` among them, all old
/// entries kept, nothing else.
proof fn lemma_insert_props(m: Seq<FileView>, f: FileView)
    ensures
        spec_insert(m, f).len() == m.len() + 1,
        spec_insert(m, f).contains(f),
        forall|g: FileView| m.contains(g) ==> spec_insert(m, f).contains(g),
        forall|k: int|
            0 <= k < spec_insert(m, f).len() ==> spec_insert(m, f)[k] == f || m.contains(
                #[trigger] spec_insert(m, f)[k],
            ),
        forall|p: Seq<char>|
            has_file(spec_insert(m, f), p) <==> has_file(m, p) || p == f.file,
    decreases m.len(),
{
    if m.len() == 0 {
        assert(spec_insert(m, f)[0] == f);
        assert forall|p: Seq<char>|
            has_file(spec_insert(m, f), p) <==> has_file(m, p) || p == f.file by {
            if has_file(spec_insert(m, f), p) {
            } else if p == f.file {
                assert(spec_insert(m, f)[0].file == p);
            }
        }
    } else if lex_lt(f.file, m[0].file) {
        let r = seq![f] + m;
        assert(r[0] == f);
        assert forall|g: FileView| m.contains(g) implies r.contains(g) by {
            let i = choose|i: int| 0 <= i < m.len() && m[i] == g;
            assert(r[i + 1] == g);
        }
        assert forall|p: Seq<char>| has_file(r, p) <==> has_file(m, p) || p == f.file by {
            if has_file(r, p) {
                let i = choose|i: int| 0 <= i < r.len() && r[i].file == p;
                if i > 0 {
                    assert(m[i - 1].file == p);
                }
            } else {
                if has_file(m, p) {
                    let i = choose|i: int| 0 <= i < m.len() && m[i].file == p;
                    assert(r[i + 1].file == p);
                }
                if p == f.file {
                    assert(r[0].file == p);
                }
            }
        }
    } else {
        lemma_insert_props(m.skip(1), f);
        let sub = spec_insert(m.skip(1), f);
        let r = seq![m[0]] + sub;
        assert(r =~= spec_insert(m, f));
        assert(forall|k: int| 0 <= k < sub.len() ==> r[k + 1] == sub[k]);
        let fi = choose|i: int| 0 <= i < sub.len() && sub[i] == f;
        assert(r[fi + 1] == f);
        assert forall|g: FileView| m.contains(g) implies r.contains(g) by {
            let i = choose|i: int| 0 <= i < m.len() && m[i] == g;
            if i == 0 {
                assert(r[0] == g);
            } else {
                assert(m.skip(1)[i - 1] == g);
                assert(m.skip(1).contains(g));
                let k = choose|k: int| 0 <= k < sub.len() && sub[k] == g;
                assert(r[k + 1] == g);
            }
        }
        assert forall|k: int|
            0 <= k < r.len() implies r[k] == f || m.contains(#[trigger] r[k]) by {
            if k == 0 {
                assert(m.contains(m[0]));
            } else {
                assert(r[k] == sub[k - 1]);
                if sub[k - 1] != f {
                    assert(m.skip(1).contains(sub[k - 1]));
                    let j = choose|j: int| 0 <= j < m.skip(1).len() && m.skip(1)[j] == sub[k - 1];
                    assert(m[j + 1] == sub[k - 1]);
                }
            }
        }
        assert forall|p: Seq<char>| has_file(r, p) <==> has_file(m, p) || p == f.file by {
            if has_file(r, p) {
                let i = choose|i: int| 0 <= i < r.len() && r[i].file == p;
                if i > 0 {
                    assert(sub[i - 1].file == p);
                    if !(p == f.file) {
                        assert(has_file(m.skip(1), p));
                        let j = choose|j: int| 0 <= j < m.skip(1).len() && m.skip(1)[j].file == p;
                        assert(m[j + 1].file == p);
                    }
                }
            } else {
                if has_file(m, p) {
                    let i = choose|i: int| 0 <= i < m.len() && m[i].file == p;
                    if i == 0 {
                        assert(r[0].file == p);
                    } else {
                        assert(m.skip(1)[i - 1].file == p);
                        assert(has_file(m.skip(1), p));
                        assert(has_file(sub, p));
                        let k = choose|k: int| 0 <= k < sub.len() && sub[k].file == p;
                        assert(r[k + 1].file == p);
                    }
                }
                if p == f.file {
                    assert(r[fi + 1].file == p);
                }
            }
        }
    }
}

/// Inserting a fresh path into a strictly sorted list keeps it strictly
/// sorted.
proof fn lemma_insert_sorted(m: Seq<FileView>, f: FileView)
    requires
        strict_sorted(m),
        !has_file(m, f.file),
    ensures
        strict_sorted(spec_insert(m, f)),
    decreases m.len(),
{
    if m.len() == 0 {
    } else if lex_lt(f.file, m[0].file) {
        let r = seq![f] + m;
        assert forall|i: int, j: int| 0 <= i < j < r.len() implies lex_lt(
            r[i].file,
            r[j].file,
        ) by {
            if i == 0 {
                if j > 1 {
                    lemma_lex_lt_trans(f.file, m[0].file, m[j - 1].file);
                }
            }
        }
    } else {
        assert(m[0].file != f.file);
        lemma_lex_connex(f.file, m[0].file);
        assert(lex_lt(m[0].file, f.file));
        assert(strict_sorted(m.skip(1)));
        assert(!has_file(m.skip(1), f.file)) by {
            if has_file(m.skip(1), f.file) {
                let i = choose|i: int| 0 <= i < m.skip(1).len() && m.skip(1)[i].file == f.file;
                assert(m[i + 1].file == f.file);
            }
        }
        lemma_insert_sorted(m.skip(1), f);
        lemma_insert_props(m.skip(1), f);
        let sub = spec_insert(m.skip(1), f);
        let r = seq![m[0]] + sub;
        assert(r =~= spec_insert(m, f));
        assert forall|i: int, j: int| 0 <= i < j < r.len() implies lex_lt(
            r[i].file,
            r[j].file,
        ) by {
            if i == 0 {
                assert(r[j] == sub[j - 1]);
                if sub[j - 1] == f {
                } else {
                    assert(m.skip(1).contains(sub[j - 1]));
                    let k = choose|k: int|
                        0 <= k < m.skip(1).len() && m.skip(1)[k] == sub[j - 1];
                    assert(m[k + 1] == sub[j - 1]);
                    assert(lex_lt(m[0].file, m[k + 1].file));
                }
            } else {
                assert(r[i] == sub[i - 1]);
                assert(r[j] == sub[j - 1]);
            }
        }
    }
}

} // verus!

verus! {

/// Inserts `f` at its sorted position.
fn sorted_insert(files: &mut Vec<FileData>, f: FileData)
    ensures
        views(final(files)@) == spec_insert(views(old(files)@), f@),
{
    let ghost m = views(old(files)@);
    let mut i: usize = 0;
    while i < files.len()
        invariant
            i <= files@.len(),
            files@ == old(files)@,
            m == views(files@),
            forall|j: int| 0 <= j < i ==> !lex_lt(f@.file, m[j].file),
        decreases files@.len() - i,
    {
        if str_lt(f.file.as_str(), files[i].file.as_str()) {
            proof {
                assert(m[i as int] == files@[i as int]@);
                lemma_insert_at(m, f@, i as int);
            }
            files.insert(i, f);
            proof {
                assert(views(files@) =~= m.insert(i as int, f@));
            }
            return ;
        }
        proof {
            assert(m[i as int] == files@[i as int]@);
        }
        i = i + 1;
    }
    proof {
        lemma_insert_at(m, f@, m.len() as int);
    }
    let ghost n = files@.len();
    files.push(f);
    proof {
        assert(views(files@) =~= m.insert(n as int, f@));
    }
}

/// Replaces the hash of the entry at `f.file`, or inserts `f`.
fn upsert(files: &mut Vec<FileData>, f: FileData)
    requires
        strict_sorted(views(old(files)@)),
    ensures
        views(final(files)@) == upsert_one(views(old(files)@), f@),
{
    let ghost m = views(old(files)@);
    match find_file(files, f.file.as_str()) {
        Some(i) => {
            let _ = files.remove(i);
            files.insert(i, f);
            proof {
                assert forall|k: int| 0 <= k < m.len() && k != i implies m[k].file != f@.file by {
                    if k < i as int {
                        lemma_lex_asym(m[k].file, m[i as int].file);
                    } else {
                        lemma_lex_asym(m[i as int].file, m[k].file);
                    }
                }
                assert(views(files@) =~= m.map_values(
                    |e: FileView| if e.file == f@.file { f@ } else { e },
                ));
            }
        },
        None => {
            sorted_insert(files, f);
        },
    }
}

/// An upsert keeps a strictly sorted list strictly sorted.
proof fn lemma_upsert_sorted(m: Seq<FileView>, f: FileView)
    requires
        strict_sorted(m),
    ensures
        strict_sorted(upsert_one(m, f)),
{
    if has_file(m, f.file) {
        let i = choose|i: int| 0 <= i < m.len() && m[i].file == f.file;
        let r = m.map_values(|e: FileView| if e.file == f.file { f } else { e });
        assert forall|k: int| 0 <= k < r.len() implies r[k].file == m[k].file by {}
    } else {
        lemma_insert_sorted(m, f);
    }
}

/// Applies every deletion in order.
pub fn delete_all(files: &Vec<FileData>, deleted: &Vec<String>) -> (r: Vec<FileData>)
    ensures
        views(r@) == apply_deletes(views(files@), deleted@.map_values(|d: String| d@)),
{
    let ghost ds = deleted@.map_values(|d: String| d@);
    let ghost m0 = views(files@);
    let mut cur = clone_files(files);
    let mut i: usize = 0;
    proof {
        assert(ds.skip(0) =~= ds);
    }
    while i < deleted.len()
        invariant
            i <= deleted@.len(),
            ds == deleted@.map_values(|d: String| d@),
            m0 == views(files@),
            apply_deletes(views(cur@), ds.skip(i as int)) == apply_deletes(m0, ds),
        decreases deleted@.len() - i,
    {
        proof {
            assert(ds[i as int] == deleted@[i as int]@);
            assert(ds.skip(i as int)[0] == ds[i as int]);
            assert(ds.skip(i as int).skip(1) =~= ds.skip(i + 1));
        }
        cur = delete_one(&cur, deleted[i].as_str());
        i = i + 1;
    }
    proof {
        assert(ds.skip(ds.len() as int) =~= Seq::<Seq<char>>::empty());
    }
    cur
}

/// Copies a file list.
pub fn clone_files(files: &Vec<FileData>) -> (r: Vec<FileData>)
    ensures
        views(r@) == views(files@),
{
    let mut out: Vec<FileData> = Vec::new();
    let mut i: usize = 0;
    while i < files.len()
        invariant
            i <= files@.len(),
            views(out@) == views(files@).take(i as int),
        decreases files@.len() - i,
    {
        proof {
            assert(views(files@)[i as int] == files@[i as int]@);
        }
        let e = clone_file_data(&files[i]);
        let ghost before = out@;
        out.push(e);
        proof {
            assert(views(before) == views(files@).take(i as int));
            assert(views(before).len() == before.len());
            assert(before.len() == i as int);
            assert(out@ == before.push(e));
            assert(out@.len() == i + 1);
            assert forall|k: int| 0 <= k < i + 1 implies views(out@)[k] == views(files@).take(
                i + 1,
            )[k] by {
                assert(views(out@)[k] == out@[k]@);
                if k < i {
                    assert(out@[k] == before[k]);
                    assert(views(before)[k] == before[k]@);
                }
            }
            assert(views(out@) =~= views(files@).take(i + 1));
        }
        i = i + 1;
    }
    proof {
        assert(views(files@).take(files@.len() as int) =~= views(files@));
    }
    out
}

/// Applies every upsert in order; the list stays strictly sorted.
pub fn upsert_all(files: &mut Vec<FileData>, updated: &Vec<FileData>)
    requires
        strict_sorted(views(old(files)@)),
    ensures
        views(final(files)@) == apply_upserts(views(old(files)@), views(updated@)),
        strict_sorted(views(final(files)@)),
{
    let ghost us = views(updated@);
    let ghost m0 = views(old(files)@);
    let mut i: usize = 0;
    proof {
        assert(us.skip(0) =~= us);
    }
    while i < updated.len()
        invariant
            i <= updated@.len(),
            us == views(updated@),
            strict_sorted(views(files@)),
            apply_upserts(views(files@), us.skip(i as int)) == apply_upserts(m0, us),
        decreases updated@.len() - i,
    {
        proof {
            assert(us[i as int] == updated@[i as int]@);
            assert(us.skip(i as int)[0] == us[i as int]);
            assert(us.skip(i as int).skip(1) =~= us.skip(i + 1));
            lemma_upsert_sorted(views(files@), us[i as int]);
        }
        let f = clone_file_data(&updated[i]);
        upsert(files, f);
        i = i + 1;
    }
    proof {
        assert(us.skip(us.len() as int) =~= Seq::<FileView>::empty());
    }
}

} // verus!

verus! {

broadcast use vstd::seq_lib::group_filter_ensures;

/// A deletion step never adds a path.
proof fn lemma_remove_one_absent(m: Seq<FileView>, d: Seq<char>, p: Seq<char>)
    requires
        !has_file(m, p),
    ensures
        !has_file(remove_one(m, d), p),
{
    if has_file(m, d) {
        lemma_filter_absent(m, |e: FileView| e.file != d, p);
    } else {
        lemma_filter_absent(m, |e: FileView| !under_dir(e.file, d), p);
    }
}

/// After its own deletion step the path `d` is gone.
proof fn lemma_remove_one_self(m: Seq<FileView>, d: Seq<char>)
    ensures
        !has_file(remove_one(m, d), d),
{
    if has_file(m, d) {
        let r = m.filter(|e: FileView| e.file != d);
        if has_file(r, d) {
            let k = choose|k: int| 0 <= k < r.len() && r[k].file == d;
        }
    } else {
        lemma_filter_absent(m, |e: FileView| !under_dir(e.file, d), d);
    }
}

proof fn lemma_apply_deletes_absent(m: Seq<FileView>, ds: Seq<Seq<char>>, p: Seq<char>)
    requires
        !has_file(m, p),
    ensures
        !has_file(apply_deletes(m, ds), p),
    decreases ds.len(),
{
    if ds.len() > 0 {
        lemma_remove_one_absent(m, ds[0], p);
        lemma_apply_deletes_absent(remove_one(m, ds[0]), ds.skip(1), p);
    }
}

/// A path among the deletions is absent once all deletions ran.
proof fn lemma_apply_deletes_self(m: Seq<FileView>, ds: Seq<Seq<char>>, d: Seq<char>)
    requires
        ds.contains(d),
    ensures
        !has_file(apply_deletes(m, ds), d),
    decreases ds.len(),
{
    let i = choose|i: int| 0 <= i < ds.len() && ds[i] == d;
    if i == 0 {
        lemma_remove_one_self(m, d);
        lemma_apply_deletes_absent(remove_one(m, d), ds.skip(1), d);
    } else {
        assert(ds.skip(1)[i - 1] == d);
        assert(ds.skip(1).contains(d));
        lemma_apply_deletes_self(remove_one(m, ds[0]), ds.skip(1), d);
    }
}

/// An upsert of a different path neither adds nor removes `p`.
proof fn lemma_upsert_one_file(m: Seq<FileView>, f: FileView, p: Seq<char>)
    requires
        p != f.file,
    ensures
        has_file(upsert_one(m, f), p) == has_file(m, p),
{
    if has_file(m, f.file) {
        let r = upsert_one(m, f);
        if has_file(r, p) {
            let k = choose|k: int| 0 <= k < r.len() && r[k].file == p;
            assert(m[k].file == p);
        }
        if has_file(m, p) {
            let k = choose|k: int| 0 <= k < m.len() && m[k].file == p;
            assert(r[k].file == p);
        }
    } else {
        lemma_insert_props(m, f);
    }
}

proof fn lemma_apply_upserts_absent(m: Seq<FileView>, us: Seq<FileView>, p: Seq<char>)
    requires
        !has_file(m, p),
        forall|k: int| 0 <= k < us.len() ==> us[k].file != p,
    ensures
        !has_file(apply_upserts(m, us), p),
    decreases us.len(),
{
    if us.len() > 0 {
        lemma_upsert_one_file(m, us[0], p);
        lemma_apply_upserts_absent(upsert_one(m, us[0]), us.skip(1), p);
    }
}

/// A deleted path that no upsert re-adds is absent from the result of the
/// whole update.
pub proof fn lemma_update_deleted_absent(
    m: Seq<FileView>,
    us: Seq<FileView>,
    ds: Seq<Seq<char>>,
    d: Seq<char>,
)
    requires
        ds.contains(d),
        forall|k: int| 0 <= k < us.len() ==> us[k].file != d,
    ensures
        !has_file(apply_upserts(apply_deletes(m, ds), us), d),
{
    lemma_apply_deletes_self(m, ds, d);
    lemma_apply_upserts_absent(apply_deletes(m, ds), us, d);
}

/// After its own upsert the exact entry `f` is present.
proof fn lemma_upsert_one_present(m: Seq<FileView>, f: FileView)
    ensures
        has_entry(upsert_one(m, f), f),
{
    if has_file(m, f.file) {
        let r = upsert_one(m, f);
        let k = choose|k: int| 0 <= k < m.len() && m[k].file == f.file;
        assert(r[k] == f);
    } else {
        lemma_insert_props(m, f);
        let r = spec_insert(m, f);
        let k = choose|k: int| 0 <= k < r.len() && r[k] == f;
    }
}

/// An upsert of a different path keeps the entry `g` intact.
proof fn lemma_upsert_one_keeps(m: Seq<FileView>, f: FileView, g: FileView)
    requires
        g.file != f.file,
        has_entry(m, g),
    ensures
        has_entry(upsert_one(m, f), g),
{
    if has_file(m, f.file) {
        let r = upsert_one(m, f);
        let k = choose|k: int| 0 <= k < m.len() && m[k] == g;
        assert(r[k] == g);
    } else {
        lemma_insert_props(m, f);
        let k = choose|k: int| 0 <= k < m.len() && m[k] == g;
        assert(m.contains(g));
        let r = spec_insert(m, f);
        assert(r.contains(g));
        let j = choose|j: int| 0 <= j < r.len() && r[j] == g;
    }
}

proof fn lemma_apply_upserts_keeps(m: Seq<FileView>, us: Seq<FileView>, g: FileView)
    requires
        has_entry(m, g),
        forall|k: int| 0 <= k < us.len() ==> us[k].file != g.file,
    ensures
        has_entry(apply_upserts(m, us), g),
    decreases us.len(),
{
    if us.len() > 0 {
        lemma_upsert_one_keeps(m, us[0], g);
        lemma_apply_upserts_keeps(upsert_one(m, us[0]), us.skip(1), g);
    }
}

/// Each upserted entry stands in the final list with its new hash, as long
/// as no later upsert touches the same path.
pub proof fn lemma_update_updated_present(
    m: Seq<FileView>,
    us: Seq<FileView>,
    ds: Seq<Seq<char>>,
    k: int,
)
    requires
        0 <= k < us.len(),
        forall|j: int| k < j < us.len() ==> us[j].file != us[k].file,
    ensures
        has_entry(apply_upserts(apply_deletes(m, ds), us), us[k]),
    decreases us.len(),
{
    lemma_apply_upserts_from(apply_deletes(m, ds), us, k);
}

proof fn lemma_apply_upserts_from(m: Seq<FileView>, us: Seq<FileView>, k: int)
    requires
        0 <= k < us.len(),
        forall|j: int| k < j < us.len() ==> us[j].file != us[k].file,
    ensures
        has_entry(apply_upserts(m, us), us[k]),
    decreases us.len(),
{
    if k == 0 {
        lemma_upsert_one_present(m, us[0]);
        assert(forall|j: int|
            0 <= j < us.skip(1).len() ==> us.skip(1)[j].file != us[0].file);
        lemma_apply_upserts_keeps(upsert_one(m, us[0]), us.skip(1), us[0]);
    } else {
        assert(us.skip(1)[k - 1] == us[k]);
        assert(forall|j: int|
            k - 1 < j < us.skip(1).len() ==> (#[trigger] us.skip(1)[j]).file != us.skip(1)[k
                - 1].file);
        lemma_apply_upserts_from(upsert_one(m, us[0]), us.skip(1), k - 1);
    }
}

proof fn lemma_remove_one_sorted(m: Seq<FileView>, d: Seq<char>)
    requires
        strict_sorted(m),
    ensures
        strict_sorted(remove_one(m, d)),
{
    if has_file(m, d) {
        lemma_filter_sorted(m, |e: FileView| e.file != d);
    } else {
        lemma_filter_sorted(m, |e: FileView| !under_dir(e.file, d));
    }
}

proof fn lemma_apply_deletes_sorted(m: Seq<FileView>, ds: Seq<Seq<char>>)
    requires
        strict_sorted(m),
    ensures
        strict_sorted(apply_deletes(m, ds)),
    decreases ds.len(),
{
    if ds.len() > 0 {
        lemma_remove_one_sorted(m, ds[0]);
        lemma_apply_deletes_sorted(remove_one(m, ds[0]), ds.skip(1));
    }
}

/// The whole incremental update on a file list: the deletion passes, then
/// the upserts, the result strictly sorted again.
pub fn update_file_list(
    files: &Vec<FileData>,
    updated: &Vec<FileData>,
    deleted: &Vec<String>,
) -> (r: Vec<FileData>)
    requires
        strict_sorted(views(files@)),
    ensures
        views(r@) == apply_upserts(
            apply_deletes(views(files@), deleted@.map_values(|d: String| d@)),
            views(updated@),
        ),
        strict_sorted(views(r@)),
{
    let mut cur = delete_all(files, deleted);
    proof {
        lemma_apply_deletes_sorted(views(files@), deleted@.map_values(|d: String| d@));
    }
    upsert_all(&mut cur, updated);
    cur
}

} // verus!

verus! {

/// No two entries share a path.
pub open spec fn unique_files(s: Seq<FileView>) -> bool {
    forall|i: int, j: int| 0 <= i < j < s.len() ==> s[i].file != s[j].file
}

/// The entries of `s` in sorted order, by repeated insertion.
pub open spec fn sort_spec(s: Seq<FileView>) -> Seq<FileView>
    decreases s.len(),
{
    if s.len() == 0 {
        Seq::empty()
    } else {
        spec_insert(sort_spec(s.drop_last()), s.last())
    }
}

/// Sorting keeps exactly the entries of the input.
proof fn lemma_sort_spec_props(s: Seq<FileView>)
    ensures
        sort_spec(s).len() == s.len(),
        forall|g: FileView| sort_spec(s).contains(g) <==> s.contains(g),
        forall|p: Seq<char>| has_file(sort_spec(s), p) <==> has_file(s, p),
    decreases s.len(),
{
    if s.len() > 0 {
        let pre = s.drop_last();
        lemma_sort_spec_props(pre);
        lemma_insert_props(sort_spec(pre), s.last());
        let r = sort_spec(s);
        assert forall|g: FileView| r.contains(g) <==> s.contains(g) by {
            if r.contains(g) {
                let k = choose|k: int| 0 <= k < r.len() && r[k] == g;
                assert(r[k] == spec_insert(sort_spec(pre), s.last())[k]);
                if r[k] == s.last() {
                    assert(s[s.len() - 1] == g);
                } else {
                    assert(sort_spec(pre).contains(g));
                    assert(pre.contains(g));
                    let j = choose|j: int| 0 <= j < pre.len() && pre[j] == g;
                    assert(s[j] == g);
                }
            }
            if s.contains(g) {
                let i = choose|i: int| 0 <= i < s.len() && s[i] == g;
                if i < s.len() - 1 {
                    assert(pre[i] == g);
                    assert(pre.contains(g));
                    assert(sort_spec(pre).contains(g));
                } else {
                    assert(g == s.last());
                }
            }
        }
        assert forall|p: Seq<char>| has_file(r, p) <==> has_file(s, p) by {
            if has_file(r, p) {
                let k = choose|k: int| 0 <= k < r.len() && r[k].file == p;
                assert(r[k] == spec_insert(sort_spec(pre), s.last())[k]);
                if p != s.last().file {
                    assert(r[k] != s.last());
                    assert(sort_spec(pre).contains(r[k]));
                    let q = choose|q: int| 0 <= q < sort_spec(pre).len() && sort_spec(pre)[q] == r[k];
                    assert(has_file(sort_spec(pre), p));
                    assert(has_file(pre, p));
                    let j = choose|j: int| 0 <= j < pre.len() && pre[j].file == p;
                    assert(s[j].file == p);
                } else {
                    assert(s[s.len() - 1].file == p);
                }
            }
            if has_file(s, p) {
                let i = choose|i: int| 0 <= i < s.len() && s[i].file == p;
                if i < s.len() - 1 {
                    assert(pre[i].file == p);
                    assert(has_file(pre, p));
                    assert(has_file(sort_spec(pre), p));
                } else {
                    assert(p == s.last().file);
                }
            }
        }
    }
}

/// Sorting a duplicate-free list gives a strictly sorted list.
proof fn lemma_sort_spec_sorted(s: Seq<FileView>)
    requires
        unique_files(s),
    ensures
        strict_sorted(sort_spec(s)),
    decreases s.len(),
{
    if s.len() > 0 {
        let pre = s.drop_last();
        assert(unique_files(pre));
        lemma_sort_spec_sorted(pre);
        lemma_sort_spec_props(pre);
        assert(!has_file(pre, s.last().file)) by {
            if has_file(pre, s.last().file) {
                let i = choose|i: int| 0 <= i < pre.len() && pre[i].file == s.last().file;
                assert(s[i].file == s[s.len() - 1].file);
            }
        }
        lemma_insert_sorted(sort_spec(pre), s.last());
    }
}

/// Sorts by repeated insertion; fit for short lists.
fn insertion_sort(files: &Vec<FileData>) -> (r: Vec<FileData>)
    ensures
        views(r@) == sort_spec(views(files@)),
{
    let ghost m = views(files@);
    let mut out: Vec<FileData> = Vec::new();
    let mut i: usize = 0;
    while i < files.len()
        invariant
            i <= files@.len(),
            m == views(files@),
            views(out@) == sort_spec(m.take(i as int)),
        decreases files@.len() - i,
    {
        proof {
            assert(m[i as int] == files@[i as int]@);
            assert(m.take(i + 1).drop_last() =~= m.take(i as int));
            assert(m.take(i + 1).last() == m[i as int]);
        }
        let e = clone_file_data(&files[i]);
        sorted_insert(&mut out, e);
        i = i + 1;
    }
    proof {
        assert(m.take(m.len() as int) =~= m);
    }
    out
}

/// Relies on rayon's `par_sort_by`: it reorders the slice into a
/// permutation that the given comparator finds non-decreasing; the
/// comparator runs this crate's `str_cmp` on the paths.
#[verifier::external_body]
fn par_sort_by_file(files: &mut Vec<FileData>)
    ensures
        sorted_le(views(final(files)@)),
        views(final(files)@).to_multiset() == views(old(files)@).to_multiset(),
{
    files.par_sort_by(|a, b| match str_cmp(a.file.as_str(), b.file.as_str()) {
        StrOrder::Less => std::cmp::Ordering::Less,
        StrOrder::Equal => std::cmp::Ordering::Equal,
        StrOrder::Greater => std::cmp::Ordering::Greater,
    });
}

/// Sorts a duplicate-free file list by path: short lists sequentially,
/// long ones through the parallel sort, past the overhead threshold.
pub fn sort_file_list(files: &mut Vec<FileData>)
    requires
        unique_files(views(old(files)@)),
    ensures
        strict_sorted(views(final(files)@)),
        views(final(files)@).len() == views(old(files)@).len(),
        forall|g: FileView| views(final(files)@).contains(g) <==> views(old(files)@).contains(g),
        forall|p: Seq<char>| has_file(views(final(files)@), p) <==> has_file(views(old(files)@), p),
{
    let ghost mo = views(old(files)@);
    if files.len() < 500 {
        let sorted = insertion_sort(files);
        *files = sorted;
        proof {
            lemma_sort_spec_props(mo);
            lemma_sort_spec_sorted(mo);
        }
    } else {
        par_sort_by_file(files);
        proof {
            broadcast use vstd::seq_lib::group_to_multiset_ensures;

            let mf = views(files@);
            assert(mo.no_duplicates()) by {
                assert forall|i: int, j: int|
                    0 <= i < mo.len() && 0 <= j < mo.len() && i != j implies mo[i] != mo[j] by {
                    if i < j {
                        assert(mo[i].file != mo[j].file);
                    } else {
                        assert(mo[j].file != mo[i].file);
                    }
                }
            }
            mo.lemma_multiset_has_no_duplicates();
            assert forall|x: FileView| mf.to_multiset().contains(x) implies mf.to_multiset().count(
                x,
            ) == 1 by {
                assert(mo.to_multiset().count(x) == 1);
            }
            mf.lemma_multiset_has_no_duplicates_conv();
            assert forall|g: FileView| mf.contains(g) <==> mo.contains(g) by {
                assert(mf.contains(g) <==> mf.to_multiset().count(g) > 0);
                assert(mo.contains(g) <==> mo.to_multiset().count(g) > 0);
            }
            assert(mf.len() == mo.len()) by {
                assert(mf.len() == mf.to_multiset().len());
                assert(mo.len() == mo.to_multiset().len());
            }
            assert forall|i: int, j: int| 0 <= i < j < mf.len() implies lex_lt(
                mf[i].file,
                mf[j].file,
            ) by {
                if !lex_lt(mf[i].file, mf[j].file) {
                    assert(mf[i].file == mf[j].file);
                    assert(mf[i] != mf[j]);
                    assert(mf.contains(mf[i]));
                    assert(mf.contains(mf[j]));
                    assert(mo.contains(mf[i]));
                    assert(mo.contains(mf[j]));
                    let a = choose|a: int| 0 <= a < mo.len() && mo[a] == mf[i];
                    let b = choose|b: int| 0 <= b < mo.len() && mo[b] == mf[j];
                    assert(mo[a].file == mo[b].file);
                    if a < b {
                        assert(mo[a].file != mo[b].file);
                    } else if b < a {
                        assert(mo[b].file != mo[a].file);
                    }
                }
            }
            assert forall|p: Seq<char>|
                has_file(mf, p) <==> has_file(mo, p) by {
                if has_file(mf, p) {
                    let k = choose|k: int| 0 <= k < mf.len() && mf[k].file == p;
                    assert(mo.contains(mf[k]));
                    let a = choose|a: int| 0 <= a < mo.len() && mo[a] == mf[k];
                    assert(mo[a].file == p);
                }
                if has_file(mo, p) {
                    let k = choose|k: int| 0 <= k < mo.len() && mo[k].file == p;
                    assert(mf.contains(mo[k]));
                    let a = choose|a: int| 0 <= a < mf.len() && mf[a] == mo[k];
                    assert(mf[a].file == p);
                }
            }
        }
    }
}

} // verus!
