//! Project-root mappings: which project owns a path, decided by the
//! longest matching root, and the patcher that routes updated and deleted
//! files into per-project lists and the global list.
use vstd::prelude::*;
use crate::files::{
    clone_file_data, clone_files, find_file, has_entry, has_file,
    lemma_filter_subset_pub, remove_exact, sort_file_list, strict_sorted, unique_files, views,
    FileData, FileView,
};
use crate::strkit::{is_prefix, str_eq, str_starts_with};

verus! {

/// One root-to-project mapping entry.
pub struct ProjectRootMapping {
    pub root: String,
    pub project: String,
}

/// The mathematical value of a mapping entry.
#[verifier::ext_equal]
pub ghost struct MappingView {
    pub root: Seq<char>,
    pub project: Seq<char>,
}

impl View for ProjectRootMapping {
    type V = MappingView;

    open spec fn view(&self) -> MappingView {
        MappingView { root: self.root@, project: self.project@ }
    }
}

/// The views of all mapping entries.
pub open spec fn mapping_views(s: Seq<ProjectRootMapping>) -> Seq<MappingView> {
    s.map_values(|e: ProjectRootMapping| e@)
}

/// A root owns a path when it equals the path or prefixes it at a
/// separator.
pub open spec fn root_matches(root: Seq<char>, path: Seq<char>) -> bool {
    root == path || is_prefix(root + seq!['/'], path)
}

/// The index of the best mapping for `path` among the first entries of
/// `ms`: the longest matching root, the earliest on a tie; `-1` when none
/// matches.
pub open spec fn best_idx(ms: Seq<MappingView>, path: Seq<char>) -> int
    decreases ms.len(),
{
    if ms.len() == 0 {
        -1
    } else {
        let prev = best_idx(ms.drop_last(), path);
        let j = ms.len() - 1;
        if root_matches(ms[j].root, path) && (prev == -1 || ms[prev].root.len()
            < ms[j].root.len()) {
            j
        } else {
            prev
        }
    }
}

/// The project owning `path`, by longest matching root.
pub open spec fn owner_of(ms: Seq<MappingView>, path: Seq<char>) -> Option<Seq<char>> {
    let b = best_idx(ms, path);
    if b == -1 {
        None
    } else {
        Some(ms[b].project)
    }
}

/// Tests whether `root` owns `path`.
fn root_matches_str(root: &str, path: &str) -> (r: bool)
    ensures
        r == root_matches(root@, path@),
{
    if str_eq(root, path) {
        true
    } else {
        let mut pre = root.to_owned();
        pre.append("/");
        proof {
            reveal_strlit("/");
            assert(pre@ =~= root@ + seq!['/']);
        }
        str_starts_with(path, pre.as_str())
    }
}

/// The project owning `path`: the mapping with the longest matching root
/// wins, the earliest of equally long ones.
pub fn find_project_for_path(path: &str, mappings: &Vec<ProjectRootMapping>) -> (r: Option<String>)
    ensures
        match r {
            Some(p) => owner_of(mapping_views(mappings@), path@) == Some(p@),
            None => owner_of(mapping_views(mappings@), path@) is None,
        },
{
    let ghost ms = mapping_views(mappings@);
    let mut best: Option<usize> = None;
    let mut best_len: usize = 0;
    let mut j: usize = 0;
    proof {
        assert(ms.take(0) =~= Seq::<MappingView>::empty());
    }
    while j < mappings.len()
        invariant
            j <= mappings@.len(),
            ms == mapping_views(mappings@),
            match best {
                None => best_idx(ms.take(j as int), path@) == -1,
                Some(b) => b < j && best_idx(ms.take(j as int), path@) == b as int && best_len
                    == ms[b as int].root.len(),
            },
        decreases mappings@.len() - j,
    {
        proof {
            assert(ms[j as int] == mappings@[j as int]@);
            assert(ms.take(j + 1).drop_last() =~= ms.take(j as int));
            assert(ms.take(j + 1).last() == ms[j as int]);
            assert(forall|k: int| 0 <= k <= j ==> ms.take(j + 1)[k] == ms[k]);
        }
        if root_matches_str(mappings[j].root.as_str(), path) {
            let rlen = mappings[j].root.unicode_len();
            match best {
                None => {
                    best = Some(j);
                    best_len = rlen;
                },
                Some(_) => {
                    if best_len < rlen {
                        best = Some(j);
                        best_len = rlen;
                    }
                },
            }
        }
        j = j + 1;
    }
    proof {
        assert(ms.take(ms.len() as int) =~= ms);
    }
    match best {
        Some(b) => Some(mappings[b].project.clone()),
        None => None,
    }
}

} // verus!

verus! {

/// One project's name and its file list.
pub struct ProjectEntry {
    pub project: String,
    pub files: Vec<FileData>,
}

/// The mathematical value of a project entry.
#[verifier::ext_equal]
pub ghost struct ProjectEntryView {
    pub project: Seq<char>,
    pub files: Seq<FileView>,
}

impl View for ProjectEntry {
    type V = ProjectEntryView;

    open spec fn view(&self) -> ProjectEntryView {
        ProjectEntryView { project: self.project@, files: views(self.files@) }
    }
}

/// The views of all project entries.
pub open spec fn pviews(s: Seq<ProjectEntry>) -> Seq<ProjectEntryView> {
    s.map_values(|e: ProjectEntry| e@)
}

/// The project names, in order.
pub open spec fn pnames(pm: Seq<ProjectEntryView>) -> Seq<Seq<char>> {
    pm.map_values(|e: ProjectEntryView| e.project)
}

/// The first index bearing the name `pr`; `-1` when none does.
pub open spec fn proj_idx(ps: Seq<Seq<char>>, pr: Seq<char>) -> int
    decreases ps.len(),
{
    if ps.len() == 0 {
        -1
    } else if ps[0] == pr {
        0
    } else {
        let r = proj_idx(ps.skip(1), pr);
        if r == -1 {
            -1
        } else {
            r + 1
        }
    }
}

proof fn lemma_proj_idx_at(ps: Seq<Seq<char>>, pr: Seq<char>, i: int)
    requires
        0 <= i <= ps.len(),
        forall|j: int| 0 <= j < i ==> ps[j] != pr,
        i < ps.len() ==> ps[i] == pr,
    ensures
        i == ps.len() ==> proj_idx(ps, pr) == -1,
        i < ps.len() ==> proj_idx(ps, pr) == i,
    decreases ps.len(),
{
    if ps.len() > 0 {
        if ps[0] == pr {
        } else {
            assert(forall|j: int| 0 <= j < i - 1 ==> ps.skip(1)[j] == ps[j + 1]);
            lemma_proj_idx_at(ps.skip(1), pr, i - 1);
        }
    }
}

proof fn lemma_proj_idx_range(ps: Seq<Seq<char>>, pr: Seq<char>)
    ensures
        proj_idx(ps, pr) == -1 || (0 <= proj_idx(ps, pr) < ps.len() && ps[proj_idx(ps, pr)] == pr),
    decreases ps.len(),
{
    if ps.len() > 0 && ps[0] != pr {
        lemma_proj_idx_range(ps.skip(1), pr);
    }
}

/// Which project entry an updated or deleted path routes to: the owning
/// project's entry, `-1` when no project owns it or none bears the name.
pub open spec fn route_of(ms: Seq<MappingView>, names: Seq<Seq<char>>, path: Seq<char>) -> int {
    match owner_of(ms, path) {
        Option::None => -1,
        Option::Some(pr) => proj_idx(names, pr),
    }
}

/// Replaces every entry at `u.file` (there is at most one) by `u`.
pub open spec fn replace_entry(m: Seq<FileView>, u: FileView) -> Seq<FileView> {
    m.map_values(|e: FileView| if e.file == u.file { u } else { e })
}

/// An upsert on an unsorted list: replace in place, or append.
pub open spec fn upsert_flat(m: Seq<FileView>, u: FileView) -> Seq<FileView> {
    if has_file(m, u.file) {
        replace_entry(m, u)
    } else {
        m.push(u)
    }
}

/// Every project list except the one at `keep` with the path `p`
/// removed: an updated path lives in exactly one place afterwards.
pub open spec fn scrub_others(pm: Seq<ProjectEntryView>, keep: int, p: Seq<char>) -> Seq<
    ProjectEntryView,
> {
    pm.map(
        |kk: int, e: ProjectEntryView|
            if kk == keep {
                e
            } else {
                ProjectEntryView {
                    project: e.project,
                    files: e.files.filter(|x: FileView| x.file != p),
                }
            },
    )
}

/// One updated file applied to the whole state: upserted into the
/// owner's list when a project owns the path and stands in the map, else
/// into the global list; either way the path is removed from every other
/// list, so it lives in one place afterwards.
pub open spec fn step_update(
    ms: Seq<MappingView>,
    pm: Seq<ProjectEntryView>,
    g: Seq<FileView>,
    u: FileView,
) -> (Seq<ProjectEntryView>, Seq<FileView>) {
    let k = route_of(ms, pnames(pm), u.file);
    if k == -1 {
        (scrub_others(pm, -1, u.file), upsert_flat(g, u))
    } else {
        (
            scrub_others(pm, k, u.file).update(
                k,
                ProjectEntryView { project: pm[k].project, files: upsert_flat(pm[k].files, u) },
            ),
            g.filter(|x: FileView| x.file != u.file),
        )
    }
}

/// The projects that gained a file during the updates: those an update
/// routed to while the path was not yet in their list. Only these are
/// re-sorted afterwards.
pub open spec fn touched_updates(
    ms: Seq<MappingView>,
    pm: Seq<ProjectEntryView>,
    g: Seq<FileView>,
    us: Seq<FileView>,
) -> Set<int>
    decreases us.len(),
{
    if us.len() == 0 {
        Set::empty()
    } else {
        let k = route_of(ms, pnames(pm), us[0].file);
        let s = step_update(ms, pm, g, us[0]);
        let rest = touched_updates(ms, s.0, s.1, us.skip(1));
        if k != -1 && !has_file(pm[k].files, us[0].file) {
            rest.insert(k)
        } else {
            rest
        }
    }
}

/// Each path occurs at most once over the union of all project lists and
/// the global list, and never twice within one list.
pub open spec fn at_most_once(pm: Seq<ProjectEntryView>, g: Seq<FileView>) -> bool {
    &&& forall|k: int| 0 <= k < pm.len() ==> unique_files((#[trigger] pm[k]).files)
    &&& unique_files(g)
    &&& forall|k1: int, k2: int, i: int, j: int|
        0 <= k1 < k2 < pm.len() && 0 <= i < pm[k1].files.len() && 0 <= j
            < pm[k2].files.len() ==> (#[trigger] pm[k1].files[i]).file != (
        #[trigger] pm[k2].files[j]).file
    &&& forall|k: int, i: int, j: int|
        0 <= k < pm.len() && 0 <= i < pm[k].files.len() && 0 <= j < g.len() ==> (
        #[trigger] pm[k].files[i]).file != (#[trigger] g[j]).file
}

/// All updated files applied left to right.
pub open spec fn apply_updates_pg(
    ms: Seq<MappingView>,
    pm: Seq<ProjectEntryView>,
    g: Seq<FileView>,
    us: Seq<FileView>,
) -> (Seq<ProjectEntryView>, Seq<FileView>)
    decreases us.len(),
{
    if us.len() == 0 {
        (pm, g)
    } else {
        let s = step_update(ms, pm, g, us[0]);
        apply_updates_pg(ms, s.0, s.1, us.skip(1))
    }
}

/// One deleted path applied to the whole state: dropped from the owning
/// project's list when one owns it, and from the global list in any case.
pub open spec fn step_delete(
    ms: Seq<MappingView>,
    pm: Seq<ProjectEntryView>,
    g: Seq<FileView>,
    d: Seq<char>,
) -> (Seq<ProjectEntryView>, Seq<FileView>) {
    let k = route_of(ms, pnames(pm), d);
    let g2 = g.filter(|e: FileView| e.file != d);
    if k == -1 {
        (pm, g2)
    } else {
        (
            pm.update(
                k,
                ProjectEntryView {
                    project: pm[k].project,
                    files: pm[k].files.filter(|e: FileView| e.file != d),
                },
            ),
            g2,
        )
    }
}

/// All deleted paths applied left to right.
pub open spec fn apply_deletes_pg(
    ms: Seq<MappingView>,
    pm: Seq<ProjectEntryView>,
    g: Seq<FileView>,
    ds: Seq<Seq<char>>,
) -> (Seq<ProjectEntryView>, Seq<FileView>)
    decreases ds.len(),
{
    if ds.len() == 0 {
        (pm, g)
    } else {
        let s = step_delete(ms, pm, g, ds[0]);
        apply_deletes_pg(ms, s.0, s.1, ds.skip(1))
    }
}

/// The state after the whole patch: updates first, then deletions.
pub open spec fn patched_state(
    ms: Seq<MappingView>,
    pm: Seq<ProjectEntryView>,
    g: Seq<FileView>,
    us: Seq<FileView>,
    ds: Seq<Seq<char>>,
) -> (Seq<ProjectEntryView>, Seq<FileView>) {
    let up = apply_updates_pg(ms, pm, g, us);
    apply_deletes_pg(ms, up.0, up.1, ds)
}

} // verus!

verus! {

/// Copies a list of project entries.
pub fn clone_project_entries(src: &Vec<ProjectEntry>) -> (r: Vec<ProjectEntry>)
    ensures
        pviews(r@) == pviews(src@),
{
    let mut out: Vec<ProjectEntry> = Vec::new();
    let mut i: usize = 0;
    while i < src.len()
        invariant
            i <= src@.len(),
            pviews(out@) == pviews(src@).take(i as int),
        decreases src@.len() - i,
    {
        proof {
            assert(pviews(src@)[i as int] == src@[i as int]@);
        }
        let e = ProjectEntry {
            project: src[i].project.clone(),
            files: clone_files(&src[i].files),
        };
        let ghost before = out@;
        out.push(e);
        proof {
            assert(e@ =~= src@[i as int]@);
            assert(pviews(before) == pviews(src@).take(i as int));
            assert(pviews(before).len() == before.len());
            assert(out@ == before.push(e));
            assert(pviews(out@) =~= pviews(src@).take(i + 1));
        }
        i = i + 1;
    }
    proof {
        assert(pviews(src@).take(src@.len() as int) =~= pviews(src@));
    }
    out
}

/// A filtered duplicate-free list stays duplicate-free.
proof fn lemma_filter_unique(s: Seq<FileView>, pred: spec_fn(FileView) -> bool)
    requires
        unique_files(s),
    ensures
        unique_files(s.filter(pred)),
    decreases s.len(),
{
    reveal(Seq::filter);
    if s.len() > 0 {
        let pre = s.drop_last();
        let x = s.last();
        assert(unique_files(pre));
        lemma_filter_unique(pre, pred);
        lemma_filter_subset_pub(pre, pred);
        if pred(x) {
            assert forall|i: int, j: int|
                0 <= i < j < s.filter(pred).len() implies (#[trigger] s.filter(pred)[i]).file != (
            #[trigger] s.filter(pred)[j]).file by {
                if j == s.filter(pred).len() - 1 {
                    let fi = choose|k: int| 0 <= k < pre.len() && pre[k] == pre.filter(pred)[i];
                    assert(s[fi] == s.filter(pred)[i]);
                    assert(s[fi].file != s[s.len() - 1].file);
                }
            }
        }
    }
}

/// An upsert on an unsorted duplicate-free list: replaces in place or
/// appends; reports whether it appended.
fn upsert_unsorted(files: &mut Vec<FileData>, u: FileData) -> (pushed: bool)
    requires
        unique_files(views(old(files)@)),
    ensures
        views(final(files)@) == upsert_flat(views(old(files)@), u@),
        unique_files(views(final(files)@)),
        pushed == !has_file(views(old(files)@), u@.file),
{
    let ghost m = views(old(files)@);
    match find_file(files, u.file.as_str()) {
        Some(i) => {
            let _ = files.remove(i);
            files.insert(i, u);
            proof {
                assert forall|k: int| 0 <= k < m.len() && k != i implies m[k].file != u@.file by {
                    if m[k].file == u@.file {
                        if k < i as int {
                            assert(m[k].file != m[i as int].file);
                        } else {
                            assert(m[i as int].file != m[k].file);
                        }
                    }
                }
                assert(views(files@) =~= replace_entry(m, u@));
                assert forall|a: int, b: int|
                    0 <= a < b < views(files@).len() implies (#[trigger] views(files@)[a]).file != (
                #[trigger] views(files@)[b]).file by {
                    assert(replace_entry(m, u@)[a].file == m[a].file || replace_entry(
                        m,
                        u@,
                    )[a].file == u@.file);
                }
            }
            false
        },
        None => {
            let ghost before = files@;
            files.push(u);
            proof {
                assert(files@ == before.push(u));
                assert(views(before).len() == before.len());
                assert(views(files@) =~= m.push(u@));
                assert forall|a: int, b: int|
                    0 <= a < b < views(files@).len() implies (#[trigger] views(files@)[a]).file != (
                #[trigger] views(files@)[b]).file by {
                    if b == views(files@).len() - 1 {
                        assert(views(files@)[a] == m[a]);
                        assert(!has_file(m, u@.file));
                    }
                }
            }
            true
        },
    }
}

/// Finds the first project entry bearing the name `pr`.
pub(crate) fn find_entry(pmap: &Vec<ProjectEntry>, pr: &str) -> (r: Option<usize>)
    ensures
        match r {
            Some(k) => k < pmap@.len() && proj_idx(pnames(pviews(pmap@)), pr@) == k as int,
            None => proj_idx(pnames(pviews(pmap@)), pr@) == -1,
        },
{
    let ghost names = pnames(pviews(pmap@));
    let mut i: usize = 0;
    while i < pmap.len()
        invariant
            i <= pmap@.len(),
            names == pnames(pviews(pmap@)),
            names.len() == pmap@.len(),
            forall|j: int| 0 <= j < i ==> names[j] != pr@,
        decreases pmap@.len() - i,
    {
        proof {
            assert(pviews(pmap@)[i as int] == pmap@[i as int]@);
            assert(names[i as int] == pviews(pmap@)[i as int].project);
        }
        if str_eq(pmap[i].project.as_str(), pr) {
            proof {
                lemma_proj_idx_at(names, pr@, i as int);
            }
            return Some(i);
        }
        i = i + 1;
    }
    proof {
        lemma_proj_idx_at(names, pr@, names.len() as int);
    }
    None
}

} // verus!

verus! {

proof fn lemma_apply_updates_snoc(
    ms: Seq<MappingView>,
    pm: Seq<ProjectEntryView>,
    g: Seq<FileView>,
    us: Seq<FileView>,
    u: FileView,
)
    ensures
        apply_updates_pg(ms, pm, g, us.push(u)).0 == step_update(
            ms,
            apply_updates_pg(ms, pm, g, us).0,
            apply_updates_pg(ms, pm, g, us).1,
            u,
        ).0,
        apply_updates_pg(ms, pm, g, us.push(u)).1 == step_update(
            ms,
            apply_updates_pg(ms, pm, g, us).0,
            apply_updates_pg(ms, pm, g, us).1,
            u,
        ).1,
    decreases us.len(),
{
    if us.len() == 0 {
        let s = step_update(ms, pm, g, u);
        assert(us.push(u)[0] == u);
        assert(us.push(u).skip(1) =~= Seq::<FileView>::empty());
        assert(apply_updates_pg(ms, s.0, s.1, Seq::<FileView>::empty()).0 == s.0);
        assert(apply_updates_pg(ms, s.0, s.1, Seq::<FileView>::empty()).1 == s.1);
        assert(apply_updates_pg(ms, pm, g, us).0 == pm);
        assert(apply_updates_pg(ms, pm, g, us).1 == g);
    } else {
        assert(us.push(u)[0] == us[0]);
        assert(us.push(u).skip(1) =~= us.skip(1).push(u));
        let s = step_update(ms, pm, g, us[0]);
        lemma_apply_updates_snoc(ms, s.0, s.1, us.skip(1), u);
        assert(apply_updates_pg(ms, pm, g, us.push(u)).0 == apply_updates_pg(
            ms,
            s.0,
            s.1,
            us.skip(1).push(u),
        ).0);
        assert(apply_updates_pg(ms, pm, g, us.push(u)).1 == apply_updates_pg(
            ms,
            s.0,
            s.1,
            us.skip(1).push(u),
        ).1);
        assert(apply_updates_pg(ms, pm, g, us).0 == apply_updates_pg(ms, s.0, s.1, us.skip(1)).0);
        assert(apply_updates_pg(ms, pm, g, us).1 == apply_updates_pg(ms, s.0, s.1, us.skip(1)).1);
    }
}

proof fn lemma_apply_deletes_snoc(
    ms: Seq<MappingView>,
    pm: Seq<ProjectEntryView>,
    g: Seq<FileView>,
    ds: Seq<Seq<char>>,
    d: Seq<char>,
)
    ensures
        apply_deletes_pg(ms, pm, g, ds.push(d)).0 == step_delete(
            ms,
            apply_deletes_pg(ms, pm, g, ds).0,
            apply_deletes_pg(ms, pm, g, ds).1,
            d,
        ).0,
        apply_deletes_pg(ms, pm, g, ds.push(d)).1 == step_delete(
            ms,
            apply_deletes_pg(ms, pm, g, ds).0,
            apply_deletes_pg(ms, pm, g, ds).1,
            d,
        ).1,
    decreases ds.len(),
{
    if ds.len() == 0 {
        let s = step_delete(ms, pm, g, d);
        assert(ds.push(d)[0] == d);
        assert(ds.push(d).skip(1) =~= Seq::<Seq<char>>::empty());
        assert(apply_deletes_pg(ms, s.0, s.1, Seq::<Seq<char>>::empty()).0 == s.0);
        assert(apply_deletes_pg(ms, s.0, s.1, Seq::<Seq<char>>::empty()).1 == s.1);
        assert(apply_deletes_pg(ms, pm, g, ds).0 == pm);
        assert(apply_deletes_pg(ms, pm, g, ds).1 == g);
    } else {
        assert(ds.push(d)[0] == ds[0]);
        assert(ds.push(d).skip(1) =~= ds.skip(1).push(d));
        let s = step_delete(ms, pm, g, ds[0]);
        lemma_apply_deletes_snoc(ms, s.0, s.1, ds.skip(1), d);
        assert(apply_deletes_pg(ms, pm, g, ds.push(d)).0 == apply_deletes_pg(
            ms,
            s.0,
            s.1,
            ds.skip(1).push(d),
        ).0);
        assert(apply_deletes_pg(ms, pm, g, ds.push(d)).1 == apply_deletes_pg(
            ms,
            s.0,
            s.1,
            ds.skip(1).push(d),
        ).1);
        assert(apply_deletes_pg(ms, pm, g, ds).0 == apply_deletes_pg(ms, s.0, s.1, ds.skip(1)).0);
        assert(apply_deletes_pg(ms, pm, g, ds).1 == apply_deletes_pg(ms, s.0, s.1, ds.skip(1)).1);
    }
}

proof fn lemma_touched_snoc(
    ms: Seq<MappingView>,
    pm: Seq<ProjectEntryView>,
    g: Seq<FileView>,
    us: Seq<FileView>,
    u: FileView,
)
    ensures
        touched_updates(ms, pm, g, us.push(u)) == {
            let a = apply_updates_pg(ms, pm, g, us);
            let k = route_of(ms, pnames(a.0), u.file);
            if k != -1 && !has_file(a.0[k].files, u.file) {
                touched_updates(ms, pm, g, us).insert(k)
            } else {
                touched_updates(ms, pm, g, us)
            }
        },
    decreases us.len(),
{
    if us.len() == 0 {
        let s = step_update(ms, pm, g, u);
        assert(us.push(u)[0] == u);
        assert(us.push(u).skip(1) =~= Seq::<FileView>::empty());
        assert(touched_updates(ms, s.0, s.1, Seq::<FileView>::empty()) =~= Set::<int>::empty());
        assert(touched_updates(ms, pm, g, us) =~= Set::<int>::empty());
        assert(apply_updates_pg(ms, pm, g, us).0 == pm);
        if route_of(ms, pnames(pm), u.file) != -1 && !has_file(
            pm[route_of(ms, pnames(pm), u.file)].files,
            u.file,
        ) {
            assert(touched_updates(ms, pm, g, us.push(u)) =~= touched_updates(
                ms,
                pm,
                g,
                us,
            ).insert(route_of(ms, pnames(pm), u.file)));
        } else {
            assert(touched_updates(ms, pm, g, us.push(u)) =~= touched_updates(ms, pm, g, us));
        }
    } else {
        assert(us.push(u)[0] == us[0]);
        assert(us.push(u).skip(1) =~= us.skip(1).push(u));
        let s = step_update(ms, pm, g, us[0]);
        lemma_touched_snoc(ms, s.0, s.1, us.skip(1), u);
        lemma_apply_updates_snoc(ms, s.0, s.1, us.skip(1), u);
        assert(apply_updates_pg(ms, pm, g, us).0 == apply_updates_pg(ms, s.0, s.1, us.skip(1)).0);
        assert(apply_updates_pg(ms, pm, g, us).1 == apply_updates_pg(ms, s.0, s.1, us.skip(1)).1);
        assert(touched_updates(ms, pm, g, us.push(u)) == {
            let k0 = route_of(ms, pnames(pm), us[0].file);
            if k0 != -1 && !has_file(pm[k0].files, us[0].file) {
                touched_updates(ms, s.0, s.1, us.skip(1).push(u)).insert(k0)
            } else {
                touched_updates(ms, s.0, s.1, us.skip(1).push(u))
            }
        });
        let a = apply_updates_pg(ms, pm, g, us);
        let k = route_of(ms, pnames(a.0), u.file);
        if k != -1 && !has_file(a.0[k].files, u.file) {
            let k0 = route_of(ms, pnames(pm), us[0].file);
            if k0 != -1 && !has_file(pm[k0].files, us[0].file) {
                assert(touched_updates(ms, pm, g, us.push(u)) =~= touched_updates(
                    ms,
                    pm,
                    g,
                    us,
                ).insert(k));
            }
        } else {
            let k0 = route_of(ms, pnames(pm), us[0].file);
            if k0 != -1 && !has_file(pm[k0].files, us[0].file) {
                assert(touched_updates(ms, pm, g, us.push(u)) =~= touched_updates(ms, pm, g, us));
            }
        }
    }
}

/// Removes the path `p` from every project list but the one at `keep`.
fn scrub_project_lists(pmap: &mut Vec<ProjectEntry>, keep: Option<usize>, p: &str)
    ensures
        pviews(final(pmap)@) == scrub_others(
            pviews(old(pmap)@),
            match keep {
                Some(k) => k as int,
                None => -1,
            },
            p@,
        ),
{
    let ghost pm_old = pviews(old(pmap)@);
    let ghost keepi: int = match keep {
        Some(k) => k as int,
        None => -1,
    };
    let mut kk: usize = 0;
    while kk < pmap.len()
        invariant
            kk <= pmap@.len(),
            pmap@.len() == pm_old.len(),
            pm_old == pviews(old(pmap)@),
            keepi == (match keep {
                Some(k) => k as int,
                None => -1,
            }),
            forall|q: int|
                0 <= q < kk ==> #[trigger] pviews(pmap@)[q] == scrub_others(pm_old, keepi, p@)[q],
            forall|q: int| kk <= q < pmap@.len() ==> #[trigger] pviews(pmap@)[q] == pm_old[q],
        decreases pmap@.len() - kk,
    {
        let ghost pm_cur = pviews(pmap@);
        let is_keep = match keep {
            Some(k) => k == kk,
            None => false,
        };
        if !is_keep {
            proof {
                assert(pviews(pmap@)[kk as int] == pmap@[kk as int]@);
            }
            let mut entry = pmap.remove(kk);
            let filtered = remove_exact(&entry.files, p);
            entry.files = filtered;
            let ghost new_ev = entry@;
            pmap.insert(kk, entry);
            proof {
                assert(new_ev.project == pm_old[kk as int].project);
                assert(new_ev.files == pm_old[kk as int].files.filter(
                    |x: FileView| x.file != p@,
                ));
                assert(pviews(pmap@) =~= pm_cur.update(kk as int, new_ev));
                assert(pviews(pmap@)[kk as int] == scrub_others(pm_old, keepi, p@)[kk as int]);
            }
        } else {
            proof {
                assert(pviews(pmap@)[kk as int] == scrub_others(pm_old, keepi, p@)[kk as int]);
            }
        }
        kk = kk + 1;
    }
    proof {
        assert(pviews(pmap@) =~= scrub_others(pm_old, keepi, p@));
    }
}

/// An upsert on a duplicate-free list stays duplicate-free.
proof fn lemma_upsert_flat_unique(m: Seq<FileView>, u: FileView)
    requires
        unique_files(m),
    ensures
        unique_files(upsert_flat(m, u)),
{
    let r = upsert_flat(m, u);
    if has_file(m, u.file) {
        assert forall|a: int, b: int|
            0 <= a < b < r.len() implies (#[trigger] r[a]).file != (#[trigger] r[b]).file by {
            assert(r[a].file == m[a].file);
            assert(r[b].file == m[b].file);
        }
    } else {
        assert forall|a: int, b: int|
            0 <= a < b < r.len() implies (#[trigger] r[a]).file != (#[trigger] r[b]).file by {
            if b == r.len() - 1 {
                assert(r[a] == m[a]);
                assert(!has_file(m, u.file));
            }
        }
    }
}

/// Each entry of an upsert result is the upserted entry or one of the
/// old entries.
proof fn lemma_upsert_flat_elems(m: Seq<FileView>, u: FileView)
    ensures
        forall|x: int|
            0 <= x < upsert_flat(m, u).len() ==> (#[trigger] upsert_flat(m, u)[x]).file == u.file
                || exists|i: int| 0 <= i < m.len() && m[i] == upsert_flat(m, u)[x],
{
    let r = upsert_flat(m, u);
    if has_file(m, u.file) {
        assert forall|x: int|
            0 <= x < r.len() implies (#[trigger] r[x]).file == u.file || exists|i: int|
            0 <= i < m.len() && m[i] == r[x] by {
            if m[x].file != u.file {
                assert(m[x] == r[x]);
            }
        }
    } else {
        assert forall|x: int|
            0 <= x < r.len() implies (#[trigger] r[x]).file == u.file || exists|i: int|
            0 <= i < m.len() && m[i] == r[x] by {
            if x < m.len() {
                assert(m[x] == r[x]);
            }
        }
    }
}

broadcast use vstd::seq_lib::group_filter_ensures;

/// One update step keeps each path in at most one list.
proof fn lemma_step_update_amo(
    ms: Seq<MappingView>,
    pm: Seq<ProjectEntryView>,
    g: Seq<FileView>,
    u: FileView,
)
    requires
        at_most_once(pm, g),
    ensures
        at_most_once(step_update(ms, pm, g, u).0, step_update(ms, pm, g, u).1),
{
    let p = u.file;
    let k = route_of(ms, pnames(pm), p);
    if k != -1 {
        match owner_of(ms, p) {
            Option::Some(pr) => {
                lemma_proj_idx_range(pnames(pm), pr);
            },
            Option::None => {},
        }
        assert(pnames(pm).len() == pm.len());
        assert(0 <= k < pm.len());
    }
    let npm = step_update(ms, pm, g, u).0;
    let ng = step_update(ms, pm, g, u).1;
    let pred = |x: FileView| x.file != p;
    assert(npm.len() == pm.len());
    // Each entry of a new list is the upserted entry, or an old entry of
    // the same list; scrubbed lists hold no entry at the updated path.
    assert forall|kk: int, x: int|
        0 <= kk < npm.len() && 0 <= x < npm[kk].files.len() implies ((#[trigger] npm[kk].files[x]).file
        == p && kk == k) || exists|i: int|
        0 <= i < pm[kk].files.len() && pm[kk].files[i] == npm[kk].files[x] && (kk != k
            ==> npm[kk].files[x].file != p) by {
        if kk == k {
            lemma_upsert_flat_elems(pm[k].files, u);
            assert(npm[kk].files == upsert_flat(pm[k].files, u));
        } else {
            assert(npm[kk].files == pm[kk].files.filter(pred));
            lemma_filter_subset_pub(pm[kk].files, pred);
            let i = choose|i: int|
                0 <= i < pm[kk].files.len() && pm[kk].files[i] == npm[kk].files[x];
            assert(pred(npm[kk].files[x]));
        }
    }
    // Per-list uniqueness.
    assert forall|kk: int| 0 <= kk < npm.len() implies unique_files(
        (#[trigger] npm[kk]).files,
    ) by {
        if kk == k {
            lemma_upsert_flat_unique(pm[k].files, u);
        } else {
            lemma_filter_unique(pm[kk].files, pred);
        }
    }
    if k == -1 {
        lemma_upsert_flat_unique(g, u);
        lemma_upsert_flat_elems(g, u);
        assert(ng == upsert_flat(g, u));
    } else {
        lemma_filter_unique(g, pred);
        lemma_filter_subset_pub(g, pred);
        assert(ng == g.filter(pred));
    }
    // Distinct project lists stay disjoint.
    assert forall|k1: int, k2: int, i: int, j: int|
        0 <= k1 < k2 < npm.len() && 0 <= i < npm[k1].files.len() && 0 <= j
            < npm[k2].files.len() implies (#[trigger] npm[k1].files[i]).file != (
    #[trigger] npm[k2].files[j]).file by {
        let e1 = npm[k1].files[i];
        let e2 = npm[k2].files[j];
        if e1.file == p && k1 == k {
            assert(e2.file != p);
        } else if e2.file == p && k2 == k {
            assert(e1.file != p);
        } else {
            let i0 = choose|i0: int| 0 <= i0 < pm[k1].files.len() && pm[k1].files[i0] == e1;
            let j0 = choose|j0: int| 0 <= j0 < pm[k2].files.len() && pm[k2].files[j0] == e2;
            assert(pm[k1].files[i0].file != pm[k2].files[j0].file);
        }
    }
    // Project lists stay disjoint from the global list.
    assert forall|kk: int, i: int, j: int|
        0 <= kk < npm.len() && 0 <= i < npm[kk].files.len() && 0 <= j < ng.len() implies (
    #[trigger] npm[kk].files[i]).file != (#[trigger] ng[j]).file by {
        let e1 = npm[kk].files[i];
        let e2 = ng[j];
        if k == -1 {
            assert(e1.file != p);
            if e2.file != p {
                let i0 = choose|i0: int| 0 <= i0 < pm[kk].files.len() && pm[kk].files[i0] == e1;
                let j0 = choose|j0: int| 0 <= j0 < g.len() && g[j0] == e2;
                assert(pm[kk].files[i0].file != g[j0].file);
            }
        } else {
            let j0 = choose|j0: int| 0 <= j0 < g.len() && g[j0] == e2;
            assert(pred(e2));
            if e1.file == p && kk == k {
            } else {
                let i0 = choose|i0: int| 0 <= i0 < pm[kk].files.len() && pm[kk].files[i0] == e1;
                assert(pm[kk].files[i0].file != g[j0].file);
            }
        }
    }
}

/// One deletion step only removes entries, so it keeps each path in at
/// most one list.
#[verifier::rlimit(60)]
proof fn lemma_step_delete_amo(
    ms: Seq<MappingView>,
    pm: Seq<ProjectEntryView>,
    g: Seq<FileView>,
    d: Seq<char>,
)
    requires
        at_most_once(pm, g),
    ensures
        at_most_once(step_delete(ms, pm, g, d).0, step_delete(ms, pm, g, d).1),
{
    let k = route_of(ms, pnames(pm), d);
    if k != -1 {
        match owner_of(ms, d) {
            Option::Some(pr) => {
                lemma_proj_idx_range(pnames(pm), pr);
            },
            Option::None => {},
        }
        assert(pnames(pm).len() == pm.len());
        assert(0 <= k < pm.len());
    }
    let npm = step_delete(ms, pm, g, d).0;
    let ng = step_delete(ms, pm, g, d).1;
    let pred = |x: FileView| x.file != d;
    assert forall|kk: int, x: int|
        0 <= kk < npm.len() && 0 <= x < npm[kk].files.len() implies exists|i: int|
        0 <= i < pm[kk].files.len() && pm[kk].files[i] == #[trigger] npm[kk].files[x] by {
        if kk == k {
            assert(npm[kk].files == pm[kk].files.filter(pred));
            lemma_filter_subset_pub(pm[kk].files, pred);
            let i0 = choose|i0: int|
                0 <= i0 < pm[kk].files.len() && pm[kk].files[i0] == npm[kk].files[x];
            assert(0 <= i0 < pm[kk].files.len() && pm[kk].files[i0] == npm[kk].files[x]);
        } else {
            assert(npm[kk].files == pm[kk].files);
            assert(pm[kk].files[x] == npm[kk].files[x]);
        }
    }
    lemma_filter_subset_pub(g, pred);
    lemma_filter_unique(g, pred);
    assert forall|kk: int| 0 <= kk < npm.len() implies unique_files(
        (#[trigger] npm[kk]).files,
    ) by {
        if kk == k {
            lemma_filter_unique(pm[kk].files, pred);
        }
    }
    assert forall|k1: int, k2: int, i: int, j: int|
        0 <= k1 < k2 < npm.len() && 0 <= i < npm[k1].files.len() && 0 <= j
            < npm[k2].files.len() implies (#[trigger] npm[k1].files[i]).file != (
    #[trigger] npm[k2].files[j]).file by {
        let i0 = choose|i0: int|
            0 <= i0 < pm[k1].files.len() && pm[k1].files[i0] == npm[k1].files[i];
        let j0 = choose|j0: int|
            0 <= j0 < pm[k2].files.len() && pm[k2].files[j0] == npm[k2].files[j];
        assert(pm[k1].files[i0].file != pm[k2].files[j0].file);
    }
    assert forall|kk: int, i: int, j: int|
        0 <= kk < npm.len() && 0 <= i < npm[kk].files.len() && 0 <= j < ng.len() implies (
    #[trigger] npm[kk].files[i]).file != (#[trigger] ng[j]).file by {
        let i0 = choose|i0: int|
            0 <= i0 < pm[kk].files.len() && pm[kk].files[i0] == npm[kk].files[i];
        let j0 = choose|j0: int| 0 <= j0 < g.len() && g[j0] == ng[j];
        assert(pm[kk].files[i0].file != g[j0].file);
    }
}

proof fn lemma_apply_updates_amo(
    ms: Seq<MappingView>,
    pm: Seq<ProjectEntryView>,
    g: Seq<FileView>,
    us: Seq<FileView>,
)
    requires
        at_most_once(pm, g),
    ensures
        at_most_once(apply_updates_pg(ms, pm, g, us).0, apply_updates_pg(ms, pm, g, us).1),
    decreases us.len(),
{
    if us.len() > 0 {
        lemma_step_update_amo(ms, pm, g, us[0]);
        let s = step_update(ms, pm, g, us[0]);
        lemma_apply_updates_amo(ms, s.0, s.1, us.skip(1));
    }
}

proof fn lemma_apply_deletes_amo(
    ms: Seq<MappingView>,
    pm: Seq<ProjectEntryView>,
    g: Seq<FileView>,
    ds: Seq<Seq<char>>,
)
    requires
        at_most_once(pm, g),
    ensures
        at_most_once(apply_deletes_pg(ms, pm, g, ds).0, apply_deletes_pg(ms, pm, g, ds).1),
    decreases ds.len(),
{
    if ds.len() > 0 {
        lemma_step_delete_amo(ms, pm, g, ds[0]);
        let s = step_delete(ms, pm, g, ds[0]);
        lemma_apply_deletes_amo(ms, s.0, s.1, ds.skip(1));
    }
}

/// Filtering a path out of a list that lacks it changes nothing.
proof fn lemma_filter_id(m: Seq<FileView>, p: Seq<char>)
    requires
        !has_file(m, p),
    ensures
        m.filter(|x: FileView| x.file != p) == m,
    decreases m.len(),
{
    reveal(Seq::filter);
    if m.len() > 0 {
        let pre = m.drop_last();
        assert(!has_file(pre, p)) by {
            if has_file(pre, p) {
                let i = choose|i: int| 0 <= i < pre.len() && pre[i].file == p;
                assert(m[i].file == p);
            }
        }
        lemma_filter_id(pre, p);
        assert(m[m.len() - 1].file != p);
        assert(m.filter(|x: FileView| x.file != p) =~= m);
    } else {
        assert(m.filter(|x: FileView| x.file != p) =~= m);
    }
}

proof fn lemma_updates_leave_project(
    ms: Seq<MappingView>,
    pm: Seq<ProjectEntryView>,
    g: Seq<FileView>,
    us: Seq<FileView>,
    k: int,
)
    requires
        0 <= k < pm.len(),
        forall|i: int|
            0 <= i < us.len() ==> route_of(ms, pnames(pm), (#[trigger] us[i]).file) != k,
        forall|i: int| 0 <= i < us.len() ==> !has_file(pm[k].files, (#[trigger] us[i]).file),
    ensures
        apply_updates_pg(ms, pm, g, us).0.len() == pm.len(),
        apply_updates_pg(ms, pm, g, us).0[k] == pm[k],
        pnames(apply_updates_pg(ms, pm, g, us).0) == pnames(pm),
    decreases us.len(),
{
    if us.len() == 0 {
        assert(pnames(apply_updates_pg(ms, pm, g, us).0) =~= pnames(pm));
    } else {
        let u = us[0];
        let r0 = route_of(ms, pnames(pm), u.file);
        if r0 != -1 {
            match owner_of(ms, u.file) {
                Option::Some(pr) => {
                    lemma_proj_idx_range(pnames(pm), pr);
                },
                Option::None => {},
            }
            assert(pnames(pm).len() == pm.len());
            assert(0 <= r0 < pm.len());
        }
        let s = step_update(ms, pm, g, u);
        assert(s.0.len() == pm.len());
        // The names do not move, and the list at `k` is only filtered by
        // a path it lacks.
        assert(pnames(s.0) =~= pnames(pm));
        assert(s.0[k].files == pm[k].files.filter(|x: FileView| x.file != u.file));
        lemma_filter_id(pm[k].files, u.file);
        assert(s.0[k] =~= pm[k]);
        assert(forall|i: int| 0 <= i < us.skip(1).len() ==> us.skip(1)[i] == us[i + 1]);
        assert forall|i: int|
            0 <= i < us.skip(1).len() implies route_of(
            ms,
            pnames(s.0),
            (#[trigger] us.skip(1)[i]).file,
        ) != k by {
            assert(us.skip(1)[i] == us[i + 1]);
            assert(route_of(ms, pnames(pm), us[i + 1].file) != k);
        }
        assert forall|i: int|
            0 <= i < us.skip(1).len() implies !has_file(
            s.0[k].files,
            (#[trigger] us.skip(1)[i]).file,
        ) by {
            assert(us.skip(1)[i] == us[i + 1]);
        }
        lemma_updates_leave_project(ms, s.0, s.1, us.skip(1), k);
    }
}

proof fn lemma_deletes_leave_project(
    ms: Seq<MappingView>,
    pm: Seq<ProjectEntryView>,
    g: Seq<FileView>,
    ds: Seq<Seq<char>>,
    k: int,
)
    requires
        0 <= k < pm.len(),
        forall|j: int| 0 <= j < ds.len() ==> route_of(ms, pnames(pm), #[trigger] ds[j]) != k,
    ensures
        apply_deletes_pg(ms, pm, g, ds).0.len() == pm.len(),
        apply_deletes_pg(ms, pm, g, ds).0[k] == pm[k],
        pnames(apply_deletes_pg(ms, pm, g, ds).0) == pnames(pm),
    decreases ds.len(),
{
    if ds.len() == 0 {
        assert(pnames(apply_deletes_pg(ms, pm, g, ds).0) =~= pnames(pm));
    } else {
        let d = ds[0];
        let r0 = route_of(ms, pnames(pm), d);
        if r0 != -1 {
            match owner_of(ms, d) {
                Option::Some(pr) => {
                    lemma_proj_idx_range(pnames(pm), pr);
                },
                Option::None => {},
            }
            assert(pnames(pm).len() == pm.len());
            assert(0 <= r0 < pm.len());
        }
        let s = step_delete(ms, pm, g, d);
        assert(s.0.len() == pm.len());
        assert(pnames(s.0) =~= pnames(pm));
        assert(s.0[k] == pm[k]);
        assert(forall|j: int| 0 <= j < ds.skip(1).len() ==> ds.skip(1)[j] == ds[j + 1]);
        assert forall|j: int|
            0 <= j < ds.skip(1).len() implies route_of(ms, pnames(s.0), #[trigger] ds.skip(1)[j])
            != k by {
            assert(ds.skip(1)[j] == ds[j + 1]);
            assert(route_of(ms, pnames(pm), ds[j + 1]) != k);
        }
        lemma_deletes_leave_project(ms, s.0, s.1, ds.skip(1), k);
    }
}

/// A project that no updated path routes to or occurs in, and no deleted
/// path routes to, keeps its list verbatim through the whole patch.
pub proof fn lemma_patched_untouched(
    ms: Seq<MappingView>,
    pm: Seq<ProjectEntryView>,
    g: Seq<FileView>,
    us: Seq<FileView>,
    ds: Seq<Seq<char>>,
    k: int,
)
    requires
        0 <= k < pm.len(),
        forall|i: int|
            0 <= i < us.len() ==> route_of(ms, pnames(pm), (#[trigger] us[i]).file) != k,
        forall|i: int| 0 <= i < us.len() ==> !has_file(pm[k].files, (#[trigger] us[i]).file),
        forall|j: int| 0 <= j < ds.len() ==> route_of(ms, pnames(pm), #[trigger] ds[j]) != k,
    ensures
        patched_state(ms, pm, g, us, ds).0[k] == pm[k],
{
    lemma_updates_leave_project(ms, pm, g, us, k);
    let up = apply_updates_pg(ms, pm, g, us);
    assert forall|j: int|
        0 <= j < ds.len() implies route_of(ms, pnames(up.0), #[trigger] ds[j]) != k by {
        assert(route_of(ms, pnames(pm), ds[j]) != k);
    }
    lemma_deletes_leave_project(ms, up.0, up.1, ds, k);
}

/// The per-project lists and the global list after the whole patch.
pub struct FileMap {
    pub project_file_map: Vec<ProjectEntry>,
    pub non_project_files: Vec<FileData>,
}

/// Reference copies of the patched lists handed back beside the map.
pub struct NxWorkspaceFilesExternals {
    pub project_files: Vec<ProjectEntry>,
    pub global_files: Vec<FileData>,
    pub all_workspace_files: Vec<FileData>,
}

/// What the patcher returns: the new file map, and reference copies.
pub struct UpdatedWorkspaceFiles {
    pub file_map: FileMap,
    pub external_references: NxWorkspaceFilesExternals,
}

/// Routes every updated file to its owning project's list or the global
/// list and scrubs it from every other list, removes every deleted path
/// from its owner and the global list, and re-sorts each project list
/// that gained a file: afterwards each path sits in at most one list.
pub fn update_project_files(
    project_root_mappings: &Vec<ProjectRootMapping>,
    project_files: &Vec<ProjectEntry>,
    global_files: &Vec<FileData>,
    updated_files: &Vec<FileData>,
    deleted_files: &Vec<String>,
    all_workspace_files: Vec<FileData>,
) -> (r: UpdatedWorkspaceFiles)
    requires
        at_most_once(pviews(project_files@), views(global_files@)),
    ensures
        ({
            let st = patched_state(
                mapping_views(project_root_mappings@),
                pviews(project_files@),
                views(global_files@),
                views(updated_files@),
                deleted_files@.map_values(|d: String| d@),
            );
            let ts = touched_updates(
                mapping_views(project_root_mappings@),
                pviews(project_files@),
                views(global_files@),
                views(updated_files@),
            );
            &&& views(r.file_map.non_project_files@) == st.1
            &&& pviews(r.file_map.project_file_map@).len() == st.0.len()
            &&& st.0.len() == project_files@.len()
            &&& at_most_once(
                pviews(r.file_map.project_file_map@),
                views(r.file_map.non_project_files@),
            )
            &&& forall|k: int|
                0 <= k < st.0.len() ==> {
                    let fin = #[trigger] pviews(r.file_map.project_file_map@)[k];
                    &&& fin.project == st.0[k].project
                    &&& fin.files.len() == st.0[k].files.len()
                    &&& forall|g: FileView| has_entry(fin.files, g) <==> has_entry(st.0[k].files, g)
                    &&& unique_files(fin.files)
                }
            &&& forall|k: int|
                0 <= k < st.0.len() && ts.contains(k) ==> strict_sorted(
                    (#[trigger] pviews(r.file_map.project_file_map@)[k]).files,
                )
            &&& forall|k: int|
                0 <= k < st.0.len() && !ts.contains(k) ==> #[trigger] pviews(
                    r.file_map.project_file_map@,
                )[k] == st.0[k]
            &&& pviews(r.external_references.project_files@) == pviews(
                r.file_map.project_file_map@,
            )
            &&& views(r.external_references.global_files@) == views(r.file_map.non_project_files@)
            &&& views(r.external_references.all_workspace_files@) == views(all_workspace_files@)
        }),
{
    let ghost ms = mapping_views(project_root_mappings@);
    let ghost pm0 = pviews(project_files@);
    let ghost g0 = views(global_files@);
    let ghost us = views(updated_files@);
    let ghost ds = deleted_files@.map_values(|d: String| d@);

    let mut pmap = clone_project_entries(project_files);
    let mut global = clone_files(global_files);
    let mut touched: Vec<bool> = Vec::new();
    let mut t: usize = 0;
    while t < pmap.len()
        invariant
            touched@.len() == t,
            t <= pmap@.len(),
            forall|q: int| 0 <= q < t ==> touched@[q] == false,
        decreases pmap@.len() - t,
    {
        touched.push(false);
        t = t + 1;
    }

    // Route the updated files; each routed path is scrubbed from every
    // list but its destination.
    let mut i: usize = 0;
    proof {
        assert(us.take(0) =~= Seq::<FileView>::empty());
        assert(touched_updates(ms, pm0, g0, Seq::<FileView>::empty()) =~= Set::<int>::empty());
    }
    while i < updated_files.len()
        invariant
            i <= updated_files@.len(),
            us == views(updated_files@),
            ms == mapping_views(project_root_mappings@),
            pm0 == pviews(project_files@),
            g0 == views(global_files@),
            pviews(pmap@) == apply_updates_pg(ms, pm0, g0, us.take(i as int)).0,
            views(global@) == apply_updates_pg(ms, pm0, g0, us.take(i as int)).1,
            pmap@.len() == pm0.len(),
            touched@.len() == pmap@.len(),
            forall|q: int|
                0 <= q < touched@.len() ==> touched@[q] == touched_updates(
                    ms,
                    pm0,
                    g0,
                    us.take(i as int),
                ).contains(q),
            forall|k: int|
                0 <= k < pmap@.len() ==> unique_files((#[trigger] pviews(pmap@)[k]).files),
            unique_files(views(global@)),
        decreases updated_files@.len() - i,
    {
        let ghost pm_cur = pviews(pmap@);
        let ghost g_cur = views(global@);
        let ghost tsp = touched_updates(ms, pm0, g0, us.take(i as int));
        proof {
            assert(us[i as int] == updated_files@[i as int]@);
            assert(us.take(i + 1) =~= us.take(i as int).push(us[i as int]));
            lemma_apply_updates_snoc(ms, pm0, g0, us.take(i as int), us[i as int]);
            lemma_touched_snoc(ms, pm0, g0, us.take(i as int), us[i as int]);
        }
        let u = clone_file_data(&updated_files[i]);
        let owner = find_project_for_path(u.file.as_str(), project_root_mappings);
        let route = match &owner {
            Some(pr) => find_entry(&pmap, pr.as_str()),
            None => None,
        };
        proof {
            match owner {
                Some(pr) => {
                    assert(owner_of(ms, u@.file) == Some(pr@));
                },
                None => {
                    assert(owner_of(ms, u@.file) is None);
                },
            }
        }
        match route {
            Some(k) => {
                proof {
                    assert(route_of(ms, pnames(pm_cur), us[i as int].file) == k as int);
                }
                scrub_project_lists(&mut pmap, Some(k), updated_files[i].file.as_str());
                let ghost pm_scrubbed = pviews(pmap@);
                let filtered_global = remove_exact(&global, updated_files[i].file.as_str());
                global = filtered_global;
                proof {
                    assert(pm_scrubbed == scrub_others(pm_cur, k as int, us[i as int].file));
                    assert(pm_cur.len() == pm_scrubbed.len());
                    assert(pm_scrubbed.len() == pmap@.len());
                    assert(pm_scrubbed[k as int] == pm_cur[k as int]);
                    assert(pviews(pmap@)[k as int] == pmap@[k as int]@);
                    assert(views(global@) == g_cur.filter(
                        |x: FileView| x.file != us[i as int].file,
                    ));
                }
                let mut entry = pmap.remove(k);
                let pushed = upsert_unsorted(&mut entry.files, u);
                let ghost new_ev = entry@;
                pmap.insert(k, entry);
                proof {
                    assert(new_ev.project == pm_cur[k as int].project);
                    assert(new_ev.files == upsert_flat(pm_cur[k as int].files, us[i as int]));
                    assert(pviews(pmap@) =~= pm_scrubbed.update(k as int, new_ev));
                    assert(pviews(pmap@) == apply_updates_pg(ms, pm0, g0, us.take(i + 1)).0);
                    assert(views(global@) == apply_updates_pg(ms, pm0, g0, us.take(i + 1)).1);
                    assert forall|kk: int|
                        0 <= kk < pmap@.len() implies unique_files(
                        (#[trigger] pviews(pmap@)[kk]).files,
                    ) by {
                        if kk != k as int {
                            assert(pviews(pmap@)[kk] == pm_scrubbed[kk]);
                            assert(pm_scrubbed[kk].files == pm_cur[kk].files.filter(
                                |x: FileView| x.file != us[i as int].file,
                            ));
                            lemma_filter_unique(
                                pm_cur[kk].files,
                                |x: FileView| x.file != us[i as int].file,
                            );
                        }
                    }
                    lemma_filter_unique(g_cur, |x: FileView| x.file != us[i as int].file);
                }
                let ghost tv = touched@;
                if pushed {
                    if k < touched.len() {
                        let _ = touched.remove(k);
                        touched.insert(k, true);
                    }
                }
                proof {
                    let ts2 = touched_updates(ms, pm0, g0, us.take(i + 1));
                    if pushed {
                        assert(ts2 == tsp.insert(k as int));
                        assert(touched@ =~= tv.update(k as int, true));
                        assert forall|q: int|
                            0 <= q < touched@.len() implies touched@[q] == ts2.contains(q) by {
                            if q != k as int {
                                assert(touched@[q] == tv[q]);
                            }
                        }
                    } else {
                        assert(ts2 == tsp);
                    }
                }
            },
            None => {
                proof {
                    assert(route_of(ms, pnames(pm_cur), us[i as int].file) == -1) by {
                        match owner_of(ms, us[i as int].file) {
                            Option::None => {},
                            Option::Some(pr) => {
                                lemma_proj_idx_range(pnames(pm_cur), pr);
                            },
                        }
                    }
                }
                scrub_project_lists(&mut pmap, None, updated_files[i].file.as_str());
                let _ = upsert_unsorted(&mut global, u);
                proof {
                    assert(pviews(pmap@) == scrub_others(pm_cur, -1, us[i as int].file));
                    assert(pviews(pmap@).len() == pmap@.len());
                    assert(scrub_others(pm_cur, -1, us[i as int].file).len() == pm_cur.len());
                    assert(pm_cur.len() == pmap@.len());
                    assert(pviews(pmap@) == apply_updates_pg(ms, pm0, g0, us.take(i + 1)).0);
                    assert(views(global@) == apply_updates_pg(ms, pm0, g0, us.take(i + 1)).1);
                    assert forall|kk: int|
                        0 <= kk < pmap@.len() implies unique_files(
                        (#[trigger] pviews(pmap@)[kk]).files,
                    ) by {
                        assert(pviews(pmap@)[kk].files == pm_cur[kk].files.filter(
                            |x: FileView| x.file != us[i as int].file,
                        ));
                        lemma_filter_unique(
                            pm_cur[kk].files,
                            |x: FileView| x.file != us[i as int].file,
                        );
                    }
                    assert(touched_updates(ms, pm0, g0, us.take(i + 1)) == tsp);
                }
            },
        }
        i = i + 1;
    }
    proof {
        assert(us.take(us.len() as int) =~= us);
    }

    // Apply the deletions.
    let ghost up = apply_updates_pg(ms, pm0, g0, us);
    let mut j: usize = 0;
    proof {
        assert(ds.take(0) =~= Seq::<Seq<char>>::empty());
    }
    while j < deleted_files.len()
        invariant
            j <= deleted_files@.len(),
            ds == deleted_files@.map_values(|d: String| d@),
            ms == mapping_views(project_root_mappings@),
            pm0 == pviews(project_files@),
            g0 == views(global_files@),
            us == views(updated_files@),
            up == apply_updates_pg(ms, pm0, g0, us),
            pviews(pmap@) == apply_deletes_pg(ms, up.0, up.1, ds.take(j as int)).0,
            views(global@) == apply_deletes_pg(ms, up.0, up.1, ds.take(j as int)).1,
            pmap@.len() == up.0.len(),
            touched@.len() == pmap@.len(),
            forall|q: int|
                0 <= q < touched@.len() ==> touched@[q] == touched_updates(
                    ms,
                    pm0,
                    g0,
                    us,
                ).contains(q),
            forall|k: int|
                0 <= k < pmap@.len() ==> unique_files((#[trigger] pviews(pmap@)[k]).files),
            unique_files(views(global@)),
        decreases deleted_files@.len() - j,
    {
        let ghost pm_cur = pviews(pmap@);
        let ghost g_cur = views(global@);
        proof {
            assert(ds[j as int] == deleted_files@[j as int]@);
            assert(ds.take(j + 1) =~= ds.take(j as int).push(ds[j as int]));
            lemma_apply_deletes_snoc(ms, up.0, up.1, ds.take(j as int), ds[j as int]);
        }
        let owner = find_project_for_path(deleted_files[j].as_str(), project_root_mappings);
        let route = match &owner {
            Some(pr) => find_entry(&pmap, pr.as_str()),
            None => None,
        };
        match route {
            Some(k) => {
                proof {
                    match owner {
                        Some(pr) => {
                            assert(owner_of(ms, ds[j as int]) == Some(pr@));
                        },
                        None => {},
                    }
                    assert(route_of(ms, pnames(pm_cur), ds[j as int]) == k as int);
                    assert(pviews(pmap@)[k as int] == pmap@[k as int]@);
                }
                let mut entry = pmap.remove(k);
                let filtered = remove_exact(&entry.files, deleted_files[j].as_str());
                proof {
                    lemma_filter_unique(
                        views(entry.files@),
                        |e: FileView| e.file != ds[j as int],
                    );
                }
                entry.files = filtered;
                let ghost new_ev = entry@;
                pmap.insert(k, entry);
                proof {
                    assert(new_ev.project == pm_cur[k as int].project);
                    assert(new_ev.files == pm_cur[k as int].files.filter(
                        |e: FileView| e.file != ds[j as int],
                    ));
                    assert(pviews(pmap@) =~= pm_cur.update(k as int, new_ev));
                    assert forall|kk: int|
                        0 <= kk < pmap@.len() implies unique_files(
                        (#[trigger] pviews(pmap@)[kk]).files,
                    ) by {
                        if kk != k as int {
                            assert(pviews(pmap@)[kk] == pm_cur[kk]);
                        }
                    }
                }
            },
            None => {
                proof {
                    assert(route_of(ms, pnames(pm_cur), ds[j as int]) == -1) by {
                        match owner_of(ms, ds[j as int]) {
                            Option::None => {},
                            Option::Some(pr) => {
                                lemma_proj_idx_range(pnames(pm_cur), pr);
                            },
                        }
                    }
                }
            },
        }
        let filtered_global = remove_exact(&global, deleted_files[j].as_str());
        proof {
            lemma_filter_unique(views(global@), |e: FileView| e.file != ds[j as int]);
        }
        global = filtered_global;
        proof {
            assert(pviews(pmap@) == apply_deletes_pg(ms, up.0, up.1, ds.take(j + 1)).0);
            assert(views(global@) == apply_deletes_pg(ms, up.0, up.1, ds.take(j + 1)).1);
        }
        j = j + 1;
    }
    proof {
        assert(ds.take(ds.len() as int) =~= ds);
    }

    // Re-sort the project lists that gained files; the others stay as
    // the patch left them.
    let ghost st = patched_state(ms, pm0, g0, us, ds);
    let ghost ts = touched_updates(ms, pm0, g0, us);
    proof {
        lemma_apply_updates_amo(ms, pm0, g0, us);
        lemma_apply_deletes_amo(ms, up.0, up.1, ds);
    }
    let mut k: usize = 0;
    while k < pmap.len()
        invariant
            k <= pmap@.len(),
            pmap@.len() == st.0.len(),
            views(global@) == st.1,
            touched@.len() == pmap@.len(),
            forall|q: int| 0 <= q < touched@.len() ==> touched@[q] == ts.contains(q),
            at_most_once(pviews(pmap@), views(global@)),
            forall|kk: int|
                k <= kk < pmap@.len() ==> #[trigger] pviews(pmap@)[kk] == st.0[kk],
            forall|kk: int|
                0 <= kk < k ==> {
                    let fin = #[trigger] pviews(pmap@)[kk];
                    &&& fin.project == st.0[kk].project
                    &&& fin.files.len() == st.0[kk].files.len()
                    &&& forall|g: FileView|
                        has_entry(fin.files, g) <==> has_entry(st.0[kk].files, g)
                    &&& unique_files(fin.files)
                    &&& ts.contains(kk) ==> strict_sorted(fin.files)
                    &&& !ts.contains(kk) ==> fin == st.0[kk]
                },
        decreases pmap@.len() - k,
    {
        let ghost pm_cur = pviews(pmap@);
        let ghost g_cur = views(global@);
        if touched[k] {
            proof {
                assert(pviews(pmap@)[k as int] == pmap@[k as int]@);
                assert(unique_files(pm_cur[k as int].files));
            }
            let mut entry = pmap.remove(k);
            let ghost old_files = views(entry.files@);
            sort_file_list(&mut entry.files);
            let ghost new_ev = entry@;
            pmap.insert(k, entry);
            proof {
                assert(new_ev.project == pm_cur[k as int].project);
                assert(pviews(pmap@) =~= pm_cur.update(k as int, new_ev));
                assert(old_files == pm_cur[k as int].files);
                assert forall|g: FileView|
                    has_entry(new_ev.files, g) <==> has_entry(st.0[k as int].files, g) by {
                    if has_entry(new_ev.files, g) {
                        let q = choose|q: int| 0 <= q < new_ev.files.len() && new_ev.files[q] == g;
                        assert(new_ev.files.contains(g));
                        assert(old_files.contains(g));
                        let w = choose|w: int| 0 <= w < old_files.len() && old_files[w] == g;
                    }
                    if has_entry(st.0[k as int].files, g) {
                        let q = choose|q: int|
                            0 <= q < old_files.len() && old_files[q] == g;
                        assert(old_files.contains(g));
                        assert(new_ev.files.contains(g));
                        let w = choose|w: int| 0 <= w < new_ev.files.len() && new_ev.files[w] == g;
                    }
                }
                assert forall|kk: int|
                    0 <= kk < pmap@.len() && kk != k as int implies #[trigger] pviews(pmap@)[kk]
                    == pm_cur[kk] by {}
                assert(unique_files(new_ev.files)) by {
                    assert forall|a: int, b: int|
                        0 <= a < b < new_ev.files.len() implies (
                    #[trigger] new_ev.files[a]).file != (#[trigger] new_ev.files[b]).file by {
                        crate::strkit::lemma_lex_asym(
                            new_ev.files[a].file,
                            new_ev.files[b].file,
                        );
                    }
                }
                // A sorted list holds the same paths, so the lists stay
                // pairwise disjoint and disjoint from the global list.
                let npm = pviews(pmap@);
                assert forall|x: int|
                    0 <= x < new_ev.files.len() implies exists|i0: int|
                    0 <= i0 < old_files.len() && (#[trigger] new_ev.files[x]).file
                        == old_files[i0].file by {
                    assert(has_file(new_ev.files, new_ev.files[x].file));
                    assert(has_file(old_files, new_ev.files[x].file));
                }
                assert forall|k1: int, k2: int, a: int, b: int|
                    0 <= k1 < k2 < npm.len() && 0 <= a < npm[k1].files.len() && 0 <= b
                        < npm[k2].files.len() implies (#[trigger] npm[k1].files[a]).file != (
                #[trigger] npm[k2].files[b]).file by {
                    if k1 == k as int {
                        assert(npm[k1] == new_ev);
                        assert(npm[k1].files[a] == new_ev.files[a]);
                        let i0 = choose|i0: int|
                            0 <= i0 < old_files.len() && new_ev.files[a].file
                                == old_files[i0].file;
                        assert(pm_cur[k1].files[i0].file != pm_cur[k2].files[b].file);
                    } else if k2 == k as int {
                        assert(npm[k2] == new_ev);
                        assert(npm[k2].files[b] == new_ev.files[b]);
                        let i0 = choose|i0: int|
                            0 <= i0 < old_files.len() && new_ev.files[b].file
                                == old_files[i0].file;
                        assert(pm_cur[k1].files[a].file != pm_cur[k2].files[i0].file);
                    } else {
                        assert(pm_cur[k1].files[a].file != pm_cur[k2].files[b].file);
                    }
                }
                assert forall|kk: int, a: int, b: int|
                    0 <= kk < npm.len() && 0 <= a < npm[kk].files.len() && 0 <= b
                        < g_cur.len() implies (#[trigger] npm[kk].files[a]).file != (
                #[trigger] g_cur[b]).file by {
                    if kk == k as int {
                        assert(npm[kk] == new_ev);
                        assert(npm[kk].files[a] == new_ev.files[a]);
                        let i0 = choose|i0: int|
                            0 <= i0 < old_files.len() && new_ev.files[a].file
                                == old_files[i0].file;
                        assert(pm_cur[kk].files[i0].file != g_cur[b].file);
                    } else {
                        assert(pm_cur[kk].files[a].file != g_cur[b].file);
                    }
                }
                assert(at_most_once(pviews(pmap@), views(global@)));
            }
        } else {
            proof {
                assert(pviews(pmap@)[k as int] == st.0[k as int]);
            }
        }
        k = k + 1;
    }

    // Assemble the result and its reference copies.
    let map_projects = clone_project_entries(&pmap);
    let map_global = clone_files(&global);
    UpdatedWorkspaceFiles {
        file_map: FileMap { project_file_map: map_projects, non_project_files: map_global },
        external_references: NxWorkspaceFilesExternals {
            project_files: pmap,
            global_files: global,
            all_workspace_files,
        },
    }
}

} // verus!
