//! The glob engine: pattern matching over forward-slash paths, and the
//! deterministic selection of file entries that the workspace queries run.
//!
//! A pattern is matched character by character. `?` matches one character
//! other than `/`; `*` matches any run of characters other than `/`; a `**`
//! that stands alone or before a `/` matches any run of characters,
//! separators included; every other character matches itself.
use vstd::prelude::*;
use crate::files::{views, FileData, FileView};

verus! {

/// Whether the pattern `p` matches the whole path `s`.
pub open spec fn glob_match(p: Seq<char>, s: Seq<char>) -> bool
    decreases p.len() + s.len(),
{
    if p.len() == 0 {
        s.len() == 0
    } else if p.len() >= 2 && p[0] == '*' && p[1] == '*' && (p.len() == 2 || p[2] == '/') {
        if p.len() == 2 {
            true
        } else {
            glob_match(p.skip(3), s) || (s.len() > 0 && glob_match(p, s.skip(1)))
        }
    } else if p[0] == '*' {
        glob_match(p.skip(1), s) || (s.len() > 0 && s[0] != '/' && glob_match(p, s.skip(1)))
    } else if p[0] == '?' {
        s.len() > 0 && s[0] != '/' && glob_match(p.skip(1), s.skip(1))
    } else {
        s.len() > 0 && p[0] == s[0] && glob_match(p.skip(1), s.skip(1))
    }
}

fn glob_match_at(p: &str, s: &str, pl: usize, sl: usize, pi: usize, si: usize) -> (r: bool)
    requires
        pl == p@.len(),
        sl == s@.len(),
        pi <= pl,
        si <= sl,
    ensures
        r == glob_match(p@.skip(pi as int), s@.skip(si as int)),
    decreases (pl - pi) + (sl - si),
{
    let ghost pv = p@.skip(pi as int);
    let ghost sv = s@.skip(si as int);
    proof {
        if pi < pl {
            assert(pv[0] == p@[pi as int]);
            if pi + 1 < pl {
                assert(pv[1] == p@[pi + 1]);
            }
            if pi + 2 < pl {
                assert(pv[2] == p@[pi + 2]);
            }
        }
        if si < sl {
            assert(sv[0] == s@[si as int]);
        }
        if pi < pl {
            assert(pv.skip(1) =~= p@.skip(pi + 1));
        }
        if pi + 3 <= pl {
            assert(pv.skip(3) =~= p@.skip(pi + 3));
        }
        if si < sl {
            assert(sv.skip(1) =~= s@.skip(si + 1));
        }
    }
    if pi == pl {
        si == sl
    } else if pl - pi >= 2 && p.get_char(pi) == '*' && p.get_char(pi + 1) == '*' && (pl - pi == 2
        || p.get_char(pi + 2) == '/') {
        if pl - pi == 2 {
            true
        } else if glob_match_at(p, s, pl, sl, pi + 3, si) {
            true
        } else if si < sl {
            glob_match_at(p, s, pl, sl, pi, si + 1)
        } else {
            false
        }
    } else if p.get_char(pi) == '*' {
        if glob_match_at(p, s, pl, sl, pi + 1, si) {
            true
        } else if si < sl && s.get_char(si) != '/' {
            glob_match_at(p, s, pl, sl, pi, si + 1)
        } else {
            false
        }
    } else if p.get_char(pi) == '?' {
        if si < sl && s.get_char(si) != '/' {
            glob_match_at(p, s, pl, sl, pi + 1, si + 1)
        } else {
            false
        }
    } else {
        if si < sl && p.get_char(pi) == s.get_char(si) {
            glob_match_at(p, s, pl, sl, pi + 1, si + 1)
        } else {
            false
        }
    }
}

/// Matches one pattern against one path.
pub fn glob_match_str(pattern: &str, path: &str) -> (r: bool)
    ensures
        r == glob_match(pattern@, path@),
{
    let pl = pattern.unicode_len();
    let sl = path.unicode_len();
    let r = glob_match_at(pattern, path, pl, sl, 0, 0);
    proof {
        assert(pattern@.skip(0) =~= pattern@);
        assert(path@.skip(0) =~= path@);
    }
    r
}

/// Whether some pattern of `pats` matches `s`.
pub open spec fn matches_any(pats: Seq<Seq<char>>, s: Seq<char>) -> bool {
    exists|i: int| 0 <= i < pats.len() && glob_match(pats[i], s)
}

/// Matches a list of patterns against one path.
pub fn matches_any_str(pats: &Vec<String>, path: &str) -> (r: bool)
    ensures
        r == matches_any(pats@.map_values(|g: String| g@), path@),
{
    let ghost pv = pats@.map_values(|g: String| g@);
    let mut i: usize = 0;
    while i < pats.len()
        invariant
            i <= pats@.len(),
            pv == pats@.map_values(|g: String| g@),
            forall|j: int| 0 <= j < i ==> !glob_match(pv[j], path@),
        decreases pats@.len() - i,
    {
        proof {
            assert(pv[i as int] == pats@[i as int]@);
        }
        if glob_match_str(pats[i].as_str(), path) {
            return true;
        }
        i = i + 1;
    }
    false
}

/// The selection rule of every glob query: some pattern matches and no
/// exclude pattern does.
pub open spec fn selected(globs: Seq<Seq<char>>, excludes: Seq<Seq<char>>, f: Seq<char>) -> bool {
    matches_any(globs, f) && !matches_any(excludes, f)
}

/// The patterns of an optional exclude list; absent means none.
pub open spec fn exclude_views(exclude: Option<Vec<String>>) -> Seq<Seq<char>> {
    match exclude {
        Some(v) => v@.map_values(|g: String| g@),
        None => Seq::empty(),
    }
}

/// Runs the globs over the entries, keeping input order: exactly the
/// entries whose path some glob matches and no exclude matches.
pub fn glob_files(files: &Vec<FileData>, globs: &Vec<String>, exclude: &Option<Vec<String>>) -> (r:
    Vec<FileData>)
    ensures
        views(r@) == views(files@).filter(
            |e: FileView|
                selected(
                    globs@.map_values(|g: String| g@),
                    exclude_views(*exclude),
                    e.file,
                ),
        ),
{
    let ghost m = views(files@);
    let ghost gv = globs@.map_values(|g: String| g@);
    let ghost ev = exclude_views(*exclude);
    let ghost pred = |e: FileView| selected(gv, ev, e.file);
    let mut out: Vec<FileData> = Vec::new();
    let mut i: usize = 0;
    while i < files.len()
        invariant
            i <= files@.len(),
            m == views(files@),
            gv == globs@.map_values(|g: String| g@),
            ev == exclude_views(*exclude),
            pred == (|e: FileView| selected(gv, ev, e.file)),
            views(out@) == m.take(i as int).filter(pred),
        decreases files@.len() - i,
    {
        proof {
            assert(m[i as int] == files@[i as int]@);
            assert(m.take(i + 1).drop_last() =~= m.take(i as int));
            crate::files::lemma_filter_push(m.take(i as int), pred, m[i as int]);
            assert(m.take(i + 1) =~= m.take(i as int).push(m[i as int]));
        }
        let hit = matches_any_str(globs, files[i].file.as_str());
        let excluded = match exclude {
            Some(ex) => matches_any_str(ex, files[i].file.as_str()),
            None => false,
        };
        if hit && !excluded {
            let e = crate::files::clone_file_data(&files[i]);
            let ghost before = out@;
            out.push(e);
            proof {
                assert(out@ == before.push(e));
                assert(views(out@) =~= views(before).push(e@));
                assert(pred(m[i as int]));
            }
        } else {
            proof {
                assert(!pred(m[i as int]));
            }
        }
        proof {
            assert(views(out@) == m.take(i + 1).filter(pred));
        }
        i = i + 1;
    }
    proof {
        assert(m.take(m.len() as int) =~= m);
    }
    out
}

} // verus!
