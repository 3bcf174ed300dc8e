//! Recently opened files: a bounded, most-recent-first list.
//!
//! Reading and writing the list on disk is the surrounding application's
//! business; this module owns the list logic.

use vstd::prelude::*;

use vstd::string::StrSliceExecFns;

verus! {

/// Maximum number of recent files to track.
pub const MAX_RECENT_FILES: usize = 10;

/// A recently accessed file: its path and its display name.
#[derive(Debug, Clone)]
pub struct RecentFile {
    pub path: String,
    pub name: String,
}

/// A path with its trailing separators removed.
pub open spec fn strip_slashes(p: Seq<char>) -> Seq<char>
    decreases p.len(),
{
    if p.len() > 0 && p.last() == '/' {
        strip_slashes(p.drop_last())
    } else {
        p
    }
}

/// The text after the last separator.
pub open spec fn after_last_slash(p: Seq<char>) -> Seq<char>
    decreases p.len(),
{
    if p.len() == 0 {
        p
    } else if p.last() == '/' {
        Seq::empty()
    } else {
        after_last_slash(p.drop_last()).push(p.last())
    }
}

/// The display name of a path: its final component, ignoring trailing
/// separators; a path with no component (empty, or separators only)
/// displays as itself.
pub open spec fn base_name(p: Seq<char>) -> Seq<char> {
    if strip_slashes(p).len() == 0 {
        p
    } else {
        after_last_slash(strip_slashes(p))
    }
}

/// Manager for recent files.
#[derive(Debug)]
pub struct RecentFiles {
    pub files: Vec<RecentFile>,
}

/// The view of a recent-files list: (path, name) text pairs.
pub open spec fn files_view(s: Seq<RecentFile>) -> Seq<(Seq<char>, Seq<char>)> {
    s.map_values(|f: RecentFile| (f.path@, f.name@))
}

impl RecentFiles {
    pub fn new() -> (r: RecentFiles)
        ensures
            r.files@.len() == 0,
    {
        RecentFiles { files: Vec::new() }
    }

    /// Add a file to the front of the list, dropping any older entry
    /// with the same path and trimming to the bound.
    pub fn add(&mut self, path: String)
        ensures
            files_view(final(self).files@) == ({
                let kept = files_view(old(self).files@).filter(
                    |f: (Seq<char>, Seq<char>)| f.0 != path@,
                );
                let all = seq![(path@, base_name(path@))] + kept;
                all.take(vstd::math::min(all.len() as int, MAX_RECENT_FILES as int))
            }),
    {
        let name = path_base_name(&path);
        let ghost target_kept = files_view(self.files@).filter(
            |f: (Seq<char>, Seq<char>)| f.0 != path@,
        );
        // Drop any entry with the same path.
        let ghost cl = |f: (Seq<char>, Seq<char>)| f.0 != path@;
        let mut kept: Vec<RecentFile> = Vec::new();
        let mut i: usize = 0;
        proof {
            reveal(Seq::filter);
            assert(files_view(kept@) =~= files_view(self.files@).subrange(0, 0).filter(cl));
        }
        while i < self.files.len()
            invariant
                i <= self.files@.len(),
                files_view(kept@) == files_view(self.files@).subrange(0, i as int).filter(cl),
                cl == (|f: (Seq<char>, Seq<char>)| f.0 != path@),
            decreases self.files@.len() - i,
        {
            let keep = !string_eq(&self.files[i].path, &path);
            let ghost pre = files_view(kept@);
            if keep {
                let f = RecentFile {
                    path: self.files[i].path.clone(),
                    name: self.files[i].name.clone(),
                };
                kept.push(f);
            }
            proof {
                reveal(Seq::filter);
                let fv = files_view(self.files@);
                let t0 = fv.subrange(0, i as int);
                let t1 = fv.subrange(0, i + 1);
                assert(t1.drop_last() =~= t0);
                assert(t1.last() == fv[i as int]);
                assert(fv[i as int] == (self.files@[i as int].path@, self.files@[i as int].name@));
                if keep {
                    assert(files_view(kept@) =~= pre.push(fv[i as int]));
                } else {
                    assert(files_view(kept@) =~= pre);
                }
            }
            i = i + 1;
        }
        proof {
            let fv = files_view(self.files@);
            assert(fv.subrange(0, fv.len() as int) =~= fv);
            assert(files_view(kept@) == target_kept);
        }
        // Put the new entry at the front.
        let mut out: Vec<RecentFile> = Vec::new();
        out.push(RecentFile { path, name });
        let nkept = kept.len();
        let mut j: usize = 0;
        while j < nkept && out.len() < MAX_RECENT_FILES
            invariant
                j <= nkept,
                nkept == kept@.len(),
                out@.len() == j + 1,
                out@.len() <= MAX_RECENT_FILES,
                files_view(out@) == (seq![(path@, base_name(path@))] + files_view(kept@)).take(
                    j + 1,
                ),
            decreases nkept - j,
        {
            let ghost pre = files_view(out@);
            let f = RecentFile { path: kept[j].path.clone(), name: kept[j].name.clone() };
            out.push(f);
            proof {
                let all = seq![(path@, base_name(path@))] + files_view(kept@);
                assert forall|x: int| 0 <= x < out@.len() implies files_view(out@)[x] == all.take(
                    j + 2,
                )[x] by {
                    if x < pre.len() {
                        assert(files_view(out@)[x] == pre[x]);
                        assert(all.take(j + 1)[x] == all.take(j + 2)[x]);
                    } else {
                        assert(files_view(out@)[x] == (kept@[j as int].path@,
                        kept@[j as int].name@));
                        assert(all.take(j + 2)[x] == all[j + 1]);
                        assert(all[j + 1] == files_view(kept@)[j as int]);
                    }
                }
                assert(files_view(out@) =~= all.take(j + 2));
            }
            j = j + 1;
        }
        self.files = out;
        proof {
            let all = seq![(path@, base_name(path@))] + files_view(kept@);
            if j == nkept {
                assert(files_view(self.files@) == all.take(nkept + 1));
                assert(all.len() == nkept + 1);
                assert(all.take(all.len() as int) =~= all);
            }
        }
    }

    /// Get a file by index.
    pub fn get(&self, index: usize) -> (r: Option<&RecentFile>)
        ensures
            match r {
                Some(f) => index < self.files@.len() && *f == self.files@[index as int],
                None => index >= self.files@.len(),
            },
    {
        if index < self.files.len() {
            Some(&self.files[index])
        } else {
            None
        }
    }

    /// The recent files, most recent first.
    pub fn iter(&self) -> (r: &Vec<RecentFile>)
        ensures
            r == &self.files,
    {
        &self.files
    }

    /// Get the number of recent files.
    pub fn len(&self) -> (r: usize)
        ensures
            r == self.files@.len(),
    {
        self.files.len()
    }

    /// Check if there are no recent files.
    pub fn is_empty(&self) -> (r: bool)
        ensures
            r == (self.files@.len() == 0),
    {
        self.files.len() == 0
    }
}

/// Decide string equality by text.
fn string_eq(a: &String, b: &String) -> (r: bool)
    ensures
        r == (a@ == b@),
{
    a.eq(b)
}

/// The display name of a path.
fn path_base_name(path: &String) -> (r: String)
    ensures
        r@ == base_name(path@),
{
    let s = path.as_str();
    let n = s.unicode_len();
    // The end of the final component: past the last non-separator.
    let mut endpos: usize = 0;
    let mut i: usize = 0;
    while i < n
        invariant
            i <= n,
            n == s@.len(),
            endpos <= i,
            forall|j: int| endpos <= j < i ==> s@[j] == '/',
            endpos > 0 ==> s@[endpos - 1] != '/',
        decreases n - i,
    {
        if s.get_char(i) != '/' {
            endpos = i + 1;
        }
        i = i + 1;
    }
    proof {
        lemma_strip_slashes(s@, endpos as int);
    }
    if endpos == 0 {
        return s.to_owned();
    }
    // The start of the final component: past the last separator before it.
    let mut cut: usize = 0;
    let mut k: usize = 0;
    while k < endpos
        invariant
            k <= endpos,
            endpos <= n,
            n == s@.len(),
            cut <= k,
            forall|j: int| cut <= j < k ==> s@[j] != '/',
            cut > 0 ==> s@[cut - 1] == '/',
        decreases endpos - k,
    {
        if s.get_char(k) == '/' {
            cut = k + 1;
        }
        k = k + 1;
    }
    let tail = s.substring_char(cut, endpos);
    proof {
        let q = s@.subrange(0, endpos as int);
        assert forall|j: int| cut <= j < q.len() implies q[j] != '/' by {
            assert(q[j] == s@[j]);
        }
        if cut > 0 {
            assert(q[cut - 1] == s@[cut - 1]);
        }
        lemma_after_last_slash_suffix(q, cut as int);
        assert(q.subrange(cut as int, q.len() as int) =~= s@.subrange(cut as int, endpos as int));
        assert(tail@ == after_last_slash(q));
    }
    tail.to_owned()
}

/// A run of trailing separators strips to the prefix before it.
proof fn lemma_strip_slashes(p: Seq<char>, e: int)
    requires
        0 <= e <= p.len(),
        forall|j: int| e <= j < p.len() ==> p[j] == '/',
        e > 0 ==> p[e - 1] != '/',
    ensures
        strip_slashes(p) == p.subrange(0, e),
    decreases p.len(),
{
    if p.len() == e {
        assert(strip_slashes(p) =~= p.subrange(0, e));
    } else {
        assert(p.last() == '/');
        assert forall|j: int| e <= j < p.drop_last().len() implies p.drop_last()[j] == '/' by {
            assert(p.drop_last()[j] == p[j]);
        }
        if e > 0 {
            assert(p.drop_last()[e - 1] == p[e - 1]);
        }
        lemma_strip_slashes(p.drop_last(), e);
        assert(p.drop_last().subrange(0, e) =~= p.subrange(0, e));
    }
}

/// The final component is the suffix after the last separator.
proof fn lemma_after_last_slash_suffix(p: Seq<char>, cut: int)
    requires
        0 <= cut <= p.len(),
        forall|j: int| cut <= j < p.len() ==> p[j] != '/',
        cut > 0 ==> p[cut - 1] == '/',
    ensures
        after_last_slash(p) == p.subrange(cut, p.len() as int),
    decreases p.len(),
{
    if p.len() == 0 {
        assert(after_last_slash(p) =~= p.subrange(0, 0));
    } else if cut == p.len() {
        assert(p.last() == '/');
        assert(after_last_slash(p) =~= p.subrange(cut, p.len() as int));
    } else {
        assert(p.last() != '/');
        lemma_after_last_slash_suffix(p.drop_last(), cut);
        assert(p.drop_last().subrange(cut, p.drop_last().len() as int) =~= p.subrange(
            cut,
            p.len() - 1,
        ));
        assert(after_last_slash(p) =~= p.subrange(cut, p.len() as int));
    }
}

} // verus!
