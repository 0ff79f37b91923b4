//! The staging index: a flat mapping from repository-relative path to blob
//! digest, representing what would be committed. Paths are unique and use
//! the forward slash as their one canonical separator.

use vstd::prelude::*;
use crate::errors::VcsError;

verus! {

/// One staged file: a repository-relative path and the digest of its blob.
pub struct IndexEntry {
    pub path: String,
    pub hash: String,
}

impl IndexEntry {
    /// A copy of the entry.
    pub fn dup(&self) -> (r: IndexEntry)
        ensures
            r.path@ == self.path@,
            r.hash@ == self.hash@,
    {
        IndexEntry { path: self.path.clone(), hash: self.hash.clone() }
    }
}

/// The (path, digest) pairs of a sequence of entries.
pub open spec fn entries_view(s: Seq<IndexEntry>) -> Seq<(Seq<char>, Seq<char>)> {
    Seq::new(s.len(), |i: int| (s[i].path@, s[i].hash@))
}

/// True when no two pairs share a path.
pub open spec fn distinct_paths(s: Seq<(Seq<char>, Seq<char>)>) -> bool {
    forall|i: int, j: int| 0 <= i < j < s.len() ==> (#[trigger] s[i]).0 != (#[trigger] s[j]).0
}

/// True when some pair carries the path `p`.
pub open spec fn has_path(s: Seq<(Seq<char>, Seq<char>)>, p: Seq<char>) -> bool {
    exists|i: int| 0 <= i < s.len() && (#[trigger] s[i]).0 == p
}

/// The position of the pair carrying `p`; meaningful when paths are unique.
pub open spec fn path_index(s: Seq<(Seq<char>, Seq<char>)>, p: Seq<char>) -> int {
    choose|i: int| 0 <= i < s.len() && (#[trigger] s[i]).0 == p
}

/// What staging does to the sequence of pairs: an existing entry for the
/// exact path is updated in place, a new path is appended.
pub open spec fn stage_spec(
    s: Seq<(Seq<char>, Seq<char>)>,
    p: Seq<char>,
    h: Seq<char>,
) -> Seq<(Seq<char>, Seq<char>)> {
    if has_path(s, p) {
        s.update(path_index(s, p), (p, h))
    } else {
        s.push((p, h))
    }
}

/// The staging index. Its view is the sequence of (path, digest) pairs in
/// staging order.
pub struct Index {
    entries: Vec<IndexEntry>,
}

impl View for Index {
    type V = Seq<(Seq<char>, Seq<char>)>;

    closed spec fn view(&self) -> Seq<(Seq<char>, Seq<char>)> {
        entries_view(self.entries@)
    }
}

impl Index {
    /// Well-formed: path keys are unique.
    pub open spec fn wf(&self) -> bool {
        distinct_paths(self@)
    }

    /// An empty index.
    pub fn new() -> (r: Index)
        ensures
            r.wf(),
            r@ == Seq::<(Seq<char>, Seq<char>)>::empty(),
    {
        let r = Index { entries: Vec::new() };
        proof {
            assert(r@ =~= Seq::<(Seq<char>, Seq<char>)>::empty());
        }
        r
    }

    /// The number of staged entries.
    pub fn len(&self) -> (r: usize)
        ensures
            r == self@.len(),
    {
        self.entries.len()
    }

    /// Whether nothing is staged.
    pub fn is_empty(&self) -> (r: bool)
        ensures
            r == (self@.len() == 0),
    {
        self.entries.len() == 0
    }

    /// The staged entries, in staging order.
    pub fn as_entries(&self) -> (r: &Vec<IndexEntry>)
        ensures
            entries_view(r@) == self@,
    {
        &self.entries
    }

    /// Rebuilds an index from persisted entries; nothing when two entries
    /// share a path.
    pub fn from_entries(entries: Vec<IndexEntry>) -> (r: Option<Index>)
        ensures
            r is Some <==> distinct_paths(entries_view(entries@)),
            r matches Some(ix) ==> ix.wf() && ix@ == entries_view(entries@),
    {
        let ghost ev = entries_view(entries@);
        let mut i: usize = 0;
        while i < entries.len()
            invariant
                i <= entries@.len(),
                ev == entries_view(entries@),
                forall|a: int, b: int| 0 <= a < b < i ==> (#[trigger] ev[a]).0 != (
                #[trigger] ev[b]).0,
            decreases entries@.len() - i,
        {
            let mut j: usize = 0;
            while j < i
                invariant
                    j <= i < entries@.len(),
                    ev == entries_view(entries@),
                    forall|t: int| 0 <= t < j ==> (#[trigger] ev[t]).0 != ev[i as int].0,
                decreases i - j,
            {
                if entries[j].path == entries[i].path {
                    assert(ev[j as int].0 == ev[i as int].0);
                    assert(!distinct_paths(ev));
                    return None;
                }
                assert(ev[j as int].0 != ev[i as int].0);
                j = j + 1;
            }
            i = i + 1;
        }
        Some(Index { entries })
    }

    fn find(&self, path: &String) -> (r: Option<usize>)
        ensures
            r matches Some(i) ==> i < self@.len() && self@[i as int].0 == path@,
            r is None ==> !has_path(self@, path@),
    {
        let mut i: usize = 0;
        while i < self.entries.len()
            invariant
                i <= self.entries@.len(),
                self@.len() == self.entries@.len(),
                forall|j: int| 0 <= j < i ==> (#[trigger] self@[j]).0 != path@,
            decreases self.entries@.len() - i,
        {
            if self.entries[i].path == *path {
                assert(self@[i as int].0 == path@);
                return Some(i);
            }
            assert(self@[i as int].0 != path@);
            i = i + 1;
        }
        None
    }

    /// Records `hash` as the staged digest for `path`: updates the entry for
    /// that exact path if one exists, else appends a new one.
    pub fn stage(&mut self, path: String, hash: String)
        requires
            old(self).wf(),
        ensures
            final(self).wf(),
            final(self)@ == stage_spec(old(self)@, path@, hash@),
    {
        let ghost old_view = self@;
        match self.find(&path) {
            Some(i) => {
                proof {
                    assert forall|j: int|
                        0 <= j < old_view.len() && (#[trigger] old_view[j]).0 == path@ implies j
                        == i by {
                        if j != i {
                            if j < i {
                                assert(old_view[j].0 != old_view[i as int].0);
                            } else {
                                assert(old_view[i as int].0 != old_view[j].0);
                            }
                        }
                    }
                    assert(has_path(old_view, path@));
                    assert(path_index(old_view, path@) == i);
                }
                self.entries.remove(i);
                self.entries.insert(i, IndexEntry { path, hash });
                proof {
                    assert(self@ =~= old_view.update(i as int, (path@, hash@)));
                    assert forall|a: int, b: int| 0 <= a < b < self@.len() implies (
                    #[trigger] self@[a]).0 != (#[trigger] self@[b]).0 by {
                        assert(old_view[a].0 != old_view[b].0);
                        assert(self@[a].0 == if a == i { path@ } else { old_view[a].0 });
                        assert(self@[b].0 == if b == i { path@ } else { old_view[b].0 });
                        assert(old_view[i as int].0 == path@);
                    }
                }
            },
            None => {
                self.entries.push(IndexEntry { path, hash });
                proof {
                    assert(self@ =~= old_view.push((path@, hash@)));
                    assert forall|a: int, b: int| 0 <= a < b < self@.len() implies (
                    #[trigger] self@[a]).0 != (#[trigger] self@[b]).0 by {
                        if b < self@.len() - 1 {
                            assert(old_view[a].0 != old_view[b].0);
                        } else {
                            assert(self@[a] == old_view[a]);
                            assert(!has_path(old_view, path@));
                        }
                    }
                }
            },
        }
    }

    /// Removes the entry whose path equals `path` exactly; no directory
    /// prefix matching. Fails with `NotStaged`, leaving the index unchanged,
    /// when no entry matches.
    pub fn unstage(&mut self, path: &String) -> (r: Result<(), VcsError>)
        requires
            old(self).wf(),
        ensures
            final(self).wf(),
            has_path(old(self)@, path@) ==> r is Ok && final(self)@ == old(self)@.remove(
                path_index(old(self)@, path@),
            ),
            !has_path(old(self)@, path@) ==> *final(self) == *old(self) && (r matches Err(e)
                && (e matches VcsError::NotStaged(s) && s@ == path@)),
    {
        let ghost old_view = self@;
        match self.find(path) {
            Some(i) => {
                proof {
                    assert forall|j: int|
                        0 <= j < old_view.len() && (#[trigger] old_view[j]).0 == path@ implies j
                        == i by {
                        if j != i {
                            if j < i {
                                assert(old_view[j].0 != old_view[i as int].0);
                            } else {
                                assert(old_view[i as int].0 != old_view[j].0);
                            }
                        }
                    }
                    assert(path_index(old_view, path@) == i);
                }
                self.entries.remove(i);
                proof {
                    assert(self@ =~= old_view.remove(i as int));
                    assert forall|a: int, b: int| 0 <= a < b < self@.len() implies (
                    #[trigger] self@[a]).0 != (#[trigger] self@[b]).0 by {
                        let a0 = if a < i { a } else { a + 1 };
                        let b0 = if b < i { b } else { b + 1 };
                        assert(self@[a] == old_view[a0]);
                        assert(self@[b] == old_view[b0]);
                        assert(old_view[a0].0 != old_view[b0].0);
                    }
                }
                Ok(())
            },
            None => Err(VcsError::NotStaged(path.clone())),
        }
    }
}

/// After staging `p`, the index holds exactly one entry for `p`, carrying
/// the staged digest, whether or not `p` was staged before.
pub proof fn lemma_stage_exactly_one(s: Seq<(Seq<char>, Seq<char>)>, p: Seq<char>, h: Seq<char>)
    requires
        distinct_paths(s),
    ensures
        has_path(stage_spec(s, p, h), p),
        distinct_paths(stage_spec(s, p, h)),
        forall|i: int, j: int|
            0 <= i < stage_spec(s, p, h).len() && 0 <= j < stage_spec(s, p, h).len() && (
            #[trigger] stage_spec(s, p, h)[i]).0 == p && (#[trigger] stage_spec(s, p, h)[j]).0 == p
                ==> i == j,
        forall|i: int|
            0 <= i < stage_spec(s, p, h).len() && (#[trigger] stage_spec(s, p, h)[i]).0 == p ==> stage_spec(
                s,
                p,
                h,
            )[i].1 == h,
{
    let t = stage_spec(s, p, h);
    if has_path(s, p) {
        let i = path_index(s, p);
        assert(0 <= i < s.len() && s[i].0 == p);
        assert(t[i].0 == p);
        assert(has_path(t, p));
        assert forall|a: int, b: int| 0 <= a < b < t.len() implies (#[trigger] t[a]).0 != (
        #[trigger] t[b]).0 by {
            assert(s[a].0 != s[b].0);
            assert(t[a].0 == if a == i { p } else { s[a].0 });
            assert(t[b].0 == if b == i { p } else { s[b].0 });
        }
        assert forall|j: int| 0 <= j < t.len() && (#[trigger] t[j]).0 == p implies t[j].1 == h by {
            if j != i {
                assert(t[j] == s[j]);
                assert(s[j].0 != s[i].0 || j == i) by {
                    if j < i {
                        assert(s[j].0 != s[i].0);
                    } else if j > i {
                        assert(s[i].0 != s[j].0);
                    }
                }
            }
        }
    } else {
        let w = t.len() - 1;
        assert(t[w].0 == p);
        assert(has_path(t, p));
        assert forall|a: int, b: int| 0 <= a < b < t.len() implies (#[trigger] t[a]).0 != (
        #[trigger] t[b]).0 by {
            if b < t.len() - 1 {
                assert(t[a] == s[a]);
                assert(t[b] == s[b]);
            } else {
                assert(t[a] == s[a]);
                assert(!has_path(s, p));
            }
        }
        assert forall|j: int| 0 <= j < t.len() && (#[trigger] t[j]).0 == p implies t[j].1 == h by {
            if j < t.len() - 1 {
                assert(t[j] == s[j]);
                assert(!has_path(s, p));
            }
        }
    }
    assert forall|i: int, j: int|
        0 <= i < t.len() && 0 <= j < t.len() && (#[trigger] t[i]).0 == p && (#[trigger] t[j]).0
            == p implies i == j by {
        if i < j {
            assert(t[i].0 != t[j].0);
        } else if j < i {
            assert(t[j].0 != t[i].0);
        }
    }
}

/// The canonical form of a path: every backslash becomes a forward slash.
pub open spec fn normalize_spec(s: Seq<char>) -> Seq<char> {
    Seq::new(s.len(), |i: int| if s[i] == '\\' { '/' } else { s[i] })
}

/// Normalizes path separators: every `\` becomes `/`.
pub fn normalize_path(path: &str) -> (r: String)
    ensures
        r@ == normalize_spec(path@),
{
    let n = path.unicode_len();
    let mut out = String::new();
    let mut i: usize = 0;
    proof {
        reveal_strlit("/");
    }
    while i < n
        invariant
            i <= n,
            n == path@.len(),
            out@ == normalize_spec(path@).subrange(0, i as int),
            "/"@ =~= seq!['/'],
        decreases n - i,
    {
        let c = path.get_char(i);
        if c == '\\' {
            out.append("/");
        } else {
            out.append(path.substring_char(i, i + 1));
        }
        proof {
            assert(path@.subrange(i as int, i + 1 as int) =~= seq![path@[i as int]]);
            assert(out@ =~= normalize_spec(path@).subrange(0, i + 1 as int));
        }
        i = i + 1;
    }
    proof {
        assert(out@ =~= normalize_spec(path@));
    }
    out
}

} // verus!
