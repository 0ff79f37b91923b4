//! The repository handle: the object store, the staging index, the branch
//! refs with HEAD, and the append-only commit log, all owned explicitly so
//! that every operation is a function of this state and plain values. The
//! command layer loads the handle from disk, calls one operation, and
//! persists what changed.

use vstd::prelude::*;
use vstd::multiset::Multiset;
use crate::codec::index_text;
use crate::commit::{author_str, author_text, commit_text, render_commit_text, Commit};
use crate::digest::sha1_hex;
use crate::errors::VcsError;
use crate::index::{
    distinct_paths, has_path, normalize_path, normalize_spec, path_index, stage_spec, Index,
    IndexEntry,
};
use crate::store::ObjectStore;

verus! {

/// A named pointer to a commit id; the empty id marks an unborn branch.
pub struct Branch {
    pub name: String,
    pub commit_id: String,
}

/// The name of the branch a fresh repository starts on, which can never be
/// deleted.
pub open spec fn default_branch() -> Seq<char> {
    "master"@
}

/// The default branch name.
pub fn default_branch_str() -> (r: &'static str)
    ensures
        r@ == default_branch(),
{
    "master"
}

/// A branch name is non-empty and contains no path separator.
pub open spec fn valid_branch_name(n: Seq<char>) -> bool {
    n.len() > 0 && forall|i: int| 0 <= i < n.len() ==> #[trigger] n[i] != '/' && n[i] != '\\'
}

/// Whether a branch name is acceptable: non-empty, no path separators.
pub fn is_valid_branch_name(name: &str) -> (r: bool)
    ensures
        r == valid_branch_name(name@),
{
    let n = name.unicode_len();
    if n == 0 {
        return false;
    }
    let mut i: usize = 0;
    while i < n
        invariant
            i <= n,
            n == name@.len(),
            forall|j: int| 0 <= j < i ==> #[trigger] name@[j] != '/' && name@[j] != '\\',
        decreases n - i,
    {
        let c = name.get_char(i);
        if c == '/' || c == '\\' {
            return false;
        }
        i = i + 1;
    }
    true
}

/// All repository state: objects, staging index, branch refs, HEAD, and the
/// append-only commit log.
pub struct Repository {
    store: ObjectStore,
    index: Index,
    branches: Vec<Branch>,
    head: String,
    commits: Vec<Commit>,
}

/// The (name, commit id) pairs of a sequence of branch refs.
pub open spec fn branch_pairs(s: Seq<Branch>) -> Seq<(Seq<char>, Seq<char>)> {
    Seq::new(s.len(), |i: int| (s[i].name@, s[i].commit_id@))
}

fn find_branch_in(branches: &Vec<Branch>, name: &str) -> (r: Option<usize>)
    ensures
        r matches Some(i) ==> i < branch_pairs(branches@).len() && branch_pairs(
            branches@,
        )[i as int].0 == name@,
        r is None ==> !has_path(branch_pairs(branches@), name@),
{
    let key = String::from_str(name);
    let mut i: usize = 0;
    while i < branches.len()
        invariant
            i <= branches@.len(),
            key@ == name@,
            forall|j: int| 0 <= j < i ==> (#[trigger] branch_pairs(branches@)[j]).0 != name@,
        decreases branches@.len() - i,
    {
        if branches[i].name == key {
            assert(branch_pairs(branches@)[i as int].0 == name@);
            return Some(i);
        }
        assert(branch_pairs(branches@)[i as int].0 != name@);
        i = i + 1;
    }
    None
}

impl Repository {
    /// The branch refs as (name, commit id) pairs, in creation order.
    pub closed spec fn branches_view(&self) -> Seq<(Seq<char>, Seq<char>)> {
        branch_pairs(self.branches@)
    }

    /// The object store as a mapping from digest to bytes.
    pub closed spec fn store_map(&self) -> Map<Seq<char>, Seq<u8>> {
        self.store.as_map()
    }

    /// The staged (path, digest) pairs in staging order.
    pub closed spec fn index_view(&self) -> Seq<(Seq<char>, Seq<char>)> {
        self.index@
    }

    /// The name of the active branch.
    pub closed spec fn head_name(&self) -> Seq<char> {
        self.head@
    }

    /// Every commit ever recorded, in creation order.
    pub closed spec fn commits_seq(&self) -> Seq<Commit> {
        self.commits@
    }

    /// The commit id the active branch points at.
    pub open spec fn head_commit_id(&self) -> Seq<char> {
        self.branches_view()[path_index(self.branches_view(), self.head_name())].1
    }

    /// The object store's own well-formedness.
    pub closed spec fn store_wf(&self) -> bool {
        self.store.wf()
    }

    /// Well-formed: store and index are well-formed, branch names are unique
    /// and valid, the default branch exists, and HEAD names a branch.
    pub open spec fn wf(&self) -> bool {
        &&& self.store_wf()
        &&& distinct_paths(self.index_view())
        &&& distinct_paths(self.branches_view())
        &&& forall|i: int|
            0 <= i < self.branches_view().len() ==> valid_branch_name(
                (#[trigger] self.branches_view()[i]).0,
            )
        &&& has_path(self.branches_view(), default_branch())
        &&& has_path(self.branches_view(), self.head_name())
    }

    /// A freshly initialized repository: empty store, empty index, no
    /// commits, and one unborn default branch that HEAD points at.
    pub fn new() -> (r: Repository)
        ensures
            r.wf(),
            r.store_map() == Map::<Seq<char>, Seq<u8>>::empty(),
            r.index_view() == Seq::<(Seq<char>, Seq<char>)>::empty(),
            r.branches_view() =~= seq![(default_branch(), Seq::<char>::empty())],
            r.head_name() == default_branch(),
            r.commits_seq() == Seq::<Commit>::empty(),
    {
        let mut branches: Vec<Branch> = Vec::new();
        branches.push(Branch { name: String::from_str(default_branch_str()), commit_id: String::new() });
        let r = Repository {
            store: ObjectStore::new(),
            index: Index::new(),
            branches,
            head: String::from_str(default_branch_str()),
            commits: Vec::new(),
        };
        proof {
            reveal_strlit("master");
            assert(r.branches_view() =~= seq![(default_branch(), Seq::<char>::empty())]);
            assert(valid_branch_name(default_branch()));
            assert(r.branches_view()[0].0 == default_branch());
            assert(has_path(r.branches_view(), default_branch()));
        }
        r
    }

    /// The name of the active branch; never fails.
    pub fn get_current_branch(&self) -> (r: String)
        ensures
            r@ == self.head_name(),
    {
        self.head.clone()
    }

    /// Every branch name, in creation order. The default branch is always
    /// among them.
    pub fn list_branches(&self) -> (r: Vec<String>)
        requires
            self.wf(),
        ensures
            r@.len() == self.branches_view().len(),
            forall|i: int|
                0 <= i < r@.len() ==> (#[trigger] r@[i])@ == self.branches_view()[i].0,
            exists|i: int| 0 <= i < r@.len() && (#[trigger] r@[i])@ == default_branch(),
    {
        let mut out: Vec<String> = Vec::new();
        let mut i: usize = 0;
        while i < self.branches.len()
            invariant
                i <= self.branches@.len(),
                out@.len() == i,
                forall|j: int|
                    0 <= j < i ==> (#[trigger] out@[j])@ == self.branches_view()[j].0,
            decreases self.branches@.len() - i,
        {
            out.push(self.branches[i].name.clone());
            i = i + 1;
        }
        proof {
            let w = path_index(self.branches_view(), default_branch());
            assert(0 <= w < out@.len() && (out@[w])@ == default_branch());
        }
        out
    }

    fn find_branch(&self, name: &str) -> (r: Option<usize>)
        ensures
            r matches Some(i) ==> i < self.branches_view().len()
                && self.branches_view()[i as int].0 == name@,
            r is None ==> !has_path(self.branches_view(), name@),
    {
        let key = String::from_str(name);
        let mut i: usize = 0;
        while i < self.branches.len()
            invariant
                i <= self.branches@.len(),
                key@ == name@,
                forall|j: int| 0 <= j < i ==> (#[trigger] self.branches_view()[j]).0 != name@,
            decreases self.branches@.len() - i,
        {
            if self.branches[i].name == key {
                assert(self.branches_view()[i as int].0 == name@);
                return Some(i);
            }
            assert(self.branches_view()[i as int].0 != name@);
            i = i + 1;
        }
        None
    }

    proof fn lemma_unique_branch_index(&self, name: Seq<char>, i: int)
        requires
            distinct_paths(self.branches_view()),
            0 <= i < self.branches_view().len(),
            self.branches_view()[i].0 == name,
        ensures
            path_index(self.branches_view(), name) == i,
            has_path(self.branches_view(), name),
    {
        let bv = self.branches_view();
        assert(has_path(bv, name));
        let j = path_index(bv, name);
        if j != i {
            if j < i {
                assert(bv[j].0 != bv[i].0);
            } else {
                assert(bv[i].0 != bv[j].0);
            }
        }
    }

    /// The commit id a branch points at; empty for an unborn branch. Fails
    /// with `BranchNotFound` when no branch has the name.
    pub fn read_branch_commit(&self, name: &str) -> (r: Result<String, VcsError>)
        requires
            self.wf(),
        ensures
            has_path(self.branches_view(), name@) ==> (r matches Ok(c) && c@
                == self.branches_view()[path_index(self.branches_view(), name@)].1),
            !has_path(self.branches_view(), name@) ==> (r matches Err(e) && (e matches
                VcsError::BranchNotFound(s) && s@ == name@)),
    {
        match self.find_branch(name) {
            Some(i) => {
                proof {
                    self.lemma_unique_branch_index(name@, i as int);
                }
                Ok(self.branches[i].commit_id.clone())
            },
            None => Err(VcsError::BranchNotFound(String::from_str(name))),
        }
    }

    /// Points the named branch at `commit_id`, creating the ref when it does
    /// not exist yet. Every other part of the repository is untouched.
    pub fn update_branch(&mut self, name: &str, commit_id: &str)
        requires
            old(self).wf(),
            valid_branch_name(name@),
        ensures
            final(self).wf(),
            final(self).branches_view() == stage_spec(
                old(self).branches_view(),
                name@,
                commit_id@,
            ),
            final(self).store_map() == old(self).store_map(),
            final(self).index_view() == old(self).index_view(),
            final(self).head_name() == old(self).head_name(),
            final(self).commits_seq() == old(self).commits_seq(),
    {
        let ghost old_bv = self.branches_view();
        let entry = Branch { name: String::from_str(name), commit_id: String::from_str(commit_id) };
        match self.find_branch(name) {
            Some(i) => {
                proof {
                    self.lemma_unique_branch_index(name@, i as int);
                }
                self.branches.remove(i);
                self.branches.insert(i, entry);
                proof {
                    assert(self.branches_view() =~= old_bv.update(i as int, (name@, commit_id@)));
                    assert(self.branches_view() == stage_spec(old_bv, name@, commit_id@));
                    assert forall|a: int, b: int|
                        0 <= a < b < self.branches_view().len() implies (
                    #[trigger] self.branches_view()[a]).0 != (
                    #[trigger] self.branches_view()[b]).0 by {
                        assert(old_bv[a].0 != old_bv[b].0);
                        assert(old_bv[i as int].0 == name@);
                    }
                    assert forall|j: int| 0 <= j < self.branches_view().len() implies
                        valid_branch_name((#[trigger] self.branches_view()[j]).0) by {
                        if j != i {
                            assert(self.branches_view()[j] == old_bv[j]);
                        }
                    }
                    let w = path_index(old_bv, default_branch());
                    assert(self.branches_view()[w].0 == default_branch());
                    let w2 = path_index(old_bv, old(self).head_name());
                    assert(self.branches_view()[w2].0 == old(self).head_name());
                }
            },
            None => {
                self.branches.push(entry);
                proof {
                    assert(self.branches_view() =~= old_bv.push((name@, commit_id@)));
                    assert(self.branches_view() == stage_spec(old_bv, name@, commit_id@));
                    assert forall|a: int, b: int|
                        0 <= a < b < self.branches_view().len() implies (
                    #[trigger] self.branches_view()[a]).0 != (
                    #[trigger] self.branches_view()[b]).0 by {
                        if b < self.branches_view().len() - 1 {
                            assert(old_bv[a].0 != old_bv[b].0);
                        } else {
                            assert(self.branches_view()[a] == old_bv[a]);
                            assert(!has_path(old_bv, name@));
                        }
                    }
                    assert forall|j: int| 0 <= j < self.branches_view().len() implies
                        valid_branch_name((#[trigger] self.branches_view()[j]).0) by {
                        if j < self.branches_view().len() - 1 {
                            assert(self.branches_view()[j] == old_bv[j]);
                        }
                    }
                    let w = path_index(old_bv, default_branch());
                    assert(self.branches_view()[w].0 == default_branch());
                    let w2 = path_index(old_bv, old(self).head_name());
                    assert(self.branches_view()[w2].0 == old(self).head_name());
                }
            },
        }
    }

    /// Records a branch's latest commit; called when a commit lands.
    pub fn update_branch_commit(&mut self, branch_name: &str, commit_id: &str)
        requires
            old(self).wf(),
            valid_branch_name(branch_name@),
        ensures
            final(self).wf(),
            final(self).branches_view() == stage_spec(
                old(self).branches_view(),
                branch_name@,
                commit_id@,
            ),
            final(self).store_map() == old(self).store_map(),
            final(self).index_view() == old(self).index_view(),
            final(self).head_name() == old(self).head_name(),
            final(self).commits_seq() == old(self).commits_seq(),
    {
        self.update_branch(branch_name, commit_id)
    }

    /// Creates a branch pointing at the commit HEAD resolves to. Fails with
    /// `InvalidName` on an empty name or one holding a path separator, with
    /// `BranchExists` on a name already taken, and with `NoCommits` when the
    /// active branch is unborn.
    pub fn create_branch(&mut self, name: &str) -> (r: Result<(), VcsError>)
        requires
            old(self).wf(),
        ensures
            final(self).wf(),
            !valid_branch_name(name@) ==> *final(self) == *old(self) && (r matches Err(e) && (
            e matches VcsError::InvalidBranchName(s) && s@ == name@)),
            valid_branch_name(name@) && has_path(old(self).branches_view(), name@) ==> *final(self)
                == *old(self) && (r matches Err(e) && (e matches VcsError::BranchExists(s) && s@
                == name@)),
            valid_branch_name(name@) && !has_path(old(self).branches_view(), name@) && old(
                self,
            ).head_commit_id().len() == 0 ==> *final(self) == *old(self) && (r matches Err(e) && (
            e matches VcsError::NoCommits(s) && s@ == old(self).head_name())),
            valid_branch_name(name@) && !has_path(old(self).branches_view(), name@) && old(
                self,
            ).head_commit_id().len() > 0 ==> r is Ok && final(self).branches_view() == old(
                self,
            ).branches_view().push((name@, old(self).head_commit_id())),
            final(self).store_map() == old(self).store_map(),
            final(self).index_view() == old(self).index_view(),
            final(self).head_name() == old(self).head_name(),
            final(self).commits_seq() == old(self).commits_seq(),
    {
        if !is_valid_branch_name(name) {
            return Err(VcsError::InvalidBranchName(String::from_str(name)));
        }
        match self.find_branch(name) {
            Some(_) => {
                return Err(VcsError::BranchExists(String::from_str(name)));
            },
            None => {},
        }
        let head = self.head.clone();
        let commit_id = match self.read_branch_commit(head.as_str()) {
            Ok(c) => c,
            Err(_) => {
                proof {
                    assert(has_path(self.branches_view(), self.head_name()));
                    assert(false);
                }
                return Err(VcsError::IoFailure(String::new()));
            },
        };
        if commit_id.as_str().unicode_len() == 0 {
            return Err(VcsError::NoCommits(head));
        }
        let ghost old_bv = self.branches_view();
        self.branches.push(Branch { name: String::from_str(name), commit_id });
        proof {
            assert(self.branches_view() =~= old_bv.push((name@, old(self).head_commit_id())));
            assert forall|a: int, b: int| 0 <= a < b < self.branches_view().len() implies (
            #[trigger] self.branches_view()[a]).0 != (#[trigger] self.branches_view()[b]).0 by {
                if b < self.branches_view().len() - 1 {
                    assert(old_bv[a].0 != old_bv[b].0);
                } else {
                    assert(self.branches_view()[a] == old_bv[a]);
                    assert(!has_path(old_bv, name@));
                }
            }
            assert forall|j: int| 0 <= j < self.branches_view().len() implies valid_branch_name(
                (#[trigger] self.branches_view()[j]).0,
            ) by {
                if j < self.branches_view().len() - 1 {
                    assert(self.branches_view()[j] == old_bv[j]);
                }
            }
            let w = path_index(old_bv, default_branch());
            assert(self.branches_view()[w].0 == default_branch());
            let w2 = path_index(old_bv, old(self).head_name());
            assert(self.branches_view()[w2].0 == old(self).head_name());
        }
        Ok(())
    }

    /// Deletes a branch ref. Always fails on the active branch and on the
    /// default branch, whatever else holds; fails with `BranchNotFound` on a
    /// name that has no ref.
    pub fn delete_branch(&mut self, name: &str) -> (r: Result<(), VcsError>)
        requires
            old(self).wf(),
        ensures
            final(self).wf(),
            name@ == old(self).head_name() || name@ == default_branch() ==> *final(self) == *old(
                self,
            ) && (r matches Err(e) && (e matches VcsError::CannotDeleteCurrentOrDefaultBranch(s)
                && s@ == name@)),
            name@ != old(self).head_name() && name@ != default_branch() && !has_path(
                old(self).branches_view(),
                name@,
            ) ==> *final(self) == *old(self) && (r matches Err(e) && (e matches
                VcsError::BranchNotFound(s) && s@ == name@)),
            name@ != old(self).head_name() && name@ != default_branch() && has_path(
                old(self).branches_view(),
                name@,
            ) ==> r is Ok && final(self).branches_view() == old(self).branches_view().remove(
                path_index(old(self).branches_view(), name@),
            ),
            final(self).store_map() == old(self).store_map(),
            final(self).index_view() == old(self).index_view(),
            final(self).head_name() == old(self).head_name(),
            final(self).commits_seq() == old(self).commits_seq(),
    {
        let key = String::from_str(name);
        if key == self.head {
            return Err(VcsError::CannotDeleteCurrentOrDefaultBranch(key));
        }
        if key == String::from_str(default_branch_str()) {
            return Err(VcsError::CannotDeleteCurrentOrDefaultBranch(key));
        }
        let i = match self.find_branch(name) {
            None => {
                return Err(VcsError::BranchNotFound(key));
            },
            Some(i) => i,
        };
        proof {
            self.lemma_unique_branch_index(name@, i as int);
        }
        let ghost old_bv = self.branches_view();
        self.branches.remove(i);
        proof {
            assert(self.branches_view() =~= old_bv.remove(i as int));
            assert forall|a: int, b: int| 0 <= a < b < self.branches_view().len() implies (
            #[trigger] self.branches_view()[a]).0 != (#[trigger] self.branches_view()[b]).0 by {
                let a0 = if a < i { a } else { a + 1 };
                let b0 = if b < i { b } else { b + 1 };
                assert(self.branches_view()[a] == old_bv[a0]);
                assert(self.branches_view()[b] == old_bv[b0]);
                assert(old_bv[a0].0 != old_bv[b0].0);
            }
            assert forall|j: int| 0 <= j < self.branches_view().len() implies valid_branch_name(
                (#[trigger] self.branches_view()[j]).0,
            ) by {
                let j0 = if j < i { j } else { j + 1 };
                assert(self.branches_view()[j] == old_bv[j0]);
            }
            let w = path_index(old_bv, default_branch());
            assert(old_bv[w].0 == default_branch());
            assert(w != i);
            let w1 = if w < i { w } else { w - 1 };
            assert(self.branches_view()[w1] == old_bv[w]);
            assert(has_path(self.branches_view(), default_branch()));
            let v = path_index(old_bv, old(self).head_name());
            assert(old_bv[v].0 == old(self).head_name());
            assert(v != i);
            let v1 = if v < i { v } else { v - 1 };
            assert(self.branches_view()[v1] == old_bv[v]);
            assert(has_path(self.branches_view(), old(self).head_name()));
        }
        Ok(())
    }
}

/// The (path, content) pairs handed in for a directory add.
pub open spec fn files_view(s: Seq<(String, Vec<u8>)>) -> Seq<(Seq<char>, Seq<u8>)> {
    Seq::new(s.len(), |i: int| (s[i].0@, s[i].1@))
}

/// True of the repository's own metadata directory and everything below it;
/// such paths are never staged.
pub open spec fn is_metadata_path(p: Seq<char>) -> bool {
    p == ".rust-git"@ || (p.len() >= 10 && p.subrange(0, 10) == ".rust-git/"@)
}

/// Whether `s` begins with `prefix`.
pub fn starts_with_str(s: &str, prefix: &str) -> (r: bool)
    ensures
        r == (s@.len() >= prefix@.len() && s@.subrange(0, prefix@.len() as int) == prefix@),
{
    let n = s.unicode_len();
    let m = prefix.unicode_len();
    if m > n {
        return false;
    }
    let mut i: usize = 0;
    while i < m
        invariant
            i <= m,
            m <= n,
            n == s@.len(),
            m == prefix@.len(),
            forall|j: int| 0 <= j < i ==> #[trigger] s@[j] == prefix@[j],
        decreases m - i,
    {
        if s.get_char(i) != prefix.get_char(i) {
            assert(s@.subrange(0, m as int)[i as int] != prefix@[i as int]);
            return false;
        }
        i = i + 1;
    }
    proof {
        assert(s@.subrange(0, m as int) =~= prefix@);
    }
    true
}

/// Whether a normalized path lies in the repository's metadata directory.
pub fn is_metadata_path_exec(s: &str) -> (r: bool)
    ensures
        r == is_metadata_path(s@),
{
    proof {
        reveal_strlit(".rust-git");
        reveal_strlit(".rust-git/");
    }
    if starts_with_str(s, ".rust-git/") {
        return true;
    }
    if s.unicode_len() == 9 && starts_with_str(s, ".rust-git") {
        proof {
            assert(s@.subrange(0, 9) =~= s@);
        }
        return true;
    }
    proof {
        if s@ == ".rust-git"@ {
            assert(s@.subrange(0, 9) =~= ".rust-git"@);
            assert(false);
        }
    }
    false
}

/// What a sequence of (path, content) pairs does to the index and the store:
/// each file's blob is stored and its normalized path staged, in order, with
/// paths in the metadata directory skipped. Directory entries never appear:
/// only files are handed in.
pub open spec fn stage_all(
    ix: Seq<(Seq<char>, Seq<char>)>,
    store: Map<Seq<char>, Seq<u8>>,
    files: Seq<(Seq<char>, Seq<u8>)>,
) -> (Seq<(Seq<char>, Seq<char>)>, Map<Seq<char>, Seq<u8>>)
    decreases files.len(),
{
    if files.len() == 0 {
        (ix, store)
    } else {
        let p = normalize_spec(files[0].0);
        let c = files[0].1;
        if is_metadata_path(p) {
            stage_all(ix, store, files.drop_first())
        } else {
            stage_all(
                stage_spec(ix, p, sha1_hex(c)),
                store.insert(sha1_hex(c), c),
                files.drop_first(),
            )
        }
    }
}

impl Repository {
    /// Stages one file: stores its content as a blob and records the blob's
    /// digest under the separator-normalized path, updating an existing
    /// entry for that exact path or appending a new one. Returns the digest.
    pub fn stage_file(&mut self, path: &str, content: Vec<u8>) -> (r: String)
        requires
            old(self).wf(),
        ensures
            final(self).wf(),
            r@ == sha1_hex(content@),
            final(self).store_map() == old(self).store_map().insert(sha1_hex(content@), content@),
            final(self).index_view() == stage_spec(
                old(self).index_view(),
                normalize_spec(path@),
                sha1_hex(content@),
            ),
            final(self).branches_view() == old(self).branches_view(),
            final(self).head_name() == old(self).head_name(),
            final(self).commits_seq() == old(self).commits_seq(),
    {
        let norm = normalize_path(path);
        let hash = self.store.put(content);
        let out = hash.clone();
        self.index.stage(norm, hash);
        out
    }

    /// Stages a batch of files from a directory walk, in the order handed
    /// in, skipping everything under the repository's metadata directory.
    pub fn stage_files(&mut self, files: &Vec<(String, Vec<u8>)>)
        requires
            old(self).wf(),
        ensures
            final(self).wf(),
            final(self).index_view() == stage_all(
                old(self).index_view(),
                old(self).store_map(),
                files_view(files@),
            ).0,
            final(self).store_map() == stage_all(
                old(self).index_view(),
                old(self).store_map(),
                files_view(files@),
            ).1,
            final(self).branches_view() == old(self).branches_view(),
            final(self).head_name() == old(self).head_name(),
            final(self).commits_seq() == old(self).commits_seq(),
    {
        let ghost fv = files_view(files@);
        let ghost goal = stage_all(old(self).index_view(), old(self).store_map(), fv);
        let mut i: usize = 0;
        proof {
            assert(fv.skip(0) =~= fv);
        }
        while i < files.len()
            invariant
                i <= files@.len(),
                fv == files_view(files@),
                self.wf(),
                goal == stage_all(self.index_view(), self.store_map(), fv.skip(i as int)),
                goal == stage_all(old(self).index_view(), old(self).store_map(), fv),
                self.branches_view() == old(self).branches_view(),
                self.head_name() == old(self).head_name(),
                self.commits_seq() == old(self).commits_seq(),
            decreases files@.len() - i,
        {
            let ghost rest = fv.skip(i as int);
            proof {
                assert(rest[0] == fv[i as int]);
                assert(rest.drop_first() =~= fv.skip(i + 1 as int));
            }
            let norm = normalize_path(files[i].0.as_str());
            if !is_metadata_path_exec(norm.as_str()) {
                let content = vstd::slice::slice_to_vec(files[i].1.as_slice());
                let hash = self.store.put(content);
                self.index.stage(norm, hash);
            }
            i = i + 1;
        }
        proof {
            assert(fv.skip(files@.len() as int) =~= Seq::<(Seq<char>, Seq<u8>)>::empty());
        }
    }

    /// Removes the staged entry whose path equals `path` exactly; fails with
    /// `NotStaged`, leaving everything unchanged, when no entry matches.
    pub fn unstage(&mut self, path: &str) -> (r: Result<(), VcsError>)
        requires
            old(self).wf(),
        ensures
            final(self).wf(),
            has_path(old(self).index_view(), path@) ==> r is Ok && final(self).index_view() == old(
                self,
            ).index_view().remove(path_index(old(self).index_view(), path@)),
            !has_path(old(self).index_view(), path@) ==> *final(self) == *old(self) && (r matches
                Err(e) && (e matches VcsError::NotStaged(s) && s@ == path@)),
            final(self).store_map() == old(self).store_map(),
            final(self).branches_view() == old(self).branches_view(),
            final(self).head_name() == old(self).head_name(),
            final(self).commits_seq() == old(self).commits_seq(),
    {
        let key = String::from_str(path);
        self.index.unstage(&key)
    }

    /// Serializes the full staging index, stores it as the snapshot object,
    /// and returns the snapshot's digest. Every commit restates the complete
    /// staged file set; nothing is diffed against a prior snapshot.
    pub fn generate_tree_hash(&mut self) -> (r: String)
        requires
            old(self).wf(),
        ensures
            final(self).wf(),
            r@ == sha1_hex(vstd::utf8::encode_utf8(index_text(old(self).index_view()))),
            final(self).store_map() == old(self).store_map().insert(
                sha1_hex(vstd::utf8::encode_utf8(index_text(old(self).index_view()))),
                vstd::utf8::encode_utf8(index_text(old(self).index_view())),
            ),
            final(self).index_view() == old(self).index_view(),
            final(self).branches_view() == old(self).branches_view(),
            final(self).head_name() == old(self).head_name(),
            final(self).commits_seq() == old(self).commits_seq(),
    {
        let text = crate::codec::index_to_text(self.index.as_entries());
        let bytes = text.as_str().as_bytes_vec();
        self.store.put(bytes)
    }

    /// Builds and stores a commit for the current index at the given
    /// timestamp: stores the snapshot, renders the canonical record text,
    /// stores it under its digest (the commit id), appends the commit to the
    /// log, and advances the active branch's ref. Fails with `EmptyIndex`,
    /// changing nothing, when nothing is staged.
    pub fn commit_at(&mut self, message: &str, timestamp: i64) -> (r: Result<Commit, VcsError>)
        requires
            old(self).wf(),
        ensures
            final(self).wf(),
            old(self).index_view().len() == 0 ==> *final(self) == *old(self) && (r matches Err(e)
                && e matches VcsError::EmptyIndex),
            old(self).index_view().len() > 0 ==> (r matches Ok(c) && {
                let tree_bytes = vstd::utf8::encode_utf8(index_text(old(self).index_view()));
                let th = sha1_hex(tree_bytes);
                let ct = commit_text(th, timestamp as int, message@);
                let cb = vstd::utf8::encode_utf8(ct);
                let id = sha1_hex(cb);
                &&& c.id@ == id
                &&& c.tree_hash@ == th
                &&& c.message@ == message@
                &&& c.author@ == author_text()
                &&& c.timestamp == timestamp
                &&& final(self).store_map() == old(self).store_map().insert(th, tree_bytes).insert(
                    id,
                    cb,
                )
                &&& final(self).commits_seq() == old(self).commits_seq().push(c)
                &&& final(self).index_view() == old(self).index_view()
                &&& final(self).head_name() == old(self).head_name()
                &&& final(self).branches_view() == stage_spec(
                    old(self).branches_view(),
                    old(self).head_name(),
                    id,
                )
            }),
    {
        if self.index.is_empty() {
            return Err(VcsError::EmptyIndex);
        }
        proof {
            let bv = self.branches_view();
            let w = path_index(bv, self.head_name());
            assert(bv[w].0 == self.head_name());
            assert(valid_branch_name(bv[w].0));
        }
        let tree_hash = self.generate_tree_hash();
        let ctext = render_commit_text(tree_hash.as_str(), timestamp, message);
        let cbytes = ctext.as_str().as_bytes_vec();
        let id = self.store.put(cbytes);
        let commit = Commit {
            id: id.clone(),
            message: String::from_str(message),
            author: String::from_str(author_str()),
            timestamp,
            tree_hash,
        };
        self.commits.push(commit.dup());
        let head = self.head.clone();
        self.update_branch(head.as_str(), id.as_str());
        Ok(commit)
    }

    /// Every commit ever recorded, ordered by timestamp descending; ties
    /// keep their recording order. An empty log is a valid result.
    pub fn log(&self) -> (r: Vec<Commit>)
        ensures
            r@.to_multiset() == self.commits_seq().to_multiset(),
            forall|i: int, j: int|
                0 <= i < j < r@.len() ==> #[trigger] r@[i].timestamp >= #[trigger] r@[j].timestamp,
    {
        broadcast use vstd::seq_lib::group_to_multiset_ensures;

        let mut work: Vec<Commit> = Vec::new();
        let mut i: usize = 0;
        while i < self.commits.len()
            invariant
                i <= self.commits@.len(),
                work@.len() == i,
                forall|j: int| 0 <= j < i ==> #[trigger] work@[j] == self.commits@[j],
            decreases self.commits@.len() - i,
        {
            work.push(self.commits[i].dup());
            i = i + 1;
        }
        proof {
            assert(work@ =~= self.commits@);
        }
        let mut out: Vec<Commit> = Vec::new();
        while work.len() > 0
            invariant
                out@.to_multiset().add(work@.to_multiset()) == self.commits_seq().to_multiset(),
                forall|a: int, b: int|
                    0 <= a < b < out@.len() ==> #[trigger] out@[a].timestamp
                        >= #[trigger] out@[b].timestamp,
                forall|a: int, b: int|
                    0 <= a < out@.len() && 0 <= b < work@.len() ==> #[trigger] out@[a].timestamp
                        >= #[trigger] work@[b].timestamp,
            decreases work@.len(),
        {
            let mut m: usize = 0;
            let mut j: usize = 1;
            while j < work.len()
                invariant
                    m < j <= work@.len(),
                    work@.len() > 0,
                    forall|t: int|
                        0 <= t < j ==> #[trigger] work@[t].timestamp <= work@[m as int].timestamp,
                decreases work@.len() - j,
            {
                if work[j].timestamp > work[m].timestamp {
                    m = j;
                }
                j = j + 1;
            }
            let ghost old_out = out@;
            let ghost old_work = work@;
            let e = work.remove(m);
            out.push(e);
            proof {
                vstd::seq_lib::to_multiset_build(old_out, e);
                vstd::seq_lib::to_multiset_remove(old_work, m as int);
                old_work.to_multiset_ensures();
                assert(old_work.contains(old_work[m as int]));
                assert(e == old_work[m as int]);
                assert(out@ == old_out.push(e));
                assert(old_out.push(e).to_multiset() =~= old_out.to_multiset().insert(e));
                assert(work@ == old_work.remove(m as int));
                assert(old_work.remove(m as int).to_multiset() =~= old_work.to_multiset().remove(
                    old_work[m as int],
                ));
                assert(out@.to_multiset() =~= old_out.to_multiset().insert(e));
                assert(work@.to_multiset() =~= old_work.to_multiset().remove(e));
                assert(old_work.to_multiset().count(e) > 0);
                assert(out@.to_multiset().add(work@.to_multiset()) =~= old_out.to_multiset().add(
                    old_work.to_multiset(),
                ));
                assert forall|a: int, b: int|
                    0 <= a < out@.len() && 0 <= b < work@.len() implies #[trigger] out@[a].timestamp
                    >= #[trigger] work@[b].timestamp by {
                    let b0 = if b < m { b } else { b + 1 };
                    assert(work@[b] == old_work[b0]);
                    if a < out@.len() - 1 {
                        assert(out@[a] == old_out[a]);
                    } else {
                        assert(out@[a] == e);
                        assert(old_work[b0].timestamp <= old_work[m as int].timestamp);
                    }
                }
                assert forall|a: int, b: int| 0 <= a < b < out@.len() implies
                    #[trigger] out@[a].timestamp >= #[trigger] out@[b].timestamp by {
                    if b < out@.len() - 1 {
                        assert(out@[a] == old_out[a] && out@[b] == old_out[b]);
                    } else {
                        assert(out@[a] == old_out[a]);
                        assert(out@[b] == e);
                        assert(old_out[a].timestamp >= old_work[m as int].timestamp);
                    }
                }
            }
        }
        proof {
            assert(work@.to_multiset() =~= Multiset::<Commit>::empty());
            assert(out@.to_multiset().add(Multiset::<Commit>::empty()) =~= out@.to_multiset());
        }
        out
    }

    /// Relies on chrono's Local::now().timestamp(): the current time in
    /// seconds since the epoch. Nothing is promised of the value.
    #[verifier::external_body]
    fn current_timestamp() -> i64 {
        chrono::Local::now().timestamp()
    }

    /// Commits the current index with the current clock time; otherwise as
    /// `commit_at`. The returned record carries the timestamp used.
    pub fn commit(&mut self, message: &str) -> (r: Result<Commit, VcsError>)
        requires
            old(self).wf(),
        ensures
            final(self).wf(),
            old(self).index_view().len() == 0 ==> *final(self) == *old(self) && (r matches Err(e)
                && e matches VcsError::EmptyIndex),
            old(self).index_view().len() > 0 ==> (r matches Ok(c) && {
                let tree_bytes = vstd::utf8::encode_utf8(index_text(old(self).index_view()));
                let th = sha1_hex(tree_bytes);
                let ct = commit_text(th, c.timestamp as int, message@);
                let cb = vstd::utf8::encode_utf8(ct);
                let id = sha1_hex(cb);
                &&& c.id@ == id
                &&& c.tree_hash@ == th
                &&& c.message@ == message@
                &&& c.author@ == author_text()
                &&& final(self).store_map() == old(self).store_map().insert(th, tree_bytes).insert(
                    id,
                    cb,
                )
                &&& final(self).commits_seq() == old(self).commits_seq().push(c)
                &&& final(self).index_view() == old(self).index_view()
                &&& final(self).head_name() == old(self).head_name()
                &&& final(self).branches_view() == stage_spec(
                    old(self).branches_view(),
                    old(self).head_name(),
                    id,
                )
            }),
    {
        let ts = Self::current_timestamp();
        self.commit_at(message, ts)
    }
}

/// The snapshot a stored commit names: the commit record is read from the
/// store and parsed, then its snapshot object is read and parsed back into
/// (path, digest) pairs. Nothing when an object is missing or malformed.
pub open spec fn snapshot_of(store: Map<Seq<char>, Seq<u8>>, cid: Seq<char>) -> Option<
    Seq<(Seq<char>, Seq<char>)>,
> {
    if !store.contains_key(cid) {
        None
    } else {
        match crate::commit::parse_commit_bytes(store[cid]) {
            None => None,
            Some(th) => {
                if !store.contains_key(th) {
                    None
                } else if !vstd::utf8::valid_utf8(store[th]) {
                    None
                } else {
                    crate::codec::parse_entries_at(vstd::utf8::decode_utf8(store[th]), 0)
                }
            },
        }
    }
}

/// The working-tree writes a snapshot asks for: each entry's path paired
/// with its blob's bytes. Nothing when a blob is missing from the store.
pub open spec fn writes_of(
    store: Map<Seq<char>, Seq<u8>>,
    es: Seq<(Seq<char>, Seq<char>)>,
) -> Option<Seq<(Seq<char>, Seq<u8>)>>
    decreases es.len(),
{
    if es.len() == 0 {
        Some(Seq::empty())
    } else if !store.contains_key(es[0].1) {
        None
    } else {
        match writes_of(store, es.drop_first()) {
            None => None,
            Some(rest) => Some(seq![(es[0].0, store[es[0].1])] + rest),
        }
    }
}

/// Everything restoring from a commit writes: the snapshot's entries with
/// their blob contents. Nothing when any object on the way is missing or
/// malformed.
pub open spec fn restore_plan(store: Map<Seq<char>, Seq<u8>>, cid: Seq<char>) -> Option<
    Seq<(Seq<char>, Seq<u8>)>,
> {
    match snapshot_of(store, cid) {
        None => None,
        Some(es) => writes_of(store, es),
    }
}

/// The digest of the snapshot object a commit of this staged set stores.
pub open spec fn tree_digest(ix: Seq<(Seq<char>, Seq<char>)>) -> Seq<char> {
    sha1_hex(vstd::utf8::encode_utf8(index_text(ix)))
}

/// The id of a commit of this staged set at this timestamp with this
/// message.
pub open spec fn commit_digest(ix: Seq<(Seq<char>, Seq<char>)>, ts: int, msg: Seq<char>) -> Seq<
    char,
> {
    sha1_hex(vstd::utf8::encode_utf8(commit_text(tree_digest(ix), ts, msg)))
}

/// When every entry's blob is stored, the writes are exactly the entries
/// paired with their blobs.
pub proof fn lemma_writes_of_all_present(
    store: Map<Seq<char>, Seq<u8>>,
    es: Seq<(Seq<char>, Seq<char>)>,
)
    requires
        forall|k: int| 0 <= k < es.len() ==> store.contains_key((#[trigger] es[k]).1),
    ensures
        writes_of(store, es) == Some(
            Seq::new(es.len(), |k: int| (es[k].0, store[es[k].1])),
        ),
    decreases es.len(),
{
    if es.len() == 0 {
        assert(Seq::new(es.len(), |k: int| (es[k].0, store[es[k].1])) =~= Seq::<
            (Seq<char>, Seq<u8>),
        >::empty());
    } else {
        let rest = es.drop_first();
        assert forall|k: int| 0 <= k < rest.len() implies store.contains_key(
            (#[trigger] rest[k]).1,
        ) by {
            assert(rest[k] == es[k + 1]);
        }
        lemma_writes_of_all_present(store, rest);
        assert(seq![(es[0].0, store[es[0].1])] + Seq::new(
            rest.len(),
            |k: int| (rest[k].0, store[rest[k].1]),
        ) =~= Seq::new(es.len(), |k: int| (es[k].0, store[es[k].1])));
    }
}

/// Round trip: committing a staged set and then restoring from that
/// commit's snapshot writes exactly the staged paths, each with the bytes
/// whose digest was staged. The digests of the snapshot and commit objects
/// must not collide with any staged blob digest or each other, and the
/// digest of the snapshot text is a real digest of twenty bytes — both hold
/// of every digest the engine itself computes.
pub proof fn lemma_commit_restore_round_trip(
    store0: Map<Seq<char>, Seq<u8>>,
    ix: Seq<(Seq<char>, Seq<char>)>,
    ts: int,
    msg: Seq<char>,
)
    requires
        crate::digest::sha1_of(vstd::utf8::encode_utf8(index_text(ix))).len() == 20,
        index_text(ix).len() <= usize::MAX,
        forall|k: int| 0 <= k < ix.len() ==> store0.contains_key((#[trigger] ix[k]).1),
        forall|k: int|
            0 <= k < ix.len() ==> (#[trigger] ix[k]).1 != tree_digest(ix) && ix[k].1
                != commit_digest(ix, ts, msg),
        tree_digest(ix) != commit_digest(ix, ts, msg),
    ensures
        restore_plan(
            store0.insert(tree_digest(ix), vstd::utf8::encode_utf8(index_text(ix))).insert(
                commit_digest(ix, ts, msg),
                vstd::utf8::encode_utf8(commit_text(tree_digest(ix), ts, msg)),
            ),
            commit_digest(ix, ts, msg),
        ) == Some(Seq::new(ix.len(), |k: int| (ix[k].0, store0[ix[k].1]))),
{
    broadcast use vstd::utf8::encode_utf8_valid_utf8, vstd::utf8::encode_utf8_decode_utf8;

    let text = index_text(ix);
    let tb = vstd::utf8::encode_utf8(text);
    let th = tree_digest(ix);
    crate::digest::lemma_hex_of_chars(crate::digest::sha1_of(tb));
    assert(th.len() == 40);
    let ct = commit_text(th, ts, msg);
    let cb = vstd::utf8::encode_utf8(ct);
    let id = commit_digest(ix, ts, msg);
    let store1 = store0.insert(th, tb).insert(id, cb);
    assert(store1.contains_key(id) && store1[id] == cb);
    crate::commit::lemma_parse_commit_round_trip(th, ts, msg);
    assert(crate::commit::parse_commit_bytes(cb) == Some(th));
    assert(store1.contains_key(th) && store1[th] == tb);
    assert(vstd::utf8::valid_utf8(tb));
    assert(vstd::utf8::decode_utf8(tb) == text);
    assert(text.subrange(0, text.len() as int) =~= text);
    crate::codec::lemma_parse_index_text(text, 0, ix);
    assert(crate::codec::parse_entries_at(text, 0) == Some(ix));
    assert(snapshot_of(store1, id) == Some(ix));
    assert forall|k: int| 0 <= k < ix.len() implies store1.contains_key(
        (#[trigger] ix[k]).1,
    ) && store1[ix[k].1] == store0[ix[k].1] by {
        assert(ix[k].1 != th && ix[k].1 != id);
    }
    lemma_writes_of_all_present(store1, ix);
    assert(Seq::new(ix.len(), |k: int| (ix[k].0, store1[ix[k].1])) =~= Seq::new(
        ix.len(),
        |k: int| (ix[k].0, store0[ix[k].1]),
    ));
}

/// The digest the first snapshot entry for path `p` names, front to back.
pub open spec fn find_entry(es: Seq<(Seq<char>, Seq<char>)>, p: Seq<char>) -> Option<Seq<char>>
    decreases es.len(),
{
    if es.len() == 0 {
        None
    } else if es[0].0 == p {
        Some(es[0].1)
    } else {
        find_entry(es.drop_first(), p)
    }
}

/// What a checkout did: reported the branch as already active, switched to
/// it with a list of working-tree writes, or restored one file.
pub enum CheckoutOutcome {
    /// The target is the active branch; nothing changed.
    AlreadyOn,
    /// HEAD moved to the target branch; the files to write follow.
    SwitchedBranch(Vec<(String, Vec<u8>)>),
    /// The target named a path; one file is to be written.
    RestoredFile(String, Vec<u8>),
}

impl Repository {
    /// Computes the working-tree writes that restore the snapshot of the
    /// given commit: for every snapshot entry, the path and its blob's
    /// bytes. Files absent from the snapshot are left alone, so none appear.
    pub fn restore_snapshot(&self, commit_id: &String) -> (r: Result<
        Vec<(String, Vec<u8>)>,
        VcsError,
    >)
        requires
            self.wf(),
        ensures
            r is Ok <==> restore_plan(self.store_map(), commit_id@) is Some,
            r matches Ok(w) ==> restore_plan(self.store_map(), commit_id@) == Some(files_view(w@)),
            !self.store_map().contains_key(commit_id@) ==> (r matches Err(e) && e matches
                VcsError::ObjectNotFound(_)),
            self.store_map().contains_key(commit_id@) && crate::commit::parse_commit_bytes(
                self.store_map()[commit_id@],
            ) is None ==> (r matches Err(e) && e matches VcsError::MalformedRecord(_)),
            self.store_map().contains_key(commit_id@) && (crate::commit::parse_commit_bytes(
                self.store_map()[commit_id@],
            ) matches Some(th) && !self.store_map().contains_key(th)) ==> (r matches Err(e)
                && e matches VcsError::ObjectNotFound(_)),
            self.store_map().contains_key(commit_id@) && (crate::commit::parse_commit_bytes(
                self.store_map()[commit_id@],
            ) matches Some(th) && self.store_map().contains_key(th)) && snapshot_of(
                self.store_map(),
                commit_id@,
            ) is None ==> (r matches Err(e) && e matches VcsError::MalformedRecord(_)),
            snapshot_of(self.store_map(), commit_id@) is Some && restore_plan(
                self.store_map(),
                commit_id@,
            ) is None ==> (r matches Err(e) && e matches VcsError::ObjectNotFound(_)),
            r matches Err(e) ==> (e matches VcsError::ObjectNotFound(_) || e matches
                VcsError::MalformedRecord(_)),
    {
        let commit_bytes = match self.store.read_object(commit_id) {
            Err(e) => {
                return Err(e);
            },
            Ok(b) => b,
        };
        let tree_hash = match crate::commit::parse_commit(commit_bytes.as_slice()) {
            Err(e) => {
                return Err(e);
            },
            Ok(t) => t,
        };
        proof {
            assert(crate::commit::parse_commit_bytes(self.store_map()[commit_id@]) == Some(
                tree_hash@,
            ));
        }
        let tree_bytes = match self.store.read_object(&tree_hash) {
            Err(e) => {
                assert(snapshot_of(self.store_map(), commit_id@) is None);
                return Err(e);
            },
            Ok(b) => b,
        };
        let tree_text = match crate::codec::bytes_to_string(tree_bytes.as_slice()) {
            None => {
                assert(snapshot_of(self.store_map(), commit_id@) is None);
                return Err(VcsError::MalformedRecord(tree_hash));
            },
            Some(t) => t,
        };
        let entries = match crate::codec::parse_index(tree_text.as_str()) {
            Err(e) => {
                assert(snapshot_of(self.store_map(), commit_id@) is None);
                return Err(e);
            },
            Ok(es) => es,
        };
        let ghost es = crate::index::entries_view(entries@);
        assert(snapshot_of(self.store_map(), commit_id@) == Some(es));
        let mut out: Vec<(String, Vec<u8>)> = Vec::new();
        let mut i: usize = 0;
        proof {
            assert(es.skip(0) =~= es);
            assert(files_view(out@) =~= Seq::<(Seq<char>, Seq<u8>)>::empty());
        }
        while i < entries.len()
            invariant
                i <= entries@.len(),
                es == crate::index::entries_view(entries@),
                self.wf(),
                snapshot_of(self.store_map(), commit_id@) == Some(es),
                writes_of(self.store_map(), es.skip(i as int)) matches Some(rest) ==> writes_of(
                    self.store_map(),
                    es,
                ) == Some(files_view(out@) + rest),
                writes_of(self.store_map(), es.skip(i as int)) is None ==> writes_of(
                    self.store_map(),
                    es,
                ) is None,
            decreases entries@.len() - i,
        {
            let ghost rest = es.skip(i as int);
            proof {
                assert(rest[0] == es[i as int]);
                assert(rest.drop_first() =~= es.skip(i + 1 as int));
            }
            let ghost old_out = files_view(out@);
            let blob = match self.store.read_object(&entries[i].hash) {
                Err(e) => {
                    assert(writes_of(self.store_map(), rest) is None);
                    return Err(e);
                },
                Ok(b) => b,
            };
            out.push((entries[i].path.clone(), blob));
            proof {
                assert(files_view(out@) =~= old_out.push(
                    (es[i as int].0, self.store_map()[es[i as int].1]),
                ));
                match writes_of(self.store_map(), es.skip(i + 1 as int)) {
                    Some(r2) => {
                        assert(writes_of(self.store_map(), rest) == Some(
                            seq![(es[i as int].0, self.store_map()[es[i as int].1])] + r2,
                        ));
                        assert(old_out + (seq![
                            (es[i as int].0, self.store_map()[es[i as int].1]),
                        ] + r2) =~= files_view(out@) + r2);
                    },
                    None => {
                        assert(writes_of(self.store_map(), rest) is None);
                    },
                }
            }
            i = i + 1;
        }
        proof {
            assert(es.skip(es.len() as int) =~= Seq::<(Seq<char>, Seq<char>)>::empty());
            assert(files_view(out@) + Seq::<(Seq<char>, Seq<u8>)>::empty() =~= files_view(out@));
        }
        Ok(out)
    }

    /// Resolves the active branch's commit, its snapshot, and the entry
    /// whose path equals the separator-normalized `path` exactly; the write
    /// that restores that one file. Fails with `PathNotInSnapshot` when no
    /// entry matches.
    pub fn restore_single_path(&self, path: &str) -> (r: Result<(String, Vec<u8>), VcsError>)
        requires
            self.wf(),
        ensures
            ({
                let cid = self.head_commit_id();
                let norm = normalize_spec(path@);
                &&& (!self.store_map().contains_key(cid) ==> (r matches Err(e) && e matches
                    VcsError::ObjectNotFound(_)))
                &&& (snapshot_of(self.store_map(), cid) matches Some(es) ==> {
                    &&& (find_entry(es, norm) is None ==> (r matches Err(e) && (e matches
                        VcsError::PathNotInSnapshot(s) && s@ == path@)))
                    &&& (find_entry(es, norm) matches Some(h) ==> {
                        &&& (self.store_map().contains_key(h) ==> (r matches Ok(w) && w.0@ == norm
                            && w.1@ == self.store_map()[h]))
                        &&& (!self.store_map().contains_key(h) ==> (r matches Err(e) && e matches
                            VcsError::ObjectNotFound(_)))
                    })
                })
                &&& (snapshot_of(self.store_map(), cid) is None ==> (r is Err))
            }),
    {
        let head = self.head.clone();
        let commit_id = match self.read_branch_commit(head.as_str()) {
            Ok(c) => c,
            Err(_) => {
                proof {
                    assert(has_path(self.branches_view(), self.head_name()));
                    assert(false);
                }
                return Err(VcsError::IoFailure(String::new()));
            },
        };
        let commit_bytes = match self.store.read_object(&commit_id) {
            Err(e) => {
                return Err(e);
            },
            Ok(b) => b,
        };
        let tree_hash = match crate::commit::parse_commit(commit_bytes.as_slice()) {
            Err(e) => {
                return Err(e);
            },
            Ok(t) => t,
        };
        proof {
            assert(commit_id@ == self.head_commit_id());
            assert(crate::commit::parse_commit_bytes(self.store_map()[commit_id@]) == Some(
                tree_hash@,
            ));
        }
        let tree_bytes = match self.store.read_object(&tree_hash) {
            Err(e) => {
                assert(snapshot_of(self.store_map(), self.head_commit_id()) is None);
                return Err(e);
            },
            Ok(b) => b,
        };
        let tree_text = match crate::codec::bytes_to_string(tree_bytes.as_slice()) {
            None => {
                assert(snapshot_of(self.store_map(), self.head_commit_id()) is None);
                return Err(VcsError::MalformedRecord(tree_hash));
            },
            Some(t) => t,
        };
        let entries = match crate::codec::parse_index(tree_text.as_str()) {
            Err(e) => {
                assert(snapshot_of(self.store_map(), self.head_commit_id()) is None);
                return Err(e);
            },
            Ok(es) => es,
        };
        let ghost es = crate::index::entries_view(entries@);
        assert(snapshot_of(self.store_map(), self.head_commit_id()) == Some(es));
        let norm = normalize_path(path);
        let mut i: usize = 0;
        proof {
            assert(es.skip(0) =~= es);
        }
        while i < entries.len()
            invariant
                i <= entries@.len(),
                es == crate::index::entries_view(entries@),
                norm@ == normalize_spec(path@),
                self.wf(),
                snapshot_of(self.store_map(), self.head_commit_id()) == Some(es),
                find_entry(es, norm@) == find_entry(es.skip(i as int), norm@),
            decreases entries@.len() - i,
        {
            let ghost rest = es.skip(i as int);
            proof {
                assert(rest[0] == es[i as int]);
                assert(rest.drop_first() =~= es.skip(i + 1 as int));
            }
            if entries[i].path == norm {
                assert(find_entry(es, norm@) == Some(es[i as int].1));
                match self.store.read_object(&entries[i].hash) {
                    Err(e) => {
                        return Err(e);
                    },
                    Ok(b) => {
                        return Ok((norm, b));
                    },
                }
            }
            assert(es[i as int].0 != norm@);
            i = i + 1;
        }
        proof {
            assert(es.skip(es.len() as int) =~= Seq::<(Seq<char>, Seq<char>)>::empty());
        }
        Err(VcsError::PathNotInSnapshot(String::from_str(path)))
    }

    /// Checks a target out. A target that names an existing branch always
    /// switches to that branch, even when a file of the same name exists:
    /// switching to the active branch reports `AlreadyOn` and changes
    /// nothing, and switching to another branch moves HEAD there and yields
    /// the writes that restore its snapshot. Any other target is treated as
    /// a path and restored from the active branch's snapshot.
    pub fn checkout(&mut self, target: &str) -> (r: Result<CheckoutOutcome, VcsError>)
        requires
            old(self).wf(),
        ensures
            final(self).wf(),
            final(self).store_map() == old(self).store_map(),
            final(self).index_view() == old(self).index_view(),
            final(self).branches_view() == old(self).branches_view(),
            final(self).commits_seq() == old(self).commits_seq(),
            has_path(old(self).branches_view(), target@) && target@ == old(self).head_name()
                ==> *final(self) == *old(self) && (r matches Ok(o) && o matches
                CheckoutOutcome::AlreadyOn),
            has_path(old(self).branches_view(), target@) && target@ != old(self).head_name() ==> {
                let cid = old(self).branches_view()[path_index(
                    old(self).branches_view(),
                    target@,
                )].1;
                &&& final(self).head_name() == target@
                &&& (r matches Ok(o) ==> (o matches CheckoutOutcome::SwitchedBranch(w)
                    && restore_plan(old(self).store_map(), cid) == Some(files_view(w@))))
                &&& (r is Err <==> restore_plan(old(self).store_map(), cid) is None)
            },
            !has_path(old(self).branches_view(), target@) && (snapshot_of(
                old(self).store_map(),
                old(self).head_commit_id(),
            ) matches Some(es) && find_entry(es, normalize_spec(target@)) is None) ==> (r matches
                Err(e) && (e matches VcsError::PathNotInSnapshot(t) && t@ == target@)),
            !has_path(old(self).branches_view(), target@) ==> *final(self) == *old(self) && (
            r matches Ok(o) ==> (o matches CheckoutOutcome::RestoredFile(p, b) && {
                let cid = old(self).head_commit_id();
                let norm = normalize_spec(target@);
                &&& snapshot_of(old(self).store_map(), cid) matches Some(es)
                &&& find_entry(snapshot_of(old(self).store_map(), cid)->0, norm) matches Some(h)
                &&& old(self).store_map().contains_key(h)
                &&& p@ == norm
                &&& b@ == old(self).store_map()[h]
            })),
    {
        match self.find_branch(target) {
            Some(i) => {
                proof {
                    self.lemma_unique_branch_index(target@, i as int);
                }
                let key = String::from_str(target);
                if key == self.head {
                    return Ok(CheckoutOutcome::AlreadyOn);
                }
                let commit_id = self.branches[i].commit_id.clone();
                self.head = key;
                proof {
                    assert(self.branches_view() =~= old(self).branches_view());
                    assert(has_path(self.branches_view(), self.head_name()));
                }
                match self.restore_snapshot(&commit_id) {
                    Ok(w) => Ok(CheckoutOutcome::SwitchedBranch(w)),
                    Err(e) => Err(e),
                }
            },
            None => {
                match self.restore_single_path(target) {
                    Ok((p, b)) => Ok(CheckoutOutcome::RestoredFile(p, b)),
                    Err(e) => Err(e),
                }
            },
        }
    }
}

/// True of persisted state that a repository handle can be rebuilt from:
/// every object sits under the digest of its bytes, index paths are unique,
/// branch names are unique and valid, the default branch exists, and the
/// HEAD name is among the branches.
pub open spec fn loadable(
    objs: Seq<(Seq<char>, Seq<u8>)>,
    ix: Seq<(Seq<char>, Seq<char>)>,
    bs: Seq<(Seq<char>, Seq<char>)>,
    head: Seq<char>,
) -> bool {
    &&& forall|k: int| 0 <= k < objs.len() ==> (#[trigger] objs[k]).0 == sha1_hex(objs[k].1)
    &&& distinct_paths(ix)
    &&& distinct_paths(bs)
    &&& forall|k: int| 0 <= k < bs.len() ==> valid_branch_name((#[trigger] bs[k]).0)
    &&& has_path(bs, default_branch())
    &&& has_path(bs, head)
}

impl Repository {
    /// Rebuilds a repository handle from persisted state, checking every
    /// invariant on the way in; nothing when the state is not a repository's.
    pub fn load(
        objects: Vec<(String, Vec<u8>)>,
        index_entries: Vec<IndexEntry>,
        branches: Vec<Branch>,
        head: String,
        commits: Vec<Commit>,
    ) -> (r: Option<Repository>)
        ensures
            r is Some <==> loadable(
                files_view(objects@),
                crate::index::entries_view(index_entries@),
                branch_pairs(branches@),
                head@,
            ),
            r matches Some(repo) ==> {
                &&& repo.wf()
                &&& repo.store_map() == crate::store::assoc_map(files_view(objects@))
                &&& repo.index_view() == crate::index::entries_view(index_entries@)
                &&& repo.branches_view() == branch_pairs(branches@)
                &&& repo.head_name() == head@
                &&& repo.commits_seq() == commits@
            },
    {
        let ghost ov = files_view(objects@);
        let ghost bv = branch_pairs(branches@);
        let mut store = crate::store::ObjectStore::new();
        let mut i: usize = 0;
        proof {
            assert(ov.take(0) =~= Seq::<(Seq<char>, Seq<u8>)>::empty());
            assert(crate::store::assoc_map(ov.take(0)) =~= Map::<Seq<char>, Seq<u8>>::empty());
        }
        while i < objects.len()
            invariant
                i <= objects@.len(),
                ov == files_view(objects@),
                store.wf(),
                store.as_map() == crate::store::assoc_map(ov.take(i as int)),
                forall|k: int| 0 <= k < i ==> (#[trigger] ov[k]).0 == sha1_hex(ov[k].1),
            decreases objects@.len() - i,
        {
            let content = vstd::slice::slice_to_vec(objects[i].1.as_slice());
            let d = store.put(content);
            if d != objects[i].0 {
                assert(ov[i as int].0 != sha1_hex(ov[i as int].1));
                return None;
            }
            proof {
                assert(ov[i as int].0 == sha1_hex(ov[i as int].1));
                assert(ov.take(i + 1 as int).drop_last() =~= ov.take(i as int));
                assert(ov.take(i + 1 as int).last() == ov[i as int]);
                assert(store.as_map() =~= crate::store::assoc_map(ov.take(i + 1 as int)));
            }
            i = i + 1;
        }
        proof {
            assert(ov.take(objects@.len() as int) =~= ov);
        }
        let index = match crate::index::Index::from_entries(index_entries) {
            None => {
                return None;
            },
            Some(ix) => ix,
        };
        let mut a: usize = 1;
        while a < branches.len()
            invariant
                1 <= a <= branches@.len() || branches@.len() == 0,
                bv == branch_pairs(branches@),
                forall|x: int, y: int| 0 <= x < y < a ==> (#[trigger] bv[x]).0 != (
                #[trigger] bv[y]).0,
            decreases branches@.len() - a,
        {
            let mut b: usize = 0;
            while b < a
                invariant
                    b <= a < branches@.len(),
                    bv == branch_pairs(branches@),
                    forall|t: int| 0 <= t < b ==> (#[trigger] bv[t]).0 != bv[a as int].0,
                decreases a - b,
            {
                if branches[b].name == branches[a].name {
                    assert(bv[b as int].0 == bv[a as int].0);
                    assert(!distinct_paths(bv));
                    return None;
                }
                assert(bv[b as int].0 != bv[a as int].0);
                b = b + 1;
            }
            a = a + 1;
        }
        assert(distinct_paths(bv));
        let mut v: usize = 0;
        while v < branches.len()
            invariant
                v <= branches@.len(),
                bv == branch_pairs(branches@),
                forall|k: int| 0 <= k < v ==> valid_branch_name((#[trigger] bv[k]).0),
            decreases branches@.len() - v,
        {
            if !is_valid_branch_name(branches[v].name.as_str()) {
                assert(!valid_branch_name(bv[v as int].0));
                return None;
            }
            v = v + 1;
        }
        match find_branch_in(&branches, default_branch_str()) {
            None => {
                return None;
            },
            Some(_) => {},
        }
        match find_branch_in(&branches, head.as_str()) {
            None => {
                return None;
            },
            Some(_) => {},
        }
        let repo = Repository { store, index, branches, head, commits };
        proof {
            assert(bv == repo.branches_view());
        }
        Some(repo)
    }

    /// The number of stored objects; for persisting the store.
    pub fn object_count(&self) -> (r: usize)
        ensures
            r == self.store_entries().len(),
    {
        self.store.object_count()
    }

    /// The stored objects as (digest, bytes), in insertion order.
    pub closed spec fn store_entries(&self) -> Seq<(Seq<char>, Seq<u8>)> {
        self.store.entries_seq()
    }

    /// The digest and bytes of one stored object; for persisting the store.
    pub fn object_at(&self, i: usize) -> (r: (&String, &Vec<u8>))
        requires
            i < self.store_entries().len(),
        ensures
            r.0@ == self.store_entries()[i as int].0,
            r.1@ == self.store_entries()[i as int].1,
    {
        self.store.object_at(i)
    }

    /// The branch refs, in creation order; for persisting the refs.
    pub fn branch_refs(&self) -> (r: &Vec<Branch>)
        ensures
            branch_pairs(r@) == self.branches_view(),
    {
        &self.branches
    }

    /// Every commit in recording order; for persisting the log.
    pub fn all_commits(&self) -> (r: &Vec<Commit>)
        ensures
            r@ == self.commits_seq(),
    {
        &self.commits
    }

    /// The staged entries in staging order; for persisting the index.
    pub fn index_entries(&self) -> (r: &Vec<IndexEntry>)
        ensures
            crate::index::entries_view(r@) == self.index_view(),
    {
        self.index.as_entries()
    }
}

} // verus!
