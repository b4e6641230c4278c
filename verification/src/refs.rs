use vstd::prelude::*;
use crate::errors::{CommandError, ErrorType};
use crate::hash::{GitHash, valid_hash_text};
use crate::branch::{Branch, branch_names};
use crate::blob::Blob;
use crate::commit::{Commit, commit_hashes, log_text, commit_ok, stored_header, stored_time, dedup_history, stamps,
    commit_blobs_ok, files_stored};
use crate::git_object::{GitObject, ObjectStore};
use crate::tree::{entries_files, blob_readable};
use crate::text::{push_text, text_eq, views, usize_to_decimal};

verus! {

/// What `HEAD` points to: a branch, or nothing before the first commit.
pub struct BranchRef {
    branch: Option<Branch>,
    path_ref: String,
}

/// The name of an optional branch.
pub open spec fn branch_name_of(b: Option<Branch>) -> Option<Seq<char>> {
    match b {
        Some(x) => Some(x.name_view()),
        None => None,
    }
}

/// The commit hash of an optional branch.
pub open spec fn branch_hash_of(b: Option<Branch>) -> Option<Seq<char>> {
    match b {
        Some(x) => Some(x.hash_view()),
        None => None,
    }
}

impl BranchRef {
    /// The branch pointed to, if any.
    pub closed spec fn branch_view(&self) -> Option<Branch> {
        self.branch
    }

    /// The file of the reference.
    pub closed spec fn path_view(&self) -> Seq<char> {
        self.path_ref@
    }

    /// Reads a reference from the text of its file (`None` where there is no
    /// file) and the text of the branch file it names (`None` where that
    /// branch has none yet: no commit has been made on it).
    pub fn open(path_ref: &str, path_branches: &str, ref_text: Option<&str>, branch_file: Option<&str>)
        -> (r: Result<Self, ErrorType>)
        ensures
            ref_text is None ==> (r matches Err(ErrorType::RepositoryError(s)) && s@ == "Inexistent ref: "@ + path_ref@),
            ref_text is Some && branch_file is None ==> (r matches Ok(h) && h.branch_view() is None && h.path_view() == path_ref@),
            ref_text matches Some(name) ==> (branch_file matches Some(t) ==> (valid_hash_text(t@) ==> (r matches Ok(h)
                && h.path_view() == path_ref@ && (h.branch_view() matches Some(b) && b.name_view() == name@
                && b.hash_view() == t@)))),
    {
        let branch_name = match ref_text {
            None => {
                let mut msg = String::from_str("Inexistent ref: ");
                push_text(&mut msg, path_ref);
                return Err(ErrorType::RepositoryError(msg));
            },
            Some(n) => n,
        };
        if branch_file.is_none() {
            return Ok(BranchRef { branch: None, path_ref: String::from_str(path_ref) });
        }
        let branch = match Branch::open(path_branches, branch_name, branch_file) {
            Ok(b) => b,
            Err(e) => return Err(e),
        };
        Ok(BranchRef { branch: Some(branch), path_ref: String::from_str(path_ref) })
    }

    /// A reference to a branch (or to none).
    pub fn new(branch: Option<Branch>, path_ref: &str) -> (r: Self)
        ensures
            r.branch_view() == branch,
            r.path_view() == path_ref@,
    {
        BranchRef { branch, path_ref: String::from_str(path_ref) }
    }

    /// The commit pointed to, read from the store; `None` before the first
    /// commit.
    pub fn get_last_commit(&self, store: &ObjectStore) -> (r: Result<Option<Commit>, ErrorType>)
        ensures
            self.branch_view() is None ==> r matches Ok(None),
            self.branch_view() is Some ==> !(r matches Ok(None)),
            self.branch_view() matches Some(b) ==> (r is Ok <==> commit_ok(store@, b.hash_view())),
            r matches Ok(Some(c)) ==> Some(c.hash_view()) == branch_hash_of(self.branch_view()),
            r matches Ok(Some(c)) ==> files_stored(store@, c),
            r matches Ok(Some(c)) ==> (self.branch_view() matches Some(b)
                && c.parent_view() == stored_header(store@, b.hash_view()).parent
                && c.second_parent_view() == stored_header(store@, b.hash_view()).second_parent
                && c.time_view() as int == stored_time(store@, b.hash_view())),
    {
        match &self.branch {
            Some(b) => match b.get_last_commit(store) {
                Ok(c) => Ok(Some(c)),
                Err(e) => Err(e),
            },
            None => Ok(None),
        }
    }

    /// The name of the branch pointed to.
    pub fn get_branch_name(&self) -> (r: Option<String>)
        ensures
            match r {
                Some(n) => branch_name_of(self.branch_view()) == Some(n@),
                None => self.branch_view() is None,
            },
    {
        match &self.branch {
            Some(b) => Some(b.get_name()),
            None => None,
        }
    }

    /// Points the reference to a branch.
    pub fn set_branch(&mut self, branch: Branch)
        ensures
            final(self).branch_view() == Some(branch),
            final(self).path_view() == old(self).path_view(),
    {
        self.branch = Some(branch);
    }

    /// The hash of the commit pointed to.
    pub fn get_last_commit_hash(&self) -> (r: Option<GitHash>)
        ensures
            match r {
                Some(h) => branch_hash_of(self.branch_view()) == Some(h@),
                None => self.branch_view() is None,
            },
    {
        match &self.branch {
            Some(b) => Some(b.get_last_commit_hash()),
            None => None,
        }
    }

    /// Records a new commit on the branch pointed to; with no branch yet, a
    /// `master` branch is made for it. The branch's file is then to be
    /// saved.
    pub fn set_last_commit(&mut self, hash: GitHash, path_branches: &str)
        ensures
            (final(self).branch_view() matches Some(b) && b.hash_view() == hash@),
            old(self).branch_view() matches Some(ob) ==> (final(self).branch_view() matches Some(b)
                && b.name_view() == ob.name_view() && b.dir_view() == ob.dir_view()),
            old(self).branch_view() is None ==> (final(self).branch_view() matches Some(b)
                && b.name_view() == "master"@ && b.dir_view() == path_branches@),
            final(self).path_view() == old(self).path_view(),
    {
        match self.branch.take() {
            Some(mut b) => {
                b.set_last_commit_hash(hash);
                self.branch = Some(b);
            },
            None => {
                self.branch = Some(Branch::new("master", path_branches, hash));
            },
        }
    }

    /// The reference's file and what it holds, the branch's name; `None`
    /// where it points to no branch.
    pub fn save(&self) -> (r: Option<(String, String)>)
        ensures
            match r {
                Some((p, n)) => p@ == self.path_view() && branch_name_of(self.branch_view()) == Some(n@),
                None => self.branch_view() is None,
            },
    {
        match &self.branch {
            Some(b) => Some((self.path_ref.clone(), b.get_name())),
            None => None,
        }
    }

    /// The branch pointed to, if any.
    pub fn get_branch(&self) -> (r: Option<Branch>)
        ensures
            branch_name_of(r) == branch_name_of(self.branch_view()),
            branch_hash_of(r) == branch_hash_of(self.branch_view()),
    {
        match &self.branch {
            Some(b) => Some(b.clone()),
            None => None,
        }
    }

    /// The argument of `checkout`: one branch name.
    pub fn checkout_args(args: &Vec<String>) -> (r: Result<String, ErrorType>)
        ensures
            args@.len() == 1 ==> (r matches Ok(n) && n@ == args@[0]@),
            args@.len() != 1 ==> (r matches Err(ErrorType::CommandError(CommandError::IncorrectAmount(e, g)))
                && e@ == "1"@ && g == args@.len()),
    {
        if args.len() != 1 {
            return Err(ErrorType::CommandError(CommandError::IncorrectAmount(String::from_str("1"), args.len())));
        }
        Ok(args[0].clone())
    }

    /// The arguments of `switch`: the local branch to make, and the remote
    /// branch to make it from (by default one of the same name).
    pub fn switch_args(args: &Vec<String>) -> (r: Result<(String, String), ErrorType>)
        requires
            args@.len() >= 1,
        ensures
            args@.len() == 1 ==> (r matches Ok((l, rb)) && l@ == args@[0]@ && rb@ == args@[0]@),
            args@.len() == 2 ==> (r matches Ok((l, rb)) && l@ == args@[0]@ && rb@ == args@[1]@),
            args@.len() > 2 ==> (r matches Err(ErrorType::CommandError(CommandError::IncorrectAmount(e, g)))
                && e@ == "1 or 2"@ && g == args@.len()),
    {
        let local = args[0].clone();
        match args.len() {
            1 => Ok((local, args[0].clone())),
            2 => Ok((local, args[1].clone())),
            _ => Err(ErrorType::CommandError(CommandError::IncorrectAmount(String::from_str("1 or 2"), args.len()))),
        }
    }

    /// The files a checkout writes to the working directory: each file of the
    /// branch's commit with its path, hash and content.
    pub fn checkout_files(branch: &Branch, store: &ObjectStore) -> (r: Result<Vec<(String, GitHash, Blob)>, ErrorType>)
        ensures
            r matches Ok(v) ==> exists|c: Commit| c.hash_view() == branch.hash_view()
                && #[trigger] entries_files(c.tree_view().entries_view(), Seq::empty()).len() == v@.len()
                && forall|i: int| 0 <= i < v@.len() ==> (#[trigger] v@[i].0@, v@[i].1@)
                    == entries_files(c.tree_view().entries_view(), Seq::empty())[i],
            commit_ok(store@, branch.hash_view()) && commit_blobs_ok(store@, branch.hash_view()) ==> r is Ok,
            !commit_ok(store@, branch.hash_view()) ==> r is Err,
    {
        let commit = match branch.get_last_commit(store) {
            Ok(c) => c,
            Err(e) => return Err(e),
        };
        let files = commit.get_files_vec();
        let ghost listing = entries_files(commit.tree_view().entries_view(), Seq::empty());
        let ghost ok = commit_blobs_ok(store@, branch.hash_view());
        proof {
            if ok {
                crate::tree::lemma_entries_files_blobs(store@, commit.tree_view().entries_view(), Seq::empty());
            }
        }
        assert(files@.map_values(|p: (String, GitHash)| (p.0@, p.1@)) == listing);
        let mut out: Vec<(String, GitHash, Blob)> = Vec::new();
        let mut i: usize = 0;
        while i < files.len()
            invariant
                i <= files@.len(),
                out@.len() == i,
                files@.map_values(|p: (String, GitHash)| (p.0@, p.1@)) == listing,
                forall|j: int| 0 <= j < i ==> (#[trigger] out@[j].0@, out@[j].1@) == listing[j],
                ok == commit_blobs_ok(store@, branch.hash_view()),
                ok ==> forall|j: int| 0 <= j < listing.len() ==> blob_readable(store@, #[trigger] listing[j].1),
            decreases files.len() - i,
        {
            let (path, hash) = &files[i];
            assert(listing[i as int] == (path@, hash@));
            proof {
                if ok {
                    assert(blob_readable(store@, listing[i as int].1));
                }
            }
            let blob = match GitObject::read_blob(hash, store) {
                Ok(b) => b,
                Err(e) => return Err(e),
            };
            assert(listing[i as int] == (path@, hash@));
            out.push((path.clone(), hash.clone(), blob));
            i = i + 1;
        }
        assert(listing.len() == out@.len());
        assert(forall|k: int| 0 <= k < out@.len() ==> (#[trigger] out@[k].0@, out@[k].1@) == listing[k]);
        Ok(out)
    }

    /// The `log` command: the history of the commit the head points to, each
    /// commit shown with the references that point to it (`HEAD`, and the
    /// first branch found at it). Returns the number of commits and the text
    /// to show; an error before the first commit.
    pub fn log_command(head: &BranchRef, branches: &Vec<(String, GitHash)>, store: &ObjectStore)
        -> (r: Result<(usize, String), ErrorType>)
        ensures
            head.branch_view() is None ==> r matches Err(ErrorType::RepositoryError(_)),
            head.branch_view() matches Some(b) ==> (r is Ok <==> commit_ok(store@, b.hash_view())
                && dedup_history(store@, b.hash_view(), usize::MAX as nat) is Some),
            r matches Ok((n, t)) ==> exists|hist: Seq<Commit>| #[trigger] log_listing(hist, branch_hash_of(head.branch_view()),
                branches@) == t@ && hist.len() == n && n >= 1
                && Some(hist[0].hash_view()) == branch_hash_of(head.branch_view())
                && commit_hashes(hist).no_duplicates()
                && (head.branch_view() matches Some(b)
                    && dedup_history(store@, b.hash_view(), usize::MAX as nat) == Some(stamps(hist))),
    {
        let commit = match head.get_last_commit(store) {
            Ok(Some(c)) => c,
            Ok(None) => return Err(ErrorType::RepositoryError(String::from_str(
                "your current branch doesnt have commits yet",
            ))),
            Err(e) => return Err(e),
        };
        let history = match commit.get_commits_history(store) {
            Ok(h) => h,
            Err(e) => return Err(e),
        };
        let head_hash = head.get_last_commit_hash();
        let ghost head_view = branch_hash_of(head.branch_view());
        let mut text = String::new();
        let mut i: usize = 0;
        assert(history@.subrange(0, 0) =~= Seq::<Commit>::empty());
        while i < history.len()
            invariant
                i <= history@.len(),
                head_view == branch_hash_of(head.branch_view()),
                match head_hash { Some(h) => head_view == Some(h@), None => head_view is None },
                text@ == log_listing(history@.subrange(0, i as int), head_view, branches@),
            decreases history.len() - i,
        {
            let c = &history[i];
            let refs = Self::commit_refs(&head_hash, branches, &c.get_hash());
            let shown = c.log_display(&refs);
            push_text(&mut text, shown.as_str());
            push_text(&mut text, "\n");
            proof {
                reveal_strlit("\n");
                let next = history@.subrange(0, i + 1);
                assert(next.drop_last() =~= history@.subrange(0, i as int));
                assert(next.last() == *c);
                assert(views(refs@) == shown_refs(head_view, branches@, c.hash_view()));
            }
            i = i + 1;
        }
        assert(history@.subrange(0, history@.len() as int) =~= history@);
        Ok((history.len(), text))
    }

    /// The references shown beside a commit in `log`: `HEAD` where the head
    /// points to it, and the name of the first branch that does.
    pub fn commit_refs(head_hash: &Option<GitHash>, branches: &Vec<(String, GitHash)>, hash: &GitHash) -> (r: Vec<String>)
        ensures
            views(r@) == (if head_hash matches Some(h) && h@ == hash@ { seq!["HEAD"@] } else { Seq::empty() })
                + match first_branch_at(branches@, hash@) { Some(n) => seq![n], None => Seq::empty() },
    {
        let mut refs: Vec<String> = Vec::new();
        if let Some(h) = head_hash {
            if h.same_as(hash) {
                refs.push(String::from_str("HEAD"));
            }
        }
        let ghost before = views(refs@);
        proof { reveal_strlit("HEAD"); }
        assert(before =~= (if head_hash matches Some(h) && h@ == hash@ { seq!["HEAD"@] } else { Seq::<Seq<char>>::empty() }));
        let mut i: usize = 0;
        assert(branches@.subrange(0, branches@.len() as int) =~= branches@);
        while i < branches.len()
            invariant
                i <= branches@.len(),
                views(refs@) == before,
                before == (if head_hash matches Some(h) && h@ == hash@ { seq!["HEAD"@] } else { Seq::<Seq<char>>::empty() }),
                first_branch_at(branches@, hash@) == first_branch_at(branches@.subrange(i as int, branches@.len() as int), hash@),
            decreases branches.len() - i,
        {
            proof {
                let rest = branches@.subrange(i as int, branches@.len() as int);
                assert(rest[0] == branches@[i as int]);
                assert(rest.drop_first() =~= branches@.subrange(i + 1, branches@.len() as int));
            }
            if branches[i].1.same_as(hash) {
                refs.push(branches[i].0.clone());
                assert(views(refs@) =~= before.push(branches@[i as int].0@));
                return refs;
            }
            i = i + 1;
        }
        assert(views(refs@) =~= before + Seq::<Seq<char>>::empty());
        refs
    }
}

/// The name of the first branch of a list that points to a commit.
pub open spec fn first_branch_at(branches: Seq<(String, GitHash)>, hash: Seq<char>) -> Option<Seq<char>>
    decreases branches.len(),
{
    if branches.len() == 0 {
        None
    } else if branches[0].1@ == hash {
        Some(branches[0].0@)
    } else {
        first_branch_at(branches.drop_first(), hash)
    }
}

/// The references `log` shows beside a commit: `HEAD` where the head
/// points to it, and the first branch at it.
pub open spec fn shown_refs(head: Option<Seq<char>>, branches: Seq<(String, GitHash)>, hash: Seq<char>) -> Seq<Seq<char>> {
    (if head matches Some(h) && h == hash { seq!["HEAD"@] } else { Seq::empty() })
        + match first_branch_at(branches, hash) { Some(n) => seq![n], None => Seq::empty() }
}

/// What `log` shows of a history: each commit as `log_display` shows it,
/// followed by an empty line.
pub open spec fn log_listing(hist: Seq<Commit>, head: Option<Seq<char>>, branches: Seq<(String, GitHash)>) -> Seq<char>
    decreases hist.len(),
{
    if hist.len() == 0 {
        Seq::empty()
    } else {
        let c = hist.last();
        log_listing(hist.drop_last(), head, branches) + log_text(c.hash_view(), shown_refs(head, branches, c.hash_view()),
            c.author_view().name, c.author_view().mail, c.date_text_view(), c.message_view()) + "\n"@
    }
}

} // verus!
