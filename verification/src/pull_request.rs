use vstd::prelude::*;
use crate::errors::{ErrorType, HTTPError};
use crate::branch::Branch;
use crate::commit::{Commit, commit_hashes, first_common, histories_of, commit_ok, stored_common_ancestor, dedup_history, stamps, stamp};
use crate::config::RepoConfig;
use crate::git_object::ObjectStore;
use crate::hash::valid_hash_text;
use crate::merge::{Merge, compare_commits, blob_pairs, holds_commit, stored_compare};
use crate::user::User;
use crate::blob::Blob;
use crate::text::{lines, push_text, text_eq, usize_to_decimal, decimal, parse_usize_radix, parse_usize_spec,
    strip_suffix_or_same, strip_suffix_or_self, join_strings, join_with};

verus! {

/// A pull request of a server repository: it asks for the target branch to
/// be merged into the base branch.
pub struct PullRequest {
    pub number: usize,
    pub title: String,
    pub state: String,
    pub branch_base: String,
    pub branch_target: String,
    pub hash_creation_commit: String,
}

/// The number a pull request's file name gives, its `.json` suffix left out.
pub open spec fn pr_file_number(name: Seq<char>) -> Option<nat> {
    parse_usize_spec(strip_suffix_or_self(name, ".json"@), 10)
}

/// The highest number among the first `n` file names, or the first name
/// that is no number.
pub open spec fn highest_number_upto(names: Seq<Seq<char>>, n: nat) -> Result<nat, Seq<char>>
    decreases n,
{
    if n == 0 {
        Ok(0)
    } else {
        match highest_number_upto(names, (n - 1) as nat) {
            Ok(h) => match pr_file_number(names[n - 1]) {
                Some(v) => Ok(if v > h { v } else { h }),
                None => Err(names[n - 1]),
            },
            Err(e) => Err(e),
        }
    }
}

/// Whether a branch file's text can be opened as a branch.
pub open spec fn opens(file: Option<&str>) -> bool {
    match file {
        Some(t) => valid_hash_text(t@),
        None => false,
    }
}

/// The text of a branch's file, where it has one.
pub open spec fn file_text(file: Option<&str>) -> Seq<char> {
    match file {
        Some(t) => t@,
        None => Seq::empty(),
    }
}

/// Whether both branches open and their commits can be read from the store.
pub open spec fn tips_ok(base_file: Option<&str>, target_file: Option<&str>, store: Map<Seq<char>, Seq<u8>>) -> bool {
    opens(base_file) && opens(target_file) && commit_ok(store, file_text(base_file))
        && commit_ok(store, file_text(target_file))
}

/// The texts of a list of strings.
pub open spec fn texts(v: Seq<String>) -> Seq<Seq<char>> {
    v.map_values(|s: String| s@)
}

/// The paths of a list of files with their blobs.
pub open spec fn blob_paths(v: Seq<(Seq<char>, Seq<char>)>) -> Seq<Seq<char>> {
    v.map_values(|p: (Seq<char>, Seq<char>)| p.0)
}

/// The highest number among the names of the pull request files; an error
/// where the directory could not be read (`None`) or a name is no number.
pub fn get_highest_pr_number(names: Option<&Vec<String>>, pull_requests_path: &str) -> (r: Result<usize, ErrorType>)
    ensures
        names is None ==> (r matches Err(ErrorType::RepositoryError(m))
            && m@ == "Error reading pull request directory: "@ + pull_requests_path@),
        names matches Some(v) ==> match highest_number_upto(texts(v@), v@.len()) {
            Ok(h) => r matches Ok(x) && x as nat == h,
            Err(bad) => r matches Err(ErrorType::HTTPError(HTTPError::BadRequest(m)))
                && m@ == "Invalid PullRequest name: "@ + bad,
        },
{
    let v = match names {
        Some(v) => v,
        None => {
            let mut m = String::from_str("Error reading pull request directory: ");
            push_text(&mut m, pull_requests_path);
            return Err(ErrorType::RepositoryError(m));
        },
    };
    let ghost t = texts(v@);
    let mut highest: usize = 0;
    let mut k: usize = 0;
    while k < v.len()
        invariant
            k <= v@.len(),
            names == Some(v),
            t == texts(v@),
            highest_number_upto(t, k as nat) == Ok::<nat, Seq<char>>(highest as nat),
        decreases v.len() - k,
    {
        let name = v[k].as_str();
        assert(t[k as int] == name@);
        let stripped = strip_suffix_or_same(name, ".json");
        let number = match parse_usize_radix(stripped.as_str(), 10) {
            Ok(n) => n,
            Err(_) => {
                let mut m = String::from_str("Invalid PullRequest name: ");
                push_text(&mut m, name);
                proof { lemma_highest_err_stays(t, (k + 1) as nat, t.len()); }
                return Err(ErrorType::HTTPError(HTTPError::BadRequest(m)));
            },
        };
        if number > highest {
            highest = number;
        }
        k = k + 1;
    }
    Ok(highest)
}

/// Once a name is no number, the error stays for longer prefixes.
proof fn lemma_highest_err_stays(names: Seq<Seq<char>>, n: nat, m: nat)
    requires
        highest_number_upto(names, n) is Err,
        n <= m,
    ensures
        highest_number_upto(names, m) == highest_number_upto(names, n),
    decreases m - n,
{
    if n < m {
        lemma_highest_err_stays(names, n, (m - 1) as nat);
    }
}

/// Opens one of the branches a pull request names: an error that says it
/// must have been deleted where it cannot be opened.
fn open_branch(path_branches: &str, branch_name: &str, file_text: Option<&str>) -> (r: Result<Branch, ErrorType>)
    ensures
        opens(file_text) ==> (r matches Ok(b) && b.name_view() == branch_name@ && b.dir_view() == path_branches@
            && (file_text matches Some(t) && b.hash_view() == t@)),
        !opens(file_text) ==> (r matches Err(ErrorType::RepositoryError(m))
            && m@ == "Branch "@ + branch_name@ + " not found, must have been deleted"@),
{
    match Branch::open(path_branches, branch_name, file_text) {
        Ok(b) => Ok(b),
        Err(_) => {
            let mut m = String::from_str("Branch ");
            push_text(&mut m, branch_name);
            push_text(&mut m, " not found, must have been deleted");
            Err(ErrorType::RepositoryError(m))
        },
    }
}

/// The error that a branch of the request was not found.
fn branch_not_found(name: &str) -> (r: ErrorType)
    ensures
        r matches ErrorType::HTTPError(HTTPError::NotFound(m)) && m@ == "Branch "@ + name@ + " not found"@,
{
    let mut m = String::from_str("Branch ");
    push_text(&mut m, name);
    push_text(&mut m, " not found");
    ErrorType::HTTPError(HTTPError::NotFound(m))
}

/// Whether merging the target's commit into the base's, given their last
/// common ancestor, leaves no file in conflict.
pub open spec fn merges_cleanly(base: Commit, target: Commit, ancestor: Commit, store: Map<Seq<char>, Seq<u8>>) -> bool {
    compare_commits(base, target, ancestor, store) matches Some((_, c)) && c.len() == 0
}

/// Whether merging the commit stored under `target` into the one stored
/// under `base`, over their ancestor `a`, leaves no file in conflict.
pub open spec fn stored_merge_clean(store: Map<Seq<char>, Seq<u8>>, base: Seq<char>, target: Seq<char>, a: Seq<char>) -> bool {
    stored_compare(store, base, target, a) matches Some((_, c)) && c.len() == 0
}

impl PullRequest {
    /// Creates a pull request to merge the target branch into the base branch
    /// (each read from its file's text, `None` where it has none). Its number
    /// follows the highest one among the existing pull request files, its
    /// title is the one given or names both branches, it is open, and it
    /// records the target's commit. An error where a branch cannot be opened,
    /// its commits cannot be read or the two share no commit. The pull
    /// request's file is to be written afterwards.
    pub fn create_pull_request(
        base_name: &str,
        target_name: &str,
        title: Option<String>,
        base_file: Option<&str>,
        target_file: Option<&str>,
        path_branches: &str,
        store: &ObjectStore,
        pr_names: Option<&Vec<String>>,
        pull_requests_path: &str,
    ) -> (r: Result<Self, ErrorType>)
        requires
            pr_names matches Some(v) ==> (highest_number_upto(texts(v@), v@.len()) matches Ok(h) ==> h < usize::MAX),
        ensures
            !opens(base_file) ==> (r matches Err(ErrorType::HTTPError(HTTPError::NotFound(m)))
                && m@ == "Branch "@ + base_name@ + " not found"@),
            opens(base_file) && !opens(target_file) ==> (r matches Err(ErrorType::HTTPError(HTTPError::NotFound(m)))
                && m@ == "Branch "@ + target_name@ + " not found"@),
            opens(base_file) && opens(target_file) && !tips_ok(base_file, target_file, store@) ==> r is Err,
            tips_ok(base_file, target_file, store@)
                && stored_common_ancestor(store@, file_text(target_file), file_text(base_file)) is None ==> r is Err,
            tips_ok(base_file, target_file, store@)
                && stored_common_ancestor(store@, file_text(target_file), file_text(base_file)) == Some(None::<Seq<char>>)
                ==> (r matches Err(ErrorType::HTTPError(HTTPError::BadRequest(m)))
                    && m@ == "Can't create PullRequest for branches with no common ancestor"@),
            ({
                &&& tips_ok(base_file, target_file, store@)
                &&& stored_common_ancestor(store@, file_text(target_file), file_text(base_file)) matches Some(Some(_))
                &&& pr_names matches Some(v) && highest_number_upto(texts(v@), v@.len()) is Ok
            }) ==> r is Ok,
            r matches Ok(pr) ==> {
                &&& pr_names matches Some(v) && (highest_number_upto(texts(v@), v@.len()) matches Ok(h)
                    && pr.number == h + 1)
                &&& pr.title@ == match title {
                        Some(t) => t@,
                        None => "Branch "@ + target_name@ + " into "@ + base_name@,
                    }
                &&& pr.state@ == "open"@
                &&& pr.branch_base@ == base_name@
                &&& pr.branch_target@ == target_name@
                &&& target_file matches Some(t) && pr.hash_creation_commit@ == t@
            },
    {
        let base = match Branch::open(path_branches, base_name, base_file) {
            Ok(b) => b,
            Err(_) => return Err(branch_not_found(base_name)),
        };
        let target = match Branch::open(path_branches, target_name, target_file) {
            Ok(b) => b,
            Err(_) => return Err(branch_not_found(target_name)),
        };
        let base_commit = match base.get_last_commit(store) {
            Ok(c) => c,
            Err(e) => return Err(e),
        };
        let target_commit = match target.get_last_commit(store) {
            Ok(c) => c,
            Err(e) => return Err(e),
        };
        match target_commit.last_common_ancestor(&base_commit, store) {
            Ok(Some(_)) => {},
            Ok(None) => return Err(ErrorType::HTTPError(HTTPError::BadRequest(String::from_str(
                "Can't create PullRequest for branches with no common ancestor")))),
            Err(e) => return Err(e),
        }
        let hash = target.get_last_commit_hash();
        let highest = match get_highest_pr_number(pr_names, pull_requests_path) {
            Ok(h) => h,
            Err(e) => return Err(e),
        };
        let title = match title {
            Some(t) => t,
            None => {
                let mut t = String::from_str("Branch ");
                push_text(&mut t, target_name);
                push_text(&mut t, " into ");
                push_text(&mut t, base_name);
                t
            },
        };
        Ok(PullRequest {
            number: highest + 1,
            title,
            state: String::from_str("open"),
            branch_base: String::from_str(base_name),
            branch_target: String::from_str(target_name),
            hash_creation_commit: hash.to_string(),
        })
    }

    /// The pull request with this number, read from its file (`None` where
    /// there is no such file).
    pub fn get_pull_request(number: &str, found: Option<PullRequest>) -> (r: Result<PullRequest, ErrorType>)
        ensures
            found is None ==> (r matches Err(ErrorType::HTTPError(HTTPError::NotFound(m)))
                && m@ == "Pull Request "@ + number@ + " not found"@),
            found matches Some(pr) ==> r == Ok::<PullRequest, ErrorType>(pr),
    {
        match found {
            Some(pr) => Ok(pr),
            None => {
                let mut m = String::from_str("Pull Request ");
                push_text(&mut m, number);
                push_text(&mut m, " not found");
                Err(ErrorType::HTTPError(HTTPError::NotFound(m)))
            },
        }
    }

    /// Checks, given the last common ancestor of both tips, that merging the
    /// target into the base leaves no file in conflict; the error names the
    /// conflicting files.
    pub fn verify_no_conflicts_with(
        base_commit: &Commit,
        target_commit: &Commit,
        last_common_ancestor: &Commit,
        store: &ObjectStore,
    ) -> (r: Result<(), ErrorType>)
        ensures
            match compare_commits(*base_commit, *target_commit, *last_common_ancestor, store@) {
                None => r is Err,
                Some((m, c)) => if c.len() == 0 {
                    r is Ok
                } else {
                    r matches Err(ErrorType::HTTPError(HTTPError::MethodNotAllowed(msg)))
                        && msg@ == "Can't merge PullRequest, some conflicts need to be solved in files: "@
                            + join_with(blob_paths(c), ", "@)
                },
            },
    {
        let base_files = base_commit.get_files_vec();
        let target_files = target_commit.get_files_vec();
        let lca_files = last_common_ancestor.get_files_vec();
        let (_, conflict_files) = match Merge::compare_files(base_files, target_files, lca_files, store) {
            Ok(f) => f,
            Err(e) => return Err(e),
        };
        if conflict_files.len() == 0 {
            return Ok(());
        }
        let mut names: Vec<String> = Vec::new();
        let mut k: usize = 0;
        while k < conflict_files.len()
            invariant
                k <= conflict_files@.len(),
                texts(names@) == blob_paths(blob_pairs(conflict_files@)).subrange(0, k as int),
            decreases conflict_files.len() - k,
        {
            let ghost before = names@;
            let ghost bp = blob_paths(blob_pairs(conflict_files@));
            names.push(conflict_files[k].0.clone());
            proof {
                assert(bp[k as int] == conflict_files@[k as int].0@);
                assert(texts(names@) =~= texts(before).push(conflict_files@[k as int].0@));
                assert(bp.subrange(0, k + 1) =~= bp.subrange(0, k as int).push(bp[k as int]));
            }
            k = k + 1;
        }
        assert(blob_paths(blob_pairs(conflict_files@)).subrange(0, k as int) =~= blob_paths(blob_pairs(conflict_files@)));
        let joined = join_strings(&names, ", ");
        let mut msg = String::from_str("Can't merge PullRequest, some conflicts need to be solved in files: ");
        push_text(&mut msg, joined.as_str());
        Err(ErrorType::HTTPError(HTTPError::MethodNotAllowed(msg)))
    }

    /// Checks that merging the target branch into the base leaves no file in
    /// conflict; an error where the tips share no commit.
    pub fn verify_no_conflicts(base: &Branch, target: &Branch, store: &ObjectStore) -> (r: Result<(), ErrorType>)
        ensures
            r is Ok ==> exists|b: Commit, t: Commit, a: Commit, h1: Seq<Commit>, h2: Seq<Commit>|
                #![trigger merges_cleanly(b, t, a, store@), first_common(commit_hashes(h1), h2)]
                merges_cleanly(b, t, a, store@) && b.hash_view() == base.hash_view() && t.hash_view() == target.hash_view()
                && first_common(commit_hashes(h1), h2) == Some(a) && histories_of(h1, h2, t.hash_view(), b.hash_view()),
            !(commit_ok(store@, base.hash_view()) && commit_ok(store@, target.hash_view())) ==> r is Err,
            commit_ok(store@, base.hash_view()) && commit_ok(store@, target.hash_view())
                && stored_common_ancestor(store@, target.hash_view(), base.hash_view()) is None ==> r is Err,
            commit_ok(store@, base.hash_view()) && commit_ok(store@, target.hash_view())
                && stored_common_ancestor(store@, target.hash_view(), base.hash_view()) == Some(None::<Seq<char>>)
                ==> (r matches Err(ErrorType::HTTPError(HTTPError::BadRequest(m)))
                    && m@ == "Can't merge PullRequest, branches base and target have no common commit ancestor"@),
            ({
                &&& commit_ok(store@, base.hash_view()) && commit_ok(store@, target.hash_view())
                &&& stored_common_ancestor(store@, target.hash_view(), base.hash_view()) matches Some(Some(a))
            }) ==> (r is Ok <==> stored_merge_clean(store@, base.hash_view(), target.hash_view(),
                stored_common_ancestor(store@, target.hash_view(), base.hash_view())->0->0)),
    {
        let base_commit = match base.get_last_commit(store) {
            Ok(c) => c,
            Err(e) => return Err(e),
        };
        let target_commit = match target.get_last_commit(store) {
            Ok(c) => c,
            Err(e) => return Err(e),
        };
        let lca = target_commit.last_common_ancestor(&base_commit, store);
        let ancestor = match lca {
            Ok(Some(c)) => c,
            Ok(None) => return Err(ErrorType::HTTPError(HTTPError::BadRequest(String::from_str(
                "Can't merge PullRequest, branches base and target have no common commit ancestor")))),
            Err(e) => return Err(e),
        };
        proof { crate::merge::lemma_compare_stored(base_commit, target_commit, ancestor, store@); }
        let r = Self::verify_no_conflicts_with(&base_commit, &target_commit, &ancestor, store);
        proof {
            if r is Ok {
                let (h1, h2) = choose|h1: Seq<Commit>, h2: Seq<Commit>| #[trigger] first_common(commit_hashes(h1), h2)
                    == Some(ancestor) && histories_of(h1, h2, target_commit.hash_view(), base_commit.hash_view());
                assert(merges_cleanly(base_commit, target_commit, ancestor, store@));
                assert(first_common(commit_hashes(h1), h2) == Some(ancestor));
            }
        }
        r
    }

    /// Merges an open pull request: the target branch is merged into the base
    /// branch (both read from their files' texts) with the user and message of
    /// the request's body, and the pull request is closed. Gives the answer's
    /// text and the moved base branch, whose file is to be written, as is the
    /// pull request's.
    pub fn merge_pull_request(
        &mut self,
        body: Result<(User, String), ErrorType>,
        base_file: Option<&str>,
        target_file: Option<&str>,
        path_branches: &str,
        store: &mut ObjectStore,
    ) -> (r: Result<(String, Branch), ErrorType>)
        ensures
            old(self).state@ == "closed"@ ==> (r matches Err(ErrorType::HTTPError(HTTPError::MethodNotAllowed(m)))
                && m@ == "Can't merge PullRequest, it is already closed"@),
            old(self).state@ != "closed"@ && !opens(base_file) ==> (r matches Err(ErrorType::RepositoryError(m))
                && m@ == "Branch "@ + old(self).branch_base@ + " not found, must have been deleted"@),
            old(self).state@ != "closed"@ && opens(base_file) && !opens(target_file) ==>
                (r matches Err(ErrorType::RepositoryError(m))
                && m@ == "Branch "@ + old(self).branch_target@ + " not found, must have been deleted"@),
            r is Err ==> *final(self) == *old(self),
            old(self).state@ == "closed"@ || !opens(base_file) || !opens(target_file) || body is Err
                || !tips_ok(base_file, target_file, old(store)@) ==> final(store)@ == old(store)@,
            r matches Ok((msg, base)) ==> base.hash_view() == file_text(target_file)
                || holds_commit(final(store)@, base.hash_view()),
            ({
                &&& old(self).state@ != "closed"@
                &&& tips_ok(base_file, target_file, old(store)@)
                &&& stored_common_ancestor(old(store)@, file_text(target_file), file_text(base_file))
                    == Some(Some(file_text(base_file)))
                &&& stored_merge_clean(old(store)@, file_text(base_file), file_text(target_file), file_text(base_file))
                &&& body is Ok
            }) ==> (r matches Ok((msg, base)) && msg@ == "Fast-forward merge completed succesfully"@
                && base.hash_view() == file_text(target_file) && final(store)@ == old(store)@),
            r matches Ok((msg, base)) ==> {
                &&& final(self).state@ == "closed"@
                &&& final(self).number == old(self).number
                &&& final(self).title == old(self).title
                &&& final(self).branch_base == old(self).branch_base
                &&& final(self).branch_target == old(self).branch_target
                &&& final(self).hash_creation_commit == old(self).hash_creation_commit
                &&& base.name_view() == old(self).branch_base@
                &&& base.dir_view() == path_branches@
            },
    {
        if text_eq(self.state.as_str(), "closed") {
            return Err(ErrorType::HTTPError(HTTPError::MethodNotAllowed(String::from_str(
                "Can't merge PullRequest, it is already closed"))));
        }
        let mut base = match open_branch(path_branches, self.branch_base.as_str(), base_file) {
            Ok(b) => b,
            Err(e) => return Err(e),
        };
        let target = match open_branch(path_branches, self.branch_target.as_str(), target_file) {
            Ok(b) => b,
            Err(e) => return Err(e),
        };
        match Self::verify_no_conflicts(&base, &target, store) {
            Ok(()) => {},
            Err(e) => return Err(e),
        }
        let (user, message) = match body {
            Ok(b) => b,
            Err(e) => return Err(e),
        };
        proof {
            reveal_strlit("");
            assert(lines(""@) =~= Seq::<Seq<char>>::empty());
            assert(crate::config::config_lines(lines(""@), 0, None, None) is Some);
        }
        let config = RepoConfig::open(path_branches, Some(""));
        let config = match config {
            Ok(c) => c,
            Err(e) => return Err(e),
        };
        let (modified_files, conflict_files) = match Merge::merge(&mut base, target, store, Some(message), Some(user), &config) {
            Ok(f) => f,
            Err(e) => return Err(e),
        };
        if conflict_files.len() > 0 {
            return Err(ErrorType::RepositoryError(String::from_str(
                "Error merging pull request, an unexpected conflict happened while merging. This server repo ended in a corrupt state")));
        }
        let answer = if modified_files.len() == 0 {
            String::from_str("Fast-forward merge completed succesfully")
        } else {
            let commit = match base.get_last_commit(store) {
                Ok(c) => c,
                Err(e) => return Err(e),
            };
            let mut m = String::from_str("Three-way merge completed succesfuly. New merge commit created: ");
            push_text(&mut m, commit.get_hash().to_string().as_str());
            push_text(&mut m, ": ");
            push_text(&mut m, commit.get_message().as_str());
            m
        };
        self.close();
        Ok((answer, base))
    }

    /// Marks the pull request closed.
    pub fn close(&mut self)
        ensures
            final(self).state@ == "closed"@,
            final(self).number == old(self).number,
            final(self).title == old(self).title,
            final(self).branch_base == old(self).branch_base,
            final(self).branch_target == old(self).branch_target,
            final(self).hash_creation_commit == old(self).hash_creation_commit,
    {
        self.state = String::from_str("closed");
    }

    /// Whether the pull request is open.
    pub fn is_open(&self) -> (r: bool)
        ensures
            r == (self.state@ == "open"@),
    {
        text_eq(self.state.as_str(), "open")
    }

    /// Whether the pull request is closed.
    pub fn is_closed(&self) -> (r: bool)
        ensures
            r == (self.state@ == "closed"@),
    {
        text_eq(self.state.as_str(), "closed")
    }

    /// The name of the base branch.
    pub fn get_base(&self) -> (r: String)
        ensures
            r@ == self.branch_base@,
    {
        self.branch_base.clone()
    }

    /// Gives the pull request another title.
    pub fn set_title(&mut self, new_title: &str)
        ensures
            final(self).title@ == new_title@,
            final(self).number == old(self).number,
            final(self).state == old(self).state,
            final(self).branch_base == old(self).branch_base,
            final(self).branch_target == old(self).branch_target,
            final(self).hash_creation_commit == old(self).hash_creation_commit,
    {
        self.title = String::from_str(new_title);
    }

    /// Sets the state, which must be `open` or `closed`.
    pub fn set_state(&mut self, new_state: &str) -> (r: Result<(), ErrorType>)
        ensures
            (new_state@ == "open"@ || new_state@ == "closed"@) ==> r is Ok && final(self).state@ == new_state@,
            !(new_state@ == "open"@ || new_state@ == "closed"@) ==> (r matches Err(ErrorType::HTTPError(HTTPError::BadRequest(m)))
                && m@ == "Invalid state passed in body: "@ + new_state@ && final(self).state == old(self).state),
            final(self).number == old(self).number,
            final(self).title == old(self).title,
            final(self).branch_base == old(self).branch_base,
            final(self).branch_target == old(self).branch_target,
            final(self).hash_creation_commit == old(self).hash_creation_commit,
    {
        if text_eq(new_state, "open") || text_eq(new_state, "closed") {
            self.state = String::from_str(new_state);
            Ok(())
        } else {
            let mut m = String::from_str("Invalid state passed in body: ");
            push_text(&mut m, new_state);
            Err(ErrorType::HTTPError(HTTPError::BadRequest(m)))
        }
    }

    /// Sets the base branch to another one, which must exist (its file's
    /// text is given, `None` where it has none).
    pub fn set_base(&mut self, new_base: &str, base_file: Option<&str>, path_branches: &str) -> (r: Result<(), ErrorType>)
        ensures
            opens(base_file) ==> r is Ok && final(self).branch_base@ == new_base@,
            base_file is None ==> (r matches Err(ErrorType::HTTPError(HTTPError::NotFound(m)))
                && m@ == "New base branch '"@ + new_base@ + "' passed in body not found"@),
            base_file is Some && !opens(base_file) ==> r matches Err(ErrorType::InvalidHash(_)),
            r is Err ==> final(self).branch_base == old(self).branch_base,
            final(self).number == old(self).number,
            final(self).title == old(self).title,
            final(self).state == old(self).state,
            final(self).branch_target == old(self).branch_target,
            final(self).hash_creation_commit == old(self).hash_creation_commit,
    {
        match Branch::open(path_branches, new_base, base_file) {
            Ok(b) => {
                self.branch_base = b.get_name();
                Ok(())
            },
            Err(ErrorType::CommandError(_)) => {
                let mut m = String::from_str("New base branch '");
                push_text(&mut m, new_base);
                push_text(&mut m, "' passed in body not found");
                Err(ErrorType::HTTPError(HTTPError::NotFound(m)))
            },
            Err(e) => Err(e),
        }
    }
}


impl PullRequest {
    /// The commits of the target branch (read from its file's text) since the
    /// pull request was made: its history from the newest, up to and with the
    /// commit the pull request recorded (the whole history where that commit
    /// is not in it).
    pub fn list_commits_pull_request(&self, target_file: Option<&str>, path_branches: &str, store: &ObjectStore)
        -> (r: Result<Vec<Commit>, ErrorType>)
        ensures
            !opens(target_file) ==> (r matches Err(ErrorType::RepositoryError(m))
                && m@ == "Branch "@ + self.branch_target@ + " not found, must have been deleted"@),
            opens(target_file) ==> (r is Ok <==> commit_ok(store@, file_text(target_file))
                && dedup_history(store@, file_text(target_file), usize::MAX as nat) is Some),
            r matches Ok(v) ==> (dedup_history(store@, file_text(target_file), usize::MAX as nat) matches Some(h)
                && stamps(v@) == upto_hash(h, self.hash_creation_commit@)),
            r matches Ok(v) ==> forall|i: int| 0 <= i < v@.len() - 1 ==> #[trigger] v@[i].hash_view() != self.hash_creation_commit@,
    {
        let target = match open_branch(path_branches, self.branch_target.as_str(), target_file) {
            Ok(b) => b,
            Err(e) => return Err(e),
        };
        let commit = match target.get_last_commit(store) {
            Ok(c) => c,
            Err(e) => return Err(e),
        };
        let history = match commit.get_commits_history(store) {
            Ok(h) => h,
            Err(e) => return Err(e),
        };
        let ghost full = stamps(history@);
        let ghost ch = self.hash_creation_commit@;
        let mut list: Vec<Commit> = Vec::new();
        let mut rest = history;
        assert(stamps(list@) + upto_hash(stamps(rest@), ch) =~= upto_hash(full, ch));
        while rest.len() > 0
            invariant_except_break
                ch == self.hash_creation_commit@,
                forall|i: int| 0 <= i < list@.len() ==> #[trigger] list@[i].hash_view() != ch,
                stamps(list@) + upto_hash(stamps(rest@), ch) == upto_hash(full, ch),
            ensures
                forall|i: int| 0 <= i < list@.len() - 1 ==> #[trigger] list@[i].hash_view() != ch,
                stamps(list@) == upto_hash(full, ch),
            decreases rest.len(),
        {
            let ghost before_rest = rest@;
            let ghost before_list = list@;
            let c = rest.remove(0);
            assert(stamps(rest@) =~= stamps(before_rest).drop_first());
            assert(stamps(before_rest)[0] == stamp(c));
            let hash = c.get_hash().to_string();
            let stop = text_eq(hash.as_str(), self.hash_creation_commit.as_str());
            assert(stop == (stamps(before_rest)[0].0 == ch));
            assert(stamps(before_rest).len() > 0);
            list.push(c);
            assert(stamps(list@) =~= stamps(before_list).push(stamp(c)));
            if stop {
                assert(upto_hash(stamps(before_rest), ch) =~= seq![stamp(c)]);
                assert(stamps(before_list) + seq![stamp(c)] =~= stamps(list@));
                break;
            }
            assert(upto_hash(stamps(before_rest), ch) == seq![stamp(c)] + upto_hash(stamps(rest@), ch));
            assert(stamps(before_list) + (seq![stamp(c)] + upto_hash(stamps(rest@), ch))
                =~= stamps(list@) + upto_hash(stamps(rest@), ch));
        }
        Ok(list)
    }
}

/// The stamps of a history from the newest, up to and with the first one
/// with hash `h` (all of them where none has it).
pub open spec fn upto_hash(s: Seq<(Seq<char>, int)>, h: Seq<char>) -> Seq<(Seq<char>, int)>
    decreases s.len(),
{
    if s.len() == 0 {
        Seq::empty()
    } else if s[0].0 == h {
        seq![s[0]]
    } else {
        seq![s[0]] + upto_hash(s.drop_first(), h)
    }
}

} // verus!
