use vstd::prelude::*;
use crate::errors::{CommandError, ErrorType};
use crate::hash::{GitHash, valid_hash_text};
use crate::commit::{Commit, commit_ok, stored_header, stored_time, commit_blobs_ok, files_stored};
use crate::tree::entries_blobs_ok;
use crate::git_object::{GitObject, ObjectStore};
use crate::remote::Remote;
use crate::paths::{path_join, join_path};
use crate::text::{push_text, text_eq, starts_with, has_prefix, split_on, split_char, views, find_char, concat};
use crate::assoc::{assoc_map, distinct_keys, string_keys};

verus! {

/// A branch: its name, the directory of branch files, and the commit it
/// points to.
pub struct Branch {
    path_branches: String,
    name: String,
    last_commit_hash: GitHash,
}

impl Clone for Branch {
    fn clone(&self) -> (r: Self)
        ensures
            r.name_view() == self.name_view(),
            r.hash_view() == self.hash_view(),
            r.dir_view() == self.dir_view(),
    {
        Branch {
            path_branches: self.path_branches.clone(),
            name: self.name.clone(),
            last_commit_hash: self.last_commit_hash.clone(),
        }
    }
}

/// What the `branch` command was asked to do.
pub enum BranchAction {
    /// List the branches.
    Display,
    /// Create a branch at the head's commit.
    Create(String),
    /// Set the upstream (`<remote>/<branch>`) of a local branch; the text of
    /// the command's message comes with it.
    SetUpstream(String, String),
    /// Delete a branch; the option given comes with it.
    Delete(String, String),
}

/// The names of a list of branches with their hashes.
pub open spec fn branch_names(v: Seq<(String, GitHash)>) -> Seq<Seq<char>> {
    v.map_values(|p: (String, GitHash)| p.0@)
}

/// What `branch` lists: a line per branch, the head's marked.
pub open spec fn branch_listing(head: Seq<char>, names: Seq<Seq<char>>) -> Seq<char>
    decreases names.len(),
{
    if names.len() == 0 {
        Seq::empty()
    } else {
        branch_listing(head, names.drop_last()) + names.last()
            + (if names.last() == head { " <--HEAD"@ } else { Seq::empty() }) + "\n"@
    }
}

impl Branch {
    /// The branch's name.
    pub closed spec fn name_view(&self) -> Seq<char> {
        self.name@
    }

    /// The hash of the commit the branch points to.
    pub closed spec fn hash_view(&self) -> Seq<char> {
        self.last_commit_hash@
    }

    /// The directory of the branch files.
    pub closed spec fn dir_view(&self) -> Seq<char> {
        self.path_branches@
    }

    /// Reads a branch from its file's text (`None` where the branch has no
    /// file); the text must be a hash.
    pub fn open(path_branches: &str, branch_name: &str, file_text: Option<&str>) -> (r: Result<Self, ErrorType>)
        ensures
            file_text is None ==> (r matches Err(ErrorType::CommandError(CommandError::InvalidBranch(s))) && s@ == branch_name@),
            file_text matches Some(t) ==> (valid_hash_text(t@) ==> (r matches Ok(b) && b.name_view() == branch_name@
                && b.hash_view() == t@ && b.dir_view() == path_branches@)),
            file_text matches Some(t) ==> (!valid_hash_text(t@) ==> r matches Err(ErrorType::InvalidHash(_))),
    {
        let text = match file_text {
            None => return Err(ErrorType::CommandError(CommandError::InvalidBranch(String::from_str(branch_name)))),
            Some(t) => t,
        };
        let last_commit_hash = match GitHash::new(text) {
            Ok(h) => h,
            Err(e) => return Err(e),
        };
        Ok(Branch { path_branches: String::from_str(path_branches), name: String::from_str(branch_name), last_commit_hash })
    }

    /// A branch with this name pointing to this commit; its file is to be
    /// written with `save`.
    pub fn new(name: &str, path_branches: &str, hash: GitHash) -> (r: Self)
        ensures
            r.name_view() == name@,
            r.hash_view() == hash@,
            r.dir_view() == path_branches@,
    {
        Branch { path_branches: String::from_str(path_branches), name: String::from_str(name), last_commit_hash: hash }
    }

    /// Points the branch to another commit.
    pub fn set_last_commit_hash(&mut self, new_hash: GitHash)
        ensures
            final(self).hash_view() == new_hash@,
            final(self).name_view() == old(self).name_view(),
            final(self).dir_view() == old(self).dir_view(),
    {
        self.last_commit_hash = new_hash;
    }

    /// The hash of the commit the branch points to.
    pub fn get_last_commit_hash(&self) -> (r: GitHash)
        ensures
            r@ == self.hash_view(),
    {
        self.last_commit_hash.clone()
    }

    /// The branch's name.
    pub fn get_name(&self) -> (r: String)
        ensures
            r@ == self.name_view(),
    {
        self.name.clone()
    }

    /// The branch's file and what it holds: the commit's hash.
    pub fn save(&self) -> (r: (String, String))
        ensures
            r.0@ == path_join(self.dir_view(), self.name_view()),
            r.1@ == self.hash_view(),
    {
        (join_path(self.path_branches.as_str(), self.name.as_str()), self.last_commit_hash.to_string())
    }

    /// The commit the branch points to, read from the store.
    pub fn get_last_commit(&self, store: &ObjectStore) -> (r: Result<Commit, ErrorType>)
        ensures
            r is Ok <==> commit_ok(store@, self.hash_view()),
            r matches Ok(c) ==> c.hash_view() == self.hash_view(),
            r matches Ok(c) ==> c.parent_view() == stored_header(store@, self.hash_view()).parent
                && c.second_parent_view() == stored_header(store@, self.hash_view()).second_parent
                && c.time_view() as int == stored_time(store@, self.hash_view()),
            r matches Ok(c) ==> (commit_blobs_ok(store@, self.hash_view()) ==> entries_blobs_ok(store@, c.tree_view().entries_view())),
            r matches Ok(c) ==> files_stored(store@, c),
            r matches Ok(c) ==> c.content_view() is Some,
    {
        GitObject::read_commit(&self.last_commit_hash, store)
    }

    /// The branches of a directory from the names and texts of its files;
    /// each text must be a hash.
    pub fn list_branches(entries: &Vec<(String, String)>) -> (r: Result<Vec<(String, GitHash)>, ErrorType>)
        ensures
            r matches Ok(v) ==> v@.len() == entries@.len() && forall|i: int| 0 <= i < v@.len() ==>
                #[trigger] v@[i].0@ == entries@[i].0@ && v@[i].1@ == entries@[i].1@,
            r is Ok <==> forall|i: int| 0 <= i < entries@.len() ==> valid_hash_text(#[trigger] entries@[i].1@),
            r matches Err(e) ==> e is InvalidHash,
    {
        let mut v: Vec<(String, GitHash)> = Vec::new();
        let mut i: usize = 0;
        while i < entries.len()
            invariant
                i <= entries@.len(),
                v@.len() == i,
                forall|j: int| 0 <= j < i ==> v@[j].0@ == entries@[j].0@ && v@[j].1@ == entries@[j].1@,
                forall|j: int| 0 <= j < i ==> valid_hash_text(#[trigger] entries@[j].1@),
            decreases entries.len() - i,
        {
            let (name, text) = &entries[i];
            let hash = match GitHash::new(text.as_str()) {
                Ok(h) => h,
                Err(e) => return Err(e),
            };
            let nc = name.clone();
            let ghost hv = hash@;
            v.push((nc, hash));
            assert(v@[i as int].0@ == entries@[i as int].0@ && v@[i as int].1@ == entries@[i as int].1@);
            i = i + 1;
        }
        Ok(v)
    }

    /// What `branch` lists: each branch on a line, the one the head names
    /// marked.
    pub fn display_branches(head_branch_name: &str, branches: &Vec<(String, GitHash)>) -> (r: String)
        ensures
            r@ == branch_listing(head_branch_name@, branch_names(branches@)),
    {
        let mut text = String::new();
        let mut i: usize = 0;
        proof { reveal_strlit(" <--HEAD"); reveal_strlit("\n"); }
        assert(branch_names(branches@).subrange(0, 0) =~= Seq::<Seq<char>>::empty());
        while i < branches.len()
            invariant
                i <= branches@.len(),
                text@ == branch_listing(head_branch_name@, branch_names(branches@).subrange(0, i as int)),
            decreases branches.len() - i,
        {
            let ghost prev = branch_names(branches@).subrange(0, i as int);
            let ghost next = branch_names(branches@).subrange(0, i + 1);
            assert(next.drop_last() =~= prev);
            let name = &branches[i].0;
            assert(next.last() == name@);
            push_text(&mut text, name.as_str());
            if text_eq(name.as_str(), head_branch_name) {
                push_text(&mut text, " <--HEAD");
            }
            push_text(&mut text, "\n");
            i = i + 1;
            assert(text@ =~= branch_listing(head_branch_name@, next));
        }
        assert(branch_names(branches@).subrange(0, branches@.len() as int) =~= branch_names(branches@));
        text
    }

    /// Reads the arguments of the `branch` command: none lists the branches,
    /// one creates a branch, `--set-upstream-to=<remote>/<branch> <local>`
    /// and `-u <remote>/<branch> <local>` set an upstream, `-d|delete <name>`
    /// deletes a branch.
    pub fn parse_branch_args(args: &Vec<String>) -> (r: Result<BranchAction, ErrorType>)
        ensures
            args@.len() == 0 ==> r matches Ok(BranchAction::Display),
            args@.len() == 1 ==> (r matches Ok(BranchAction::Create(n)) && n@ == args@[0]@),
            args@.len() >= 2 && has_prefix(args@[0]@, "--set-upstream-to="@) ==> {
                &&& (args@.len() != 2 ==> r matches Err(ErrorType::CommandError(CommandError::IncorrectAmount(_, _))))
                &&& (args@.len() == 2 ==> (r matches Ok(BranchAction::SetUpstream(rb, l))
                    && rb@ == split_on(args@[0]@, '=')[1] && l@ == args@[1]@))
            },
            args@.len() >= 2 && !has_prefix(args@[0]@, "--set-upstream-to="@) && args@[0]@ == "-u"@ ==> {
                &&& (args@.len() != 3 ==> r matches Err(ErrorType::CommandError(CommandError::IncorrectAmount(_, _))))
                &&& (args@.len() == 3 ==> (r matches Ok(BranchAction::SetUpstream(rb, l))
                    && rb@ == args@[1]@ && l@ == args@[2]@))
            },
            args@.len() >= 2 && !has_prefix(args@[0]@, "--set-upstream-to="@) && args@[0]@ != "-u"@
                && (args@[0]@ == "-d"@ || args@[0]@ == "delete"@) ==> (r matches Ok(BranchAction::Delete(n, o))
                    && n@ == args@[1]@ && o@ == args@[0]@),
            args@.len() >= 2 && !has_prefix(args@[0]@, "--set-upstream-to="@) && args@[0]@ != "-u"@
                && args@[0]@ != "-d"@ && args@[0]@ != "delete"@ ==> (r matches Err(ErrorType::CommandError(CommandError::InvalidArgument(s)))
                    && s@ == args@[0]@),
    {
        proof {
            reveal_strlit("--set-upstream-to=");
            reveal_strlit("-u");
            reveal_strlit("-d");
            reveal_strlit("delete");
        }
        let n = args.len();
        if n == 0 {
            return Ok(BranchAction::Display);
        }
        if n == 1 {
            return Ok(BranchAction::Create(args[0].clone()));
        }
        let option = args[0].as_str();
        if starts_with(option, "--set-upstream-to=") {
            if n != 2 {
                return Err(ErrorType::CommandError(CommandError::IncorrectAmount(String::from_str("2"), n)));
            }
            let pieces = split_char(option, '=');
            proof {
                let k = find_char(option@, '=');
                crate::text::lemma_find_char_bound(option@, '=');
                assert(has_prefix(option@, "--set-upstream-to="@));
                assert(option@.subrange(0, 18) == "--set-upstream-to="@);
                assert(option@[17] == option@.subrange(0, 18)[17]);
                assert(option@[17] == '=');
                assert(k <= 17);
                assert(k < option@.len());
                let rest = option@.subrange(k as int + 1, option@.len() as int);
                crate::text::lemma_find_char_bound(rest, '=');
                assert(split_on(rest, '=').len() >= 1);
                assert(split_on(option@, '=') == seq![option@.subrange(0, k as int)] + split_on(rest, '='));
                assert(split_on(option@, '=').len() >= 2);
            }
            assert(views(pieces@)[1] == pieces@[1]@);
            return Ok(BranchAction::SetUpstream(pieces[1].clone(), args[1].clone()));
        }
        if text_eq(option, "-u") {
            if n != 3 {
                return Err(ErrorType::CommandError(CommandError::IncorrectAmount(String::from_str("3"), n)));
            }
            return Ok(BranchAction::SetUpstream(args[1].clone(), args[2].clone()));
        }
        if text_eq(option, "-d") || text_eq(option, "delete") {
            return Ok(BranchAction::Delete(args[1].clone(), args[0].clone()));
        }
        Err(ErrorType::CommandError(CommandError::InvalidArgument(String::from_str(option))))
    }

    /// Checks that a branch may be deleted: it must not be the head's, and it
    /// must exist.
    pub fn delete_branch(name: &str, head_branch_name: &str, exists: bool) -> (r: Result<(), ErrorType>)
        ensures
            name@ == head_branch_name@ ==> r matches Err(ErrorType::CommandError(CommandError::InvalidBranch(_))),
            name@ != head_branch_name@ ==> (r is Ok <==> exists),
            r matches Err(e) ==> e matches ErrorType::CommandError(CommandError::InvalidBranch(_)),
    {
        if text_eq(head_branch_name, name) {
            return Err(ErrorType::CommandError(CommandError::InvalidBranch(String::from_str(
                "Can't delete branch that head is pointing to",
            ))));
        }
        if !exists {
            let mut msg = String::from_str("Branch doesn't exist: \"");
            push_text(&mut msg, name);
            push_text(&mut msg, "\"");
            return Err(ErrorType::CommandError(CommandError::InvalidBranch(msg)));
        }
        Ok(())
    }

    /// Sets the upstream of a local branch to `<remote>/<branch>`: the remote
    /// must be known, the remote branch fetched and the local branch exist.
    pub fn set_upstream(
        remote_branch: &str,
        local_branch_name: String,
        remote: &mut Remote,
        remote_refs: &Vec<(String, GitHash)>,
        local_branches: &Vec<(String, GitHash)>,
    ) -> (r: Result<(), ErrorType>)
        ensures
            split_on(remote_branch@, '/').len() != 2 ==> (r matches Err(ErrorType::CommandError(CommandError::InvalidArgument(_)))),
            r is Ok <==> ({
                let p = split_on(remote_branch@, '/');
                &&& p.len() == 2
                &&& old(remote).remotes_view().contains_key(p[0])
                &&& branch_names(remote_refs@).contains(p[1])
                &&& branch_names(local_branches@).contains(local_branch_name@)
            }),
            r is Ok ==> final(remote).branches_view() == old(remote).branches_view().insert(local_branch_name@,
                (split_on(remote_branch@, '/')[0], split_on(remote_branch@, '/')[1])),
            r is Err ==> final(remote).branches_view() == old(remote).branches_view(),
            final(remote).remotes_view() == old(remote).remotes_view(),
    {
        let parts = split_char(remote_branch, '/');
        assert(views(parts@).len() == parts@.len());
        if parts.len() != 2 {
            let mut msg = String::from_str("invalid remote repo '");
            push_text(&mut msg, remote_branch);
            push_text(&mut msg, "'");
            return Err(ErrorType::CommandError(CommandError::InvalidArgument(msg)));
        }
        assert(views(parts@)[0] == parts@[0]@ && views(parts@)[1] == parts@[1]@);
        let remote_name = parts[0].clone();
        let remote_branch_name = parts[1].clone();
        if remote.get_url(remote_name.as_str()).is_none() {
            let mut msg = String::from_str("no such remote '");
            push_text(&mut msg, remote_name.as_str());
            push_text(&mut msg, "'");
            return Err(ErrorType::CommandError(CommandError::InvalidArgument(msg)));
        }
        if !Self::has_branch(remote_refs, remote_branch_name.as_str()) {
            let mut msg = String::from_str("no such remote branch '");
            push_text(&mut msg, remote_branch_name.as_str());
            push_text(&mut msg, "'");
            return Err(ErrorType::CommandError(CommandError::InvalidArgument(msg)));
        }
        if !Self::has_branch(local_branches, local_branch_name.as_str()) {
            let mut msg = String::from_str("no such local branch '");
            push_text(&mut msg, local_branch_name.as_str());
            push_text(&mut msg, "'");
            return Err(ErrorType::CommandError(CommandError::InvalidArgument(msg)));
        }
        remote.set_upstream(local_branch_name, remote_name, remote_branch_name);
        Ok(())
    }

    /// Whether a list of branches has one with this name.
    pub fn has_branch(branches: &Vec<(String, GitHash)>, name: &str) -> (r: bool)
        ensures
            r == branch_names(branches@).contains(name@),
    {
        let mut i: usize = 0;
        while i < branches.len()
            invariant
                i <= branches@.len(),
                forall|j: int| 0 <= j < i ==> branches@[j].0@ != name@,
            decreases branches.len() - i,
        {
            if text_eq(branches[i].0.as_str(), name) {
                assert(branch_names(branches@)[i as int] == name@);
                return true;
            }
            i = i + 1;
        }
        proof {
            if branch_names(branches@).contains(name@) {
                let w = choose|w: int| 0 <= w < branch_names(branches@).len() && branch_names(branches@)[w] == name@;
                assert(branches@[w].0@ == name@);
            }
        }
        false
    }
}

/// The `branch` listing is one line per branch, in order: the branch's name,
/// followed by ` <--HEAD` exactly when that name is the head's, and a line
/// break.
pub proof fn law_branch_listing_marks_head(head: Seq<char>, names: Seq<Seq<char>>)
    ensures
        branch_listing(head, names) == concat(names.map_values(|n: Seq<char>|
            n + (if n == head { " <--HEAD"@ } else { Seq::<char>::empty() }) + "\n"@)),
    decreases names.len(),
{
    let f = |n: Seq<char>| n + (if n == head { " <--HEAD"@ } else { Seq::<char>::empty() }) + "\n"@;
    if names.len() > 0 {
        law_branch_listing_marks_head(head, names.drop_last());
        assert(names.map_values(f).drop_last() =~= names.drop_last().map_values(f));
        assert(names.map_values(f).last() == f(names.last()));
    } else {
        assert(names.map_values(f) =~= Seq::<Seq<char>>::empty());
    }
}

} // verus!
