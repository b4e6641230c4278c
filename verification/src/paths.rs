use vstd::prelude::*;
use crate::errors::ErrorType;
use crate::text::push_text;

verus! {

/// A relative path appended to a base path, with one `/` between them
/// (`Path::join` on a relative path): an empty base gives the path itself,
/// and a base that already ends in `/` gets no second one.
pub open spec fn path_join(base: Seq<char>, rel: Seq<char>) -> Seq<char> {
    if base.len() == 0 {
        rel
    } else if base.last() == '/' {
        base + rel
    } else {
        base + seq!['/'] + rel
    }
}

/// Appends a relative path to a base path.
pub fn join_path(base: &str, rel: &str) -> (r: String)
    ensures
        r@ == path_join(base@, rel@),
{
    let n = base.unicode_len();
    let mut r = String::from_str(base);
    if n > 0 && base.get_char(n - 1) != '/' {
        push_text(&mut r, "/");
        proof { reveal_strlit("/"); }
    }
    push_text(&mut r, rel);
    r
}

/// The locations of a repository's files, all under its home directory.
#[derive(Clone)]
pub struct RepoPaths {
    home: String,
}

impl View for RepoPaths {
    type V = Seq<char>;

    closed spec fn view(&self) -> Seq<char> {
        self.home@
    }
}

impl RepoPaths {
    /// The paths of a repository whose home is `home`. `home_exists` says
    /// whether that directory exists; a repository cannot live in one that
    /// does not.
    pub fn new(home: &str, home_exists: bool) -> (r: Result<Self, ErrorType>)
        ensures
            r is Ok <==> home_exists,
            r matches Ok(p) ==> p@ == home@,
            r matches Err(e) ==> e matches ErrorType::InvalidPath(s) && s@ == home@,
    {
        if !home_exists {
            return Err(ErrorType::InvalidPath(String::from_str(home)));
        }
        Ok(RepoPaths { home: String::from_str(home) })
    }

    /// The index file.
    pub fn get_index(&self) -> (r: String)
        ensures
            r@ == path_join(self@, ".git-rustico/index"@),
    {
        join_path(self.home.as_str(), ".git-rustico/index")
    }

    /// The directory of the local branches.
    pub fn get_refs_heads(&self) -> (r: String)
        ensures
            r@ == path_join(self@, ".git-rustico/refs/heads/"@),
    {
        join_path(self.home.as_str(), ".git-rustico/refs/heads/")
    }

    /// The home directory itself.
    pub fn get_home(&self) -> (r: String)
        ensures
            r@ == self@,
    {
        self.home.clone()
    }

    /// The object store.
    pub fn get_objects(&self) -> (r: String)
        ensures
            r@ == path_join(self@, ".git-rustico/objects/"@),
    {
        join_path(self.home.as_str(), ".git-rustico/objects/")
    }

    /// The file that says which branch is checked out.
    pub fn get_head(&self) -> (r: String)
        ensures
            r@ == path_join(self@, ".git-rustico/HEAD"@),
    {
        join_path(self.home.as_str(), ".git-rustico/HEAD")
    }

    /// The configuration file.
    pub fn get_config(&self) -> (r: String)
        ensures
            r@ == path_join(self@, ".git-rustico/config"@),
    {
        join_path(self.home.as_str(), ".git-rustico/config")
    }

    /// The file that names the branch of a merge left open by conflicts.
    pub fn get_head_merge(&self) -> (r: String)
        ensures
            r@ == path_join(self@, ".git-rustico/HEAD_MERGE"@),
    {
        join_path(self.home.as_str(), ".git-rustico/HEAD_MERGE")
    }

    /// The file of the remotes.
    pub fn get_remote(&self) -> (r: String)
        ensures
            r@ == path_join(self@, ".git-rustico/remote"@),
    {
        join_path(self.home.as_str(), ".git-rustico/remote")
    }

    /// The directory of the branches fetched from remotes.
    pub fn get_refs_remote(&self) -> (r: String)
        ensures
            r@ == path_join(self@, ".git-rustico/refs/remote/"@),
    {
        join_path(self.home.as_str(), ".git-rustico/refs/remote/")
    }

    /// The file that holds the remote's head.
    pub fn get_remote_head(&self) -> (r: String)
        ensures
            r@ == path_join(self@, ".git-rustico/HEAD_REMOTE"@),
    {
        join_path(self.home.as_str(), ".git-rustico/HEAD_REMOTE")
    }

    /// The log of commands run on the repository.
    pub fn get_log_file_path(&self) -> (r: String)
        ensures
            r@ == path_join(self@, ".git-rustico/LOG"@),
    {
        join_path(self.home.as_str(), ".git-rustico/LOG")
    }

    /// The log a server keeps.
    pub fn get_log_server_file_path(&self) -> (r: String)
        ensures
            r@ == path_join(self@, ".LOG_SERVER"@),
    {
        join_path(self.home.as_str(), ".LOG_SERVER")
    }

    /// The file of ignored paths.
    pub fn get_ignore(&self) -> (r: String)
        ensures
            r@ == path_join(self@, ".gitignore"@),
    {
        join_path(self.home.as_str(), ".gitignore")
    }

    /// The directory under which tags are kept.
    pub fn get_refs_tags(&self) -> (r: String)
        ensures
            r@ == path_join(self@, ".git-rustico/refs/"@),
    {
        join_path(self.home.as_str(), ".git-rustico/refs/")
    }
}

/// The locations a server keeps for one repository.
pub struct ServerPaths {
    server_repo_path: String,
}

impl View for ServerPaths {
    type V = Seq<char>;

    closed spec fn view(&self) -> Seq<char> {
        self.server_repo_path@
    }
}

impl ServerPaths {
    /// The paths under a server's directory for a repository.
    pub fn new(server_repo_path: &str) -> (r: Self)
        ensures
            r@ == server_repo_path@,
    {
        ServerPaths { server_repo_path: String::from_str(server_repo_path) }
    }

    /// The directory of the repository's pull requests.
    pub fn get_pull_requests_path(&self) -> (r: String)
        ensures
            r@ == path_join(self@, "pull_requests"@),
    {
        join_path(self.server_repo_path.as_str(), "pull_requests")
    }

    /// The directory of the repository itself.
    pub fn get_repo_path(&self) -> (r: String)
        ensures
            r@ == path_join(self@, "repo"@),
    {
        join_path(self.server_repo_path.as_str(), "repo")
    }

    /// The paths of the repository; `repo_exists` says whether its directory
    /// exists.
    pub fn get_repo_paths(&self, repo_exists: bool) -> (r: Result<RepoPaths, ErrorType>)
        ensures
            r is Ok <==> repo_exists,
            r matches Ok(p) ==> p@ == path_join(self@, "repo"@),
    {
        let path = self.get_repo_path();
        RepoPaths::new(path.as_str(), repo_exists)
    }
}

} // verus!
