use vstd::prelude::*;
use crate::errors::ErrorType;
use crate::text::{push_text, text_eq, views};

verus! {

/// Which server repositories have a lock: each path once, its lock being
/// the one at its position (the locks themselves are kept beside it).
pub struct RepositoryAccessPermission {
    permit_map: Vec<String>,
}

impl RepositoryAccessPermission {
    #[verifier::type_invariant]
    spec fn distinct(&self) -> bool {
        views(self.permit_map@).no_duplicates()
    }

    /// The paths that have a lock, in the order they were added.
    pub closed spec fn paths_view(&self) -> Seq<Seq<char>> {
        views(self.permit_map@)
    }

    /// No repository has a lock yet.
    pub fn init_repository_access_permission() -> (r: Self)
        ensures
            r.paths_view().len() == 0,
    {
        let r = RepositoryAccessPermission { permit_map: Vec::new() };
        assert(views(r.permit_map@) =~= Seq::<Seq<char>>::empty());
        r
    }

    /// The position of a path's lock, if it has one.
    fn position(&self, key: &str) -> (r: Option<usize>)
        ensures
            match r {
                Some(k) => k < self.paths_view().len() && self.paths_view()[k as int] == key@,
                None => !self.paths_view().contains(key@),
            },
    {
        let mut k: usize = 0;
        while k < self.permit_map.len()
            invariant
                k <= self.permit_map@.len(),
                forall|i: int| 0 <= i < k ==> self.permit_map@[i]@ != key@,
            decreases self.permit_map.len() - k,
        {
            if text_eq(self.permit_map[k].as_str(), key) {
                return Some(k);
            }
            k = k + 1;
        }
        proof {
            if self.paths_view().contains(key@) {
                let i = choose|i: int| 0 <= i < self.paths_view().len() && self.paths_view()[i] == key@;
                assert(self.permit_map@[i]@ == key@);
            }
        }
        None
    }

    /// Whether a repository needs a lock added (it has none yet).
    pub fn requier_write_permision(&self, key: &str) -> (r: bool)
        ensures
            r == !self.paths_view().contains(key@),
    {
        self.position(key).is_none()
    }

    /// The position of a repository's lock, added where it has none. Each
    /// path has one position, so adding a path twice gives the same one.
    pub fn add_repository_to_permission(&mut self, key: &str) -> (r: Result<usize, ErrorType>)
        ensures
            old(self).paths_view().contains(key@) ==> final(self).paths_view() == old(self).paths_view(),
            !old(self).paths_view().contains(key@) ==> final(self).paths_view() == old(self).paths_view().push(key@),
            r matches Ok(k) && k < final(self).paths_view().len() && final(self).paths_view()[k as int] == key@,
            final(self).paths_view().no_duplicates(),
    {
        proof { use_type_invariant(&*self); }
        match self.position(key) {
            Some(k) => Ok(k),
            None => {
                let ghost before = views(self.permit_map@);
                let mut map: Vec<String> = Vec::new();
                std::mem::swap(&mut map, &mut self.permit_map);
                map.push(String::from_str(key));
                assert(views(map@) =~= before.push(key@));
                let k = map.len() - 1;
                self.permit_map = map;
                Ok(k)
            },
        }
    }

    /// The position of a repository's lock; an error where it has none.
    pub fn new_permission_for_repository(&self, key: &str) -> (r: Result<usize, ErrorType>)
        ensures
            self.paths_view().contains(key@) ==> (r matches Ok(k) && k < self.paths_view().len()
                && self.paths_view()[k as int] == key@),
            !self.paths_view().contains(key@) ==> (r matches Err(ErrorType::InvalidPath(m))
                && m@ == "Not exist "@ + key@ + " in the repository access permission."@),
            self.paths_view().no_duplicates(),
    {
        proof { use_type_invariant(self); }
        match self.position(key) {
            Some(k) => Ok(k),
            None => {
                let mut m = String::from_str("Not exist ");
                push_text(&mut m, key);
                push_text(&mut m, " in the repository access permission.");
                Err(ErrorType::InvalidPath(m))
            },
        }
    }
}

/// The position of a repository's lock, added first where it has none.
pub fn get_permision_for_reposiory_from_repository_access_permission(
    repository_permission: &mut RepositoryAccessPermission,
    repo_path: &str,
) -> (r: Result<usize, ErrorType>)
    ensures
        r matches Ok(k) && k < final(repository_permission).paths_view().len()
            && final(repository_permission).paths_view()[k as int] == repo_path@,
        old(repository_permission).paths_view().contains(repo_path@) ==>
            final(repository_permission).paths_view() == old(repository_permission).paths_view(),
        !old(repository_permission).paths_view().contains(repo_path@) ==>
            final(repository_permission).paths_view() == old(repository_permission).paths_view().push(repo_path@),
{
    if repository_permission.requier_write_permision(repo_path) {
        repository_permission.add_repository_to_permission(repo_path)
    } else {
        repository_permission.new_permission_for_repository(repo_path)
    }
}

/// A repository's lock has one position: where the paths hold no path
/// twice, as `add_repository_to_permission` keeps them, two positions of
/// the same path are the same position, so adding a path twice, or asking
/// for its lock afterwards, gives the same position.
pub proof fn law_one_position(paths: Seq<Seq<char>>, key: Seq<char>, k1: int, k2: int)
    requires
        paths.no_duplicates(),
        0 <= k1 < paths.len(),
        0 <= k2 < paths.len(),
        paths[k1] == key,
        paths[k2] == key,
    ensures
        k1 == k2,
{
}

} // verus!
