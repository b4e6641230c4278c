use vstd::prelude::*;
use crate::errors::ErrorType;

verus! {

/// Whether a repository can be created where one may already exist (its
/// directory's existence is given); the message of success. The directories
/// and files are to be created afterwards.
pub fn git_init(repository_exists: bool) -> (r: Result<String, ErrorType>)
    ensures
        repository_exists ==> (r matches Err(ErrorType::RepositoryError(m)) && m@ == "Already a git-rustico repository"@),
        !repository_exists ==> (r matches Ok(m) && m@ == "git-rustico repository succesfully created"@),
{
    if repository_exists {
        return Err(ErrorType::RepositoryError(String::from_str("Already a git-rustico repository")));
    }
    Ok(String::from_str("git-rustico repository succesfully created"))
}

} // verus!
