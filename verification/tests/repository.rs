use git_rustico::blob::Blob;
use git_rustico::branch::Branch;
use git_rustico::commit::{Commit, CommitDate};
use git_rustico::errors::{ErrorType, HTTPError};
use git_rustico::git_object::{GitObject, ObjectStore};
use git_rustico::ls_tree::LsTree;
use git_rustico::pull_request::PullRequest;
use git_rustico::rebase::Rebase;
use git_rustico::refs::BranchRef;
use git_rustico::tag::Tag;
use git_rustico::tree::Tree;
use git_rustico::user::User;

fn date(ts: i64) -> CommitDate {
    CommitDate { timestamp: ts, offset: "+00:00".to_string(), display: "some day".to_string() }
}

fn commit_with_file(store: &mut ObjectStore, parent: Option<&Commit>, msg: &str, path: &str, text: &str, ts: i64) -> Commit {
    let blob = GitObject::save_blob(text.as_bytes().to_vec(), store).unwrap();
    let mut tree = Tree::new();
    tree.add(path, blob);
    let user = User::new("Ana", "ana@mail");
    let c = Commit::new_at(tree, parent.map(|p| p.get_hash()), None, msg, user, date(ts)).unwrap();
    c.save(store).unwrap();
    c
}

#[test]
fn checkout_gives_every_file_of_a_stored_commit() {
    let mut store = ObjectStore::new();
    let c = commit_with_file(&mut store, None, "one", "dir/a.txt", "hello", 1);
    let branch = Branch::new("master", "refs/heads", c.get_hash());
    let files = BranchRef::checkout_files(&branch, &store).unwrap();
    assert_eq!(files.len(), 1);
    assert_eq!(files[0].0, "dir/a.txt");
    assert_eq!(files[0].2.get_content(), "hello");
    let missing = Branch::new("lost", "refs/heads", Blob::new("x".to_string()).get_hash());
    assert!(BranchRef::checkout_files(&missing, &store).is_err());
}

#[test]
fn log_lists_the_history_of_the_head() {
    let mut store = ObjectStore::new();
    let c1 = commit_with_file(&mut store, None, "one", "a.txt", "1", 1);
    let c2 = commit_with_file(&mut store, Some(&c1), "two", "a.txt", "2", 2);
    let head = BranchRef::new(Some(Branch::new("master", "refs/heads", c2.get_hash())), "HEAD");
    let branches = vec![("master".to_string(), c2.get_hash())];
    let (n, text) = BranchRef::log_command(&head, &branches, &store).unwrap();
    assert_eq!(n, 2);
    assert!(text.starts_with(&format!("commit: {} (HEAD, master)", c2.get_hash().to_string())));
    assert!(text.contains(&format!("commit: {}\n", c1.get_hash().to_string())));
    let empty = BranchRef::new(None, "HEAD");
    assert!(BranchRef::log_command(&empty, &branches, &store).is_err());
}

#[test]
fn ls_tree_reads_the_tree_a_reference_names() {
    let mut store = ObjectStore::new();
    let c = commit_with_file(&mut store, None, "one", "a.txt", "hello", 1);
    let head = BranchRef::new(Some(Branch::new("master", "refs/heads", c.get_hash())), "HEAD");
    let files = vec![("master".to_string(), c.get_hash().to_string())];
    let tree = LsTree::get_commit_tree("master", &head, &files, "refs/heads", None, &store).unwrap();
    assert_eq!(tree.get_files_vec()[0].0, "a.txt");
    assert!(LsTree::get_commit_tree("HEAD", &head, &files, "refs/heads", None, &store).is_ok());
    assert!(LsTree::get_commit_tree("nothing", &head, &files, "refs/heads", None, &store).is_err());
    let listing = LsTree::show_tree(&vec!["HEAD".to_string()], &head, &files, "refs/heads", None, &store).unwrap();
    assert!(listing.contains("blob"));
    assert!(listing.ends_with("a.txt"));
}

#[test]
fn pull_request_is_created_for_branches_that_share_a_commit() {
    let mut store = ObjectStore::new();
    let c1 = commit_with_file(&mut store, None, "one", "a.txt", "1", 1);
    let c2 = commit_with_file(&mut store, Some(&c1), "two", "a.txt", "2", 2);
    let base = c1.get_hash().to_string();
    let target = c2.get_hash().to_string();
    let names = vec!["1.json".to_string(), "4.json".to_string()];
    let pr = PullRequest::create_pull_request("master", "dev", None, Some(base.as_str()), Some(target.as_str()),
        "refs/heads", &store, Some(&names), "pull_requests").unwrap();
    assert_eq!(pr.number, 5);
    assert_eq!(pr.state, "open");
    assert_eq!(pr.title, "Branch dev into master");
    assert_eq!(pr.hash_creation_commit, target);
    let lone = commit_with_file(&mut store, None, "lone", "b.txt", "3", 3).get_hash().to_string();
    match PullRequest::create_pull_request("master", "dev", None, Some(base.as_str()), Some(lone.as_str()),
        "refs/heads", &store, Some(&names), "pull_requests") {
        Err(ErrorType::HTTPError(HTTPError::BadRequest(m))) => assert_eq!(m, "Can't create PullRequest for branches with no common ancestor"),
        _ => panic!("expected a bad request"),
    }
    let c3 = commit_with_file(&mut store, Some(&c2), "three", "a.txt", "3", 4);
    let tip = c3.get_hash().to_string();
    let listed = pr.list_commits_pull_request(Some(tip.as_str()), "refs/heads", &store).unwrap();
    let messages: Vec<String> = listed.iter().map(|c| c.get_message()).collect();
    assert_eq!(messages, vec!["three", "two"]);
}

#[test]
fn tag_lists_and_creates() {
    let mut store = ObjectStore::new();
    let c = commit_with_file(&mut store, None, "one", "a.txt", "1", 1);
    let head = BranchRef::new(Some(Branch::new("master", "refs/heads", c.get_hash())), "HEAD");
    let tags = "v2;Ana ana@mail;h;d;\nv1;Ana ana@mail;h;d;m\n";
    let out = Tag::command_tag(&Vec::new(), tags, "config", Some(""), &head, &store);
    assert_eq!(out.printed, "v1\nv2\n");
    assert_eq!(out.result.unwrap(), "2 tags were listed");
    let out = Tag::command_tag(&vec!["-l".to_string(), "2".to_string()], tags, "config", Some(""), &head, &store);
    assert_eq!(out.printed, "v2\n");
    let config = "user_name: Ana\nuser_mail: ana@mail\n";
    let out = Tag::command_tag(&vec!["v3".to_string()], tags, "config", Some(config), &head, &store);
    assert_eq!(out.result.unwrap(), "Tag: v3, created successfully.");
    let file = out.file_text.unwrap();
    let line = file.lines().last().unwrap();
    assert!(line.starts_with(&format!("v3;Ana ana@mail;{};", c.get_hash().to_string())));
}

#[test]
fn rebase_moves_the_branch_onto_the_base() {
    let mut store = ObjectStore::new();
    let c1 = commit_with_file(&mut store, None, "one", "a.txt", "1", 1);
    let c2 = commit_with_file(&mut store, Some(&c1), "two", "a.txt", "2", 2);
    let c3 = commit_with_file(&mut store, Some(&c1), "three", "b.txt", "3", 3);
    let files = vec![("master".to_string(), c2.get_hash().to_string()), ("dev".to_string(), c3.get_hash().to_string())];
    let (m, moved) = Rebase::rebase(&vec!["master".to_string(), "dev".to_string()], "master", &files, "refs/heads", &mut store).unwrap();
    assert_eq!(m, "Branch base: master for: dev.");
    assert_eq!(moved.get_name(), "dev");
    let tip = moved.get_last_commit(&store).unwrap();
    assert_eq!(tip.get_parent_hash().unwrap().to_string(), c2.get_hash().to_string());
    assert!(Rebase::rebase(&vec!["master".to_string(), "nope".to_string()], "master", &files, "refs/heads", &mut store).is_err());
}

#[test]
fn conflicting_branches_are_refused_for_a_pull_request_merge_check() {
    let mut store = ObjectStore::new();
    let c0 = commit_with_file(&mut store, None, "base", "f.txt", "line 1\nline 2\nline 3\n", 1);
    let ch = commit_with_file(&mut store, Some(&c0), "head", "f.txt", "line 1\nline 4\nline 3\n", 2);
    let cb = commit_with_file(&mut store, Some(&c0), "branch", "f.txt", "line 1\nline 5\nline 3\n", 3);
    let base = Branch::new("master", "refs/heads", ch.get_hash());
    let target = Branch::new("dev", "refs/heads", cb.get_hash());
    match PullRequest::verify_no_conflicts(&base, &target, &store) {
        Err(ErrorType::HTTPError(HTTPError::MethodNotAllowed(m))) =>
            assert_eq!(m, "Can't merge PullRequest, some conflicts need to be solved in files: f.txt"),
        _ => panic!("expected the conflict to be reported"),
    }
    let mut head_branch = Branch::new("master", "refs/heads", ch.get_hash());
    let config = git_rustico::config::RepoConfig::open("config", Some("")).unwrap();
    let (_, conflicts) = git_rustico::merge::Merge::merge(&mut head_branch, target, &mut store, None, None, &config).unwrap();
    assert_eq!(conflicts.len(), 1);
    assert_eq!(conflicts[0].0, "f.txt");
    assert_eq!(head_branch.get_last_commit_hash().to_string(), ch.get_hash().to_string());
}

#[test]
fn rebase_saves_the_new_commits_and_drops_the_old() {
    let mut store = ObjectStore::new();
    let c1 = commit_with_file(&mut store, None, "one", "a.txt", "1", 1);
    let c2 = commit_with_file(&mut store, Some(&c1), "two", "a.txt", "2", 2);
    let c3 = commit_with_file(&mut store, Some(&c1), "three", "b.txt", "3", 3);
    let c4 = commit_with_file(&mut store, Some(&c3), "four", "b.txt", "4", 4);
    let written_before = store.written_objects().len();
    let files = vec![("master".to_string(), c2.get_hash().to_string()), ("dev".to_string(), c4.get_hash().to_string())];
    let (_, moved) = Rebase::rebase(&vec!["dev".to_string()], "master", &files, "refs/heads", &mut store).unwrap();
    assert!(store.get(&c3.get_hash().to_string()).is_none());
    assert!(store.get(&c4.get_hash().to_string()).is_none());
    assert!(store.get(&c1.get_hash().to_string()).is_some());
    let tip = moved.get_last_commit(&store).unwrap();
    assert_eq!(tip.get_message(), "four");
    let middle = GitObject::read_commit(&tip.get_parent_hash().unwrap(), &store).unwrap();
    assert_eq!(middle.get_message(), "three");
    assert_eq!(middle.get_parent_hash().unwrap().to_string(), c2.get_hash().to_string());
    let written = store.written_objects();
    assert!(written.len() > written_before);
    assert_eq!(written.last().unwrap().0, tip.get_hash().to_string());
}
