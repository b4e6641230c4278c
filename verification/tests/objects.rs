use git_rustico::blob::Blob;
use git_rustico::commit::{Commit, CommitDate};
use git_rustico::compressor::Compressor;
use git_rustico::errors::ErrorType;
use git_rustico::git_object::{GitObject, ObjectStore};
use git_rustico::hash::GitHash;
use git_rustico::object_type::ObjectType;
use git_rustico::tree::Tree;
use git_rustico::user::User;
use git_rustico::merge::Merge;
use git_rustico::branch::Branch;
use git_rustico::config::RepoConfig;
use git_rustico::network::get_packfile_objects;
use git_rustico::index::Index;

fn date(ts: i64) -> CommitDate {
    CommitDate { timestamp: ts, offset: "+00:00".to_string(), display: "some day".to_string() }
}

#[test]
fn compress_then_uncompress_gives_the_bytes_back() {
    let data = b"some bytes \x00\x01\x02".to_vec();
    let packed = Compressor::compress(data.clone()).unwrap();
    assert_ne!(packed, data);
    assert_eq!(Compressor::uncompress(&packed).unwrap(), data);
    assert!(Compressor::uncompress(b"not zlib").is_err());
}

#[test]
fn saved_object_reads_back() {
    let mut store = ObjectStore::new();
    let hash = GitObject::save_blob(b"hello world".to_vec(), &mut store).unwrap();
    assert_eq!(hash.to_string(), GitHash::hash_blob(&b"hello world".to_vec()).to_string());
    let (t, size, content) = GitObject::parse_object(&hash, &store).unwrap();
    assert_eq!(t, ObjectType::Blob);
    assert_eq!(size, 11);
    assert_eq!(content, b"hello world".to_vec());
    assert_eq!(GitObject::read_blob(&hash, &store).unwrap().get_content(), "hello world");
    GitObject::delete_object(&hash, &mut store);
    assert!(GitObject::read_blob(&hash, &store).is_err());
}

#[test]
fn reading_a_blob_as_a_tree_is_an_object_type_error() {
    let mut store = ObjectStore::new();
    let hash = GitObject::save_blob(b"x".to_vec(), &mut store).unwrap();
    match GitObject::read_tree(&hash, &store) {
        Err(ErrorType::ObjectType(a, b)) => {
            assert_eq!(a, "tree");
            assert_eq!(b, "blob");
        }
        _ => panic!("expected an object type error"),
    }
}

#[test]
fn object_content_header_is_parsed() {
    let (t, size, content) = GitObject::parse_object_content(b"blob 3\0asd".to_vec()).unwrap();
    assert_eq!((t, size, content), (ObjectType::Blob, 3, b"asd".to_vec()));
    assert!(GitObject::parse_object_content(b"blob 3asd".to_vec()).is_err());
}

#[test]
fn hash_text_roundtrips_through_bytes() {
    let h = GitHash::hash_blob(&b"abc".to_vec());
    let bytes = h.to_hex().unwrap();
    assert_eq!(bytes.len(), 20);
    assert_eq!(GitHash::from_hex(&bytes).unwrap().to_string(), h.to_string());
    assert!(GitHash::new("abc").is_err());
    match GitHash::new("short") {
        Err(e) => assert_eq!(e.to_string(), "ERROR:[Invalid hash 'short'. Hashes must be 40 characters long]"),
        Ok(_) => panic!("expected an error"),
    }
}

#[test]
fn empty_blob_hash_is_the_known_one() {
    assert_eq!(GitHash::hash_blob(&Vec::new()).to_string(), "e69de29bb2d1d6434b8b29ae775ad8c2e48c5391");
    assert_eq!(Blob::new(String::new()).get_hash().to_string(), "e69de29bb2d1d6434b8b29ae775ad8c2e48c5391");
}

#[test]
fn tree_lists_added_files() {
    let a = GitHash::hash_blob(&b"a".to_vec());
    let b = GitHash::hash_blob(&b"b".to_vec());
    let mut tree = Tree::new();
    tree.add("dir/b.txt", b.clone());
    tree.add("a.txt", a.clone());
    let files = tree.get_files_vec();
    assert_eq!(files.len(), 2);
    assert!(files.iter().any(|(p, h)| p == "a.txt" && h.to_string() == a.to_string()));
    assert!(files.iter().any(|(p, h)| p == "dir/b.txt" && h.to_string() == b.to_string()));
}

#[test]
fn tree_saved_reads_back() {
    let mut store = ObjectStore::new();
    let a = GitObject::save_blob(b"a".to_vec(), &mut store).unwrap();
    let mut tree = Tree::new();
    tree.add("x/y/a.txt", a.clone());
    tree.save(&mut store).unwrap();
    let hash = tree.get_hash().unwrap();
    let read = GitObject::read_tree(&hash, &store).unwrap();
    let files = read.get_files_vec();
    assert_eq!(files.len(), 1);
    assert_eq!(files[0].0, "x/y/a.txt");
    assert_eq!(files[0].1.to_string(), a.to_string());
}

#[test]
fn commit_saved_reads_back() {
    let mut store = ObjectStore::new();
    let a = GitObject::save_blob(b"a".to_vec(), &mut store).unwrap();
    let mut tree = Tree::new();
    tree.add("a.txt", a);
    let user = User::new("Ana", "ana@mail");
    let commit = Commit::new_at(tree, None, None, "first", user, date(1000)).unwrap();
    commit.save(&mut store).unwrap();
    let read = GitObject::read_commit(&commit.get_hash(), &store).unwrap();
    assert_eq!(read.get_message(), "first");
    assert_eq!(read.get_user().get_name(), "Ana");
    assert_eq!(read.get_user().get_mail(), "ana@mail");
    assert!(read.get_parent_hash().is_none());
    assert_eq!(read.get_hash().to_string(), commit.get_hash().to_string());
    let content = String::from_utf8(commit.get_content().unwrap()).unwrap();
    assert!(content.starts_with("tree "));
    assert!(content.contains("author Ana <ana@mail> 1000 +0000"));
}

#[test]
fn history_and_common_ancestor() {
    let mut store = ObjectStore::new();
    let user = User::new("Ana", "ana@mail");
    let c1 = Commit::new_at(Tree::new(), None, None, "one", user.clone(), date(1)).unwrap();
    c1.save(&mut store).unwrap();
    let c2 = Commit::new_at(Tree::new(), Some(c1.get_hash()), None, "two", user.clone(), date(2)).unwrap();
    c2.save(&mut store).unwrap();
    let c3 = Commit::new_at(Tree::new(), Some(c1.get_hash()), None, "three", user.clone(), date(3)).unwrap();
    c3.save(&mut store).unwrap();
    let history = c2.get_commits_history(&store).unwrap();
    let messages: Vec<String> = history.iter().map(|c| c.get_message()).collect();
    assert_eq!(messages, vec!["two", "one"]);
    let lca = c3.last_common_ancestor(&c2, &store).unwrap().unwrap();
    assert_eq!(lca.get_message(), "one");
}

#[test]
fn merge_of_diverged_branches_makes_a_merge_commit() {
    let mut store = ObjectStore::new();
    let user = User::new("Ana", "ana@mail");
    let base_blob = GitObject::save_blob(b"line 1\nline 2\nline 3\n".to_vec(), &mut store).unwrap();
    let head_blob = GitObject::save_blob(b"line 0\nline 1\nline 2\nline 3\n".to_vec(), &mut store).unwrap();
    let branch_blob = GitObject::save_blob(b"line 1\nline 2\nline 3\nline 4\n".to_vec(), &mut store).unwrap();
    let other = GitObject::save_blob(b"new".to_vec(), &mut store).unwrap();
    let mut t0 = Tree::new();
    t0.add("f.txt", base_blob);
    let c0 = Commit::new_at(t0, None, None, "base", user.clone(), date(1)).unwrap();
    c0.save(&mut store).unwrap();
    let mut th = Tree::new();
    th.add("f.txt", head_blob);
    let ch = Commit::new_at(th, Some(c0.get_hash()), None, "head", user.clone(), date(2)).unwrap();
    ch.save(&mut store).unwrap();
    let mut tb = Tree::new();
    tb.add("f.txt", branch_blob);
    tb.add("g.txt", other);
    let cb = Commit::new_at(tb, Some(c0.get_hash()), None, "branch", user.clone(), date(3)).unwrap();
    cb.save(&mut store).unwrap();
    let (modified, conflicts) = Merge::compare_files(ch.get_files_vec(), cb.get_files_vec(), c0.get_files_vec(), &store).unwrap();
    assert!(conflicts.is_empty());
    let mut names: Vec<String> = modified.iter().map(|(p, _)| p.clone()).collect();
    names.sort();
    assert_eq!(names, vec!["f.txt", "g.txt"]);
    let merged = modified.iter().find(|(p, _)| p == "f.txt").unwrap();
    assert_eq!(merged.1.get_content(), "line 0\nline 1\nline 2\nline 3\nline 4");

    let mut head_branch = Branch::new("master", "refs/heads", ch.get_hash());
    let branch = Branch::new("dev", "refs/heads", cb.get_hash());
    let config = RepoConfig::open("config", Some("")).unwrap();
    let (m, c) = Merge::merge(&mut head_branch, branch, &mut store, None, Some(user), &config).unwrap();
    assert_eq!(m.len(), 2);
    assert!(c.is_empty());
    let merge_commit = head_branch.get_last_commit(&store).unwrap();
    assert_eq!(merge_commit.get_message(), "Merge branch <dev> into <master>");
    assert_eq!(merge_commit.get_parent_hash().unwrap().to_string(), ch.get_hash().to_string());
    assert_eq!(merge_commit.get_second_parent_hash().unwrap().to_string(), cb.get_hash().to_string());
}

#[test]
fn merge_fast_forwards_when_head_is_the_ancestor() {
    let mut store = ObjectStore::new();
    let user = User::new("Ana", "ana@mail");
    let c0 = Commit::new_at(Tree::new(), None, None, "base", user.clone(), date(1)).unwrap();
    c0.save(&mut store).unwrap();
    let c1 = Commit::new_at(Tree::new(), Some(c0.get_hash()), None, "next", user.clone(), date(2)).unwrap();
    c1.save(&mut store).unwrap();
    let mut head_branch = Branch::new("master", "refs/heads", c0.get_hash());
    let branch = Branch::new("dev", "refs/heads", c1.get_hash());
    let config = RepoConfig::open("config", Some("")).unwrap();
    let (m, c) = Merge::merge(&mut head_branch, branch, &mut store, None, None, &config).unwrap();
    assert!(m.is_empty() && c.is_empty());
    assert_eq!(head_branch.get_last_commit_hash().to_string(), c1.get_hash().to_string());
}

#[test]
fn packfile_objects_skip_what_the_remote_has() {
    let mut store = ObjectStore::new();
    let user = User::new("Ana", "ana@mail");
    let a = GitObject::save_blob(b"a".to_vec(), &mut store).unwrap();
    let mut t = Tree::new();
    t.add("a.txt", a.clone());
    let c = Commit::new_at(t, None, None, "one", user, date(1)).unwrap();
    c.save(&mut store).unwrap();
    let all = get_packfile_objects(vec![c.get_hash()], Vec::new(), &store).unwrap();
    assert_eq!(all.len(), 3);
    assert_eq!(all[0].0, ObjectType::Commit);
    assert_eq!(all[1].0, ObjectType::Tree);
    assert_eq!(all[2].0, ObjectType::Blob);
    assert_eq!(all[2].2, b"a".to_vec());
    let some = get_packfile_objects(vec![c.get_hash()], vec![a], &store).unwrap();
    assert_eq!(some.len(), 2);
}

#[test]
fn history_of_a_merge_interleaves_both_parents_newest_first() {
    let mut store = ObjectStore::new();
    let user = User::new("Ana", "ana@mail");
    let c1 = Commit::new_at(Tree::new(), None, None, "one", user.clone(), date(1)).unwrap();
    c1.save(&mut store).unwrap();
    let c2 = Commit::new_at(Tree::new(), Some(c1.get_hash()), None, "two", user.clone(), date(2)).unwrap();
    c2.save(&mut store).unwrap();
    let c3 = Commit::new_at(Tree::new(), Some(c1.get_hash()), None, "three", user.clone(), date(3)).unwrap();
    c3.save(&mut store).unwrap();
    let m = Commit::new_at(Tree::new(), Some(c2.get_hash()), Some(c3.get_hash()), "merge", user.clone(), date(4)).unwrap();
    m.save(&mut store).unwrap();
    let rec: Vec<String> = m.get_commits_history_rec(&store).unwrap().iter().map(|c| c.get_message()).collect();
    assert_eq!(rec, vec!["merge", "three", "two", "one"]);
    let history: Vec<String> = m.get_commits_history(&store).unwrap().iter().map(|c| c.get_message()).collect();
    assert_eq!(history, vec!["merge", "three", "two", "one"]);
}

#[test]
fn history_with_a_missing_parent_fails() {
    let mut store = ObjectStore::new();
    let user = User::new("Ana", "ana@mail");
    let lost = Commit::new_at(Tree::new(), None, None, "lost", user.clone(), date(1)).unwrap();
    let c = Commit::new_at(Tree::new(), Some(lost.get_hash()), None, "child", user.clone(), date(2)).unwrap();
    c.save(&mut store).unwrap();
    assert!(c.get_commits_history(&store).is_err());
    assert!(c.get_commits_history_rec(&store).is_err());
    let alone = Commit::new_at(Tree::new(), None, None, "alone", user, date(3)).unwrap();
    assert!(alone.last_common_ancestor(&c, &store).is_err());
}

#[test]
fn commit_command_stores_the_commit_and_its_tree() {
    let mut store = ObjectStore::new();
    let mut index = Index::empty();
    let blob = GitObject::save_blob(b"hello".to_vec(), &mut store).unwrap();
    index.add("a.txt", "2023/01/01-00:00:00", &b"hello".to_vec());
    let written_before = store.written_objects().len();
    let c = Commit::commit_command(&mut index, None, None, Some(User::new("Ana", "ana@mail")), vec!["first".to_string()], &mut store).unwrap();
    let read = GitObject::read_commit(&c.get_hash(), &store).unwrap();
    assert_eq!(read.get_message(), "first");
    let files = read.get_files_vec();
    assert_eq!(files.len(), 1);
    assert_eq!(files[0].1.to_string(), blob.to_string());
    let written = store.written_objects();
    assert_eq!(written.len(), written_before + 2);
    assert_eq!(written[written.len() - 1].0, c.get_hash().to_string());
    assert_eq!(written[written.len() - 2].0, c.get_tree().get_hash().unwrap().to_string());
}

#[test]
fn packfile_objects_follow_the_whole_history() {
    let mut store = ObjectStore::new();
    let user = User::new("Ana", "ana@mail");
    let a = GitObject::save_blob(b"a".to_vec(), &mut store).unwrap();
    let b = GitObject::save_blob(b"b".to_vec(), &mut store).unwrap();
    let mut t1 = Tree::new();
    t1.add("a.txt", a.clone());
    let c1 = Commit::new_at(t1, None, None, "one", user.clone(), date(1)).unwrap();
    c1.save(&mut store).unwrap();
    let mut t2 = Tree::new();
    t2.add("a.txt", a.clone());
    t2.add("b.txt", b.clone());
    let c2 = Commit::new_at(t2, Some(c1.get_hash()), None, "two", user, date(2)).unwrap();
    c2.save(&mut store).unwrap();
    let objs = get_packfile_objects(vec![c2.get_hash()], Vec::new(), &store).unwrap();
    let kinds: Vec<ObjectType> = objs.iter().map(|o| o.0.clone()).collect();
    assert_eq!(kinds, vec![ObjectType::Commit, ObjectType::Tree, ObjectType::Blob, ObjectType::Blob,
        ObjectType::Commit, ObjectType::Tree]);
    assert_eq!(objs[0].1.to_string(), c2.get_hash().to_string());
    assert_eq!(objs[4].1.to_string(), c1.get_hash().to_string());
    assert_eq!(objs[2].2, b"a".to_vec());
    assert_eq!(objs[3].2, b"b".to_vec());
}
