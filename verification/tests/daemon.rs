use git_rustico::daemon::{
    expect_done, head_after_push, parse_command_line, parse_git_request, server_commits_to_update, server_ref_lines,
    want_hash,
};
use git_rustico::errors::{CommandError, ErrorType};
use git_rustico::git_object::{GitObject, ObjectStore};
use git_rustico::hash::GitHash;
use git_rustico::http_protocol::HTTPRequest;
use git_rustico::ls_tree::LsTree;
use git_rustico::object_type::ObjectType;
use git_rustico::show_ref::ShowRef;
use git_rustico::text::split_ascii_whitespace;
use git_rustico::tree::Tree;

fn h(c: char) -> GitHash {
    GitHash::new(&c.to_string().repeat(40)).unwrap()
}

fn zero() -> GitHash {
    h('0')
}

#[test]
fn git_request_parts() {
    let (command, repo, host) = parse_git_request("git-upload-pack /repo\0host=127.0.0.1:9418\0\0version=1\0").unwrap();
    assert_eq!(command, "git-upload-pack");
    assert_eq!(repo, "repo");
    assert_eq!(host, "host=127.0.0.1:9418");
    match parse_git_request("git-upload-pack") {
        Err(ErrorType::ProtocolError(m)) => assert_eq!(m, "invalid request"),
        _ => panic!("expected an error"),
    }
    match parse_git_request("git-upload-pack /repo") {
        Err(ErrorType::ProtocolError(m)) => assert_eq!(m, "invalid request"),
        _ => panic!("expected an error"),
    }
}

#[test]
fn ascii_words_split() {
    assert_eq!(split_ascii_whitespace("  a\tb\r\nc  "), vec!["a", "b", "c"]);
    assert_eq!(split_ascii_whitespace("a\u{a0}b"), vec!["a\u{a0}b"]);
}

#[test]
fn want_lines() {
    let hash = want_hash(&format!("want {}", "a".repeat(40))).unwrap();
    assert_eq!(hash.to_string(), "a".repeat(40));
    match want_hash("want abc") {
        Err(ErrorType::InvalidHash(s)) => assert_eq!(s, "abc"),
        _ => panic!("expected an error"),
    }
    assert!(expect_done(Some("done".to_string())).is_ok());
    match expect_done(None) {
        Err(ErrorType::ProtocolError(m)) => assert_eq!(m, "expected a done line, got a flush line"),
        _ => panic!("expected an error"),
    }
    match expect_done(Some("more".to_string())) {
        Err(ErrorType::ProtocolError(m)) => assert_eq!(m, "expected a done line, got more"),
        _ => panic!("expected an error"),
    }
}

#[test]
fn command_lines_of_a_push() {
    let a = "a".repeat(40);
    let b = "b".repeat(40);
    let (old, new, name) = parse_command_line(&format!("{a} {b} refs/heads/master\0report-status")).unwrap();
    assert_eq!(old.to_string(), a);
    assert_eq!(new.to_string(), b);
    assert_eq!(name, "master");
    let (_, _, name) = parse_command_line(&format!("{a} {b} HEAD")).unwrap();
    assert_eq!(name, "HEAD");
    match parse_command_line("a b") {
        Err(ErrorType::ProtocolError(m)) => assert_eq!(m, "invalid reference line: a b"),
        _ => panic!("expected an error"),
    }
    match parse_command_line(&format!("{a} {b} refs/x")) {
        Err(ErrorType::ProtocolError(m)) => assert_eq!(m, "invalid reference: refs/x"),
        _ => panic!("expected an error"),
    }
    match parse_command_line(&format!("xyz {b} refs/heads/x")) {
        Err(ErrorType::InvalidHash(s)) => assert_eq!(s, "xyz"),
        _ => panic!("expected an error"),
    }
}

#[test]
fn push_commands_on_the_server() {
    let commands = vec![
        (zero(), h('1'), "dev".to_string()),
        (h('1'), h('2'), "master".to_string()),
        (h('0'), h('2'), "HEAD".to_string()),
        (h('1'), zero(), "old".to_string()),
    ];
    let files = vec![("master".to_string(), "1".repeat(40))];
    let (commits, head, branches) = server_commits_to_update(&commands, &files, "heads/").unwrap();
    assert_eq!(commits.len(), 2);
    assert_eq!(commits[0].to_string(), "1".repeat(40));
    assert_eq!(commits[1].to_string(), "0".repeat(40));
    let head = head.unwrap();
    assert_eq!(head.1.to_string(), "2".repeat(40));
    assert_eq!(head.2, "HEAD");
    assert_eq!(branches.len(), 2);
    assert_eq!(branches[0].save(), ("heads/dev".to_string(), "1".repeat(40)));
    assert_eq!(branches[1].save(), ("heads/master".to_string(), "2".repeat(40)));
    let missing = vec![(h('1'), h('2'), "nobranch".to_string())];
    assert!(server_commits_to_update(&missing, &files, "heads/").is_err());
}

#[test]
fn advertised_references() {
    let refs = vec![("master".to_string(), h('a'))];
    let lines = server_ref_lines(&Some(h('a')), &refs).unwrap();
    assert_eq!(lines.len(), 2);
    assert_eq!(lines[0], format!("0033{} HEAD\0\n", "a".repeat(40)));
    assert_eq!(lines[1], format!("003f{} refs/heads/master\n", "a".repeat(40)));
    let lines = server_ref_lines(&None, &refs).unwrap();
    assert_eq!(lines, vec![format!("0040{} refs/heads/master\0\n", "a".repeat(40))]);
    assert!(server_ref_lines(&None, &Vec::new()).unwrap().is_empty());
}

#[test]
fn head_after_a_push() {
    let refs = vec![("master".to_string(), h('2'))];
    let command = Some((h('1'), h('2'), "HEAD".to_string()));
    assert_eq!(head_after_push(&command, &Some("master".to_string()), &refs), Some(true));
    let other = Some((h('1'), h('3'), "HEAD".to_string()));
    assert_eq!(head_after_push(&other, &Some("master".to_string()), &refs), Some(false));
    assert_eq!(head_after_push(&command, &Some("dev".to_string()), &refs), None);
    assert_eq!(head_after_push(&None, &Some("master".to_string()), &refs), None);
}

#[test]
fn hash_object_arguments() {
    let (path, kind, write) =
        GitHash::parse_args(vec!["file.txt".to_string(), "-t".to_string(), "tree".to_string(), "-w".to_string()]).unwrap();
    assert_eq!(path, "file.txt");
    assert_eq!(kind, Some(ObjectType::Tree));
    assert!(write);
    let (path, kind, write) = GitHash::parse_args(vec!["a".to_string(), "b".to_string()]).unwrap();
    assert_eq!(path, "b");
    assert_eq!(kind, None);
    assert!(!write);
    match GitHash::parse_args(vec!["-t".to_string(), "nope".to_string()]) {
        Err(ErrorType::CommandError(CommandError::FormatError(m))) => {
            assert_eq!(m, "invalid object type 'nope' in hash-object command")
        }
        _ => panic!("expected an error"),
    }
    match GitHash::parse_args(Vec::new()) {
        Err(ErrorType::CommandError(CommandError::FormatError(m))) => {
            assert_eq!(m, "path not found for hash-object command")
        }
        _ => panic!("expected an error"),
    }
}

#[test]
fn show_ref_lists_tags() {
    let a = "a".repeat(40);
    let b = "b".repeat(40);
    let tags = format!("v1;me;{a};2023;first\nv2;me;{b};2023;");
    let text = ShowRef::show_ref(&vec!["--tags".to_string()], &Vec::new(), &Vec::new(), Some(&tags)).unwrap();
    let mut lines: Vec<&str> = text.split('\n').collect();
    lines.sort();
    assert_eq!(lines, vec![format!("{a} v1 first"), format!("{b} v2")]);
    let only_hashes =
        ShowRef::show_ref(&vec!["--tags".to_string(), "-s".to_string()], &Vec::new(), &Vec::new(), Some(&tags)).unwrap();
    let mut lines: Vec<&str> = only_hashes.split('\n').collect();
    lines.sort();
    assert_eq!(lines, vec![a.clone(), b.clone()]);
    assert!(ShowRef::show_ref(&vec!["--tags".to_string()], &Vec::new(), &Vec::new(), None).is_err());
    let bad_branch = vec![("master".to_string(), "short".to_string())];
    assert!(ShowRef::show_ref(&vec!["--heads".to_string()], &bad_branch, &Vec::new(), None).is_err());
}

#[test]
fn ls_tree_lists_a_blob() {
    let mut store = ObjectStore::new();
    let hash = GitObject::save_blob(b"hello".to_vec(), &mut store).unwrap();
    let mut tree = Tree::new();
    tree.add("a.txt", hash.clone());
    let ls = LsTree { tree, ref_path: String::new(), option_size: true, format: String::new() };
    let text = ls.output_info(&store).unwrap();
    assert_eq!(text, format!("100644 blob {} 5  a.txt", hash.to_string()));
    let (kind, mode) = LsTree::get_type_mode(&hash, &store).unwrap();
    assert_eq!((kind.as_str(), mode.as_str()), ("blob", "100644"));
    assert!(ls.output_info(&ObjectStore::new()).is_err());
}

#[test]
fn request_line_of_http() {
    let (method, uri) = HTTPRequest::parse_request_line("GET /repos/x/pulls HTTP/1.1");
    assert_eq!(method, "GET");
    assert_eq!(uri, "/repos/x/pulls");
}
