use git_rustico::http_protocol::{HTTPRequest, HttpRoute};
use git_rustico::http_response::HTTPResponse;
use git_rustico::pull_request::{PullRequest, get_highest_pr_number};
use git_rustico::errors::{ErrorType, HTTPError, CommandError};
use git_rustico::hash::GitHash;
use git_rustico::remote::Remote;
use git_rustico::network::{parse_ref_line, read_server_refs, references_to_update, fetch_wants, check_nak,
    send_commands, fetch_request_lines, parse_refs_to_push, parse_pull_branch_name, clone_branches, pull_report,
    head_update_line};
use git_rustico::repository_access_permission::{RepositoryAccessPermission, get_permision_for_reposiory_from_repository_access_permission};

fn pr(number: usize, state: &str, base: &str) -> PullRequest {
    PullRequest {
        number,
        title: "t".to_string(),
        state: state.to_string(),
        branch_base: base.to_string(),
        branch_target: "dev".to_string(),
        hash_creation_commit: "0000".to_string(),
    }
}

fn h(c: char) -> GitHash {
    GitHash::new(&c.to_string().repeat(40)).unwrap()
}

#[test]
fn routes_of_requests() {
    match HTTPRequest::route("GET", "/repos/r/pulls", None).unwrap() {
        HttpRoute::ListPulls(repo, q) => { assert_eq!(repo, "r"); assert_eq!(q, "pulls"); }
        _ => panic!("wrong route"),
    }
    match HTTPRequest::route("GET", "/repos/r/pulls/2/commits", None).unwrap() {
        HttpRoute::ListCommits(repo, n) => { assert_eq!(repo, "r"); assert_eq!(n, "2"); }
        _ => panic!("wrong route"),
    }
    match HTTPRequest::route("PUT", "/repos/r/pulls/3/merge", Some("{}".to_string())).unwrap() {
        HttpRoute::MergePull(repo, n, b) => { assert_eq!(repo, "r"); assert_eq!(n, "3"); assert_eq!(b, "{}"); }
        _ => panic!("wrong route"),
    }
    match HTTPRequest::route("POST", "/repos/r/pulls", None) {
        Err(ErrorType::HTTPError(HTTPError::BadRequest(m))) => assert_eq!(m, "POST, PUT and PATCH must include a body"),
        _ => panic!("expected bad request"),
    }
    match HTTPRequest::route("GET", "/other/r/pulls", None) {
        Err(ErrorType::HTTPError(HTTPError::BadRequest(m))) => assert_eq!(m, "Invalid URI request"),
        _ => panic!("expected bad request"),
    }
    match HTTPRequest::route("DELETE", "/repos/r/pulls/1", None) {
        Err(ErrorType::HTTPError(HTTPError::BadRequest(m))) => assert_eq!(m, "DELETE"),
        _ => panic!("expected bad request"),
    }
}

#[test]
fn headers_and_queries() {
    let lines = vec!["Host: x".to_string(), "Content-Length: 12".to_string()];
    let headers = HTTPRequest::parse_headers(&lines).unwrap();
    assert_eq!(headers[1], ("Content-Length".to_string(), "12".to_string()));
    assert_eq!(HTTPRequest::content_length(&headers).unwrap(), 12);
    assert!(HTTPRequest::parse_headers(&vec!["bad".to_string()]).is_err());
    let q = HTTPRequest::parse_query("pulls?state=open&base=main").unwrap();
    assert_eq!(q, vec![("state".to_string(), "open".to_string()), ("base".to_string(), "main".to_string())]);
    assert!(HTTPRequest::parse_query("pulls").unwrap().is_empty());
    assert!(HTTPRequest::parse_query("pulls?x").is_err());
}

#[test]
fn pull_requests_are_filtered() {
    let list = vec![pr(1, "open", "main"), pr(2, "closed", "main"), pr(3, "open", "other")];
    let open = HTTPRequest::filter_pull_requests(list, "pulls?state=open&base=main").unwrap();
    assert_eq!(open.len(), 1);
    assert_eq!(open[0].number, 1);
    let list = vec![pr(1, "open", "main"), pr(2, "closed", "main")];
    let closed = HTTPRequest::filter_pull_requests(list, "pulls?state=closed").unwrap();
    assert_eq!(closed.len(), 1);
    assert_eq!(closed[0].number, 2);
    let list = vec![pr(1, "open", "main")];
    match HTTPRequest::filter_pull_requests(list, "pulls?state=bad") {
        Err(ErrorType::HTTPError(HTTPError::BadRequest(m))) => assert_eq!(m, "Invalid state query: bad"),
        _ => panic!("expected bad request"),
    }
    let list = vec![pr(1, "open", "main")];
    assert_eq!(HTTPRequest::filter_pull_requests(list, "pulls?state=bad&state=all").unwrap().len(), 1);
}

#[test]
fn responses_of_outcomes() {
    let ok = HTTPResponse::new(&Ok("{}".to_string()), "POST");
    assert_eq!(ok.get_status(), "201 Created");
    assert_eq!(String::from_utf8(ok.as_bytes()).unwrap(), "HTTP/1.1 201 Created\r\nContent-Type: application/json\r\n\r\n{}");
    let err: Result<String, ErrorType> = Err(ErrorType::HTTPError(HTTPError::NotFound("x".to_string())));
    let nf = HTTPResponse::new(&err, "GET");
    assert_eq!(nf.get_status(), "404 Not Found");
    assert_eq!(nf.body, "ERROR[404 Not Found: x]");
    let other: Result<String, ErrorType> = Err(ErrorType::RepositoryError("y".to_string()));
    assert_eq!(HTTPResponse::new(&other, "GET").get_status(), "500 Internal Server Error");
}

#[test]
fn json_bodies() {
    let (b, h, t) = HTTPRequest::parse_json_create_body(r#"{"base":"main","head":"dev","title":"new"}"#).unwrap();
    assert_eq!((b.as_str(), h.as_str(), t), ("main", "dev", Some("new".to_string())));
    let (_, _, t) = HTTPRequest::parse_json_create_body(r#"{"base":"main","head":"dev"}"#).unwrap();
    assert!(t.is_none());
    match HTTPRequest::parse_json_create_body("not json") {
        Err(ErrorType::RepositoryError(m)) => assert_eq!(m, "Error deserializing http request body"),
        _ => panic!("expected an error"),
    }
    match HTTPRequest::parse_json_create_body(r#"{"head":"dev"}"#) {
        Err(ErrorType::RepositoryError(m)) => assert_eq!(m, "Error reading branch_base from http request body"),
        _ => panic!("expected an error"),
    }
    let (u, m) = HTTPRequest::parse_json_merge_body(r#"{"user":{"name":"Ana","mail":"a@b"},"message":"ok"}"#).unwrap();
    assert_eq!((u.get_name(), u.get_mail(), m), ("Ana".to_string(), "a@b".to_string(), "ok".to_string()));
    match HTTPRequest::parse_json_merge_body(r#"{"user":{"name":"Ana"},"message":"ok"}"#) {
        Err(ErrorType::RepositoryError(m)) => assert_eq!(m, "Error deserializing user from http request body"),
        _ => panic!("expected an error"),
    }
    assert_eq!(HTTPRequest::merged_answer("done"), "{\"merged\": true, \"message\": \"done\"}");
}

#[test]
fn patch_changes_title_and_state() {
    let mut p = pr(1, "open", "main");
    HTTPRequest::patch_pull_request(&mut p, r#"{"title":"new","state":"closed"}"#, &Vec::new(), "refs/heads").unwrap();
    assert_eq!(p.title, "new");
    assert_eq!(p.state, "closed");
    assert!(HTTPRequest::patch_pull_request(&mut p, r#"{"state":"weird"}"#, &Vec::new(), "refs/heads").is_err());
    let files = vec![("release".to_string(), "c".repeat(40))];
    HTTPRequest::patch_pull_request(&mut p, r#"{"base":"release"}"#, &files, "refs/heads").unwrap();
    assert_eq!(p.branch_base, "release");
}

#[test]
fn pull_request_numbers_and_state() {
    let names = vec!["1.json".to_string(), "7.json".to_string(), "3.json".to_string()];
    assert_eq!(get_highest_pr_number(Some(&names), "pulls").unwrap(), 7);
    let bad = vec!["x.json".to_string()];
    match get_highest_pr_number(Some(&bad), "pulls") {
        Err(ErrorType::HTTPError(HTTPError::BadRequest(m))) => assert_eq!(m, "Invalid PullRequest name: x.json"),
        _ => panic!("expected bad request"),
    }
    assert!(get_highest_pr_number(None, "pulls").is_err());
    match PullRequest::get_pull_request("4", None) {
        Err(ErrorType::HTTPError(HTTPError::NotFound(m))) => assert_eq!(m, "Pull Request 4 not found"),
        _ => panic!("expected not found"),
    }
    let mut p = pr(1, "open", "main");
    assert!(p.is_open());
    p.close();
    assert!(p.is_closed());
    match p.merge_pull_request(Ok((git_rustico::user::User::new("a", "b"), "m".to_string())), None, None, "refs/heads", &mut git_rustico::git_object::ObjectStore::new()) {
        Err(ErrorType::HTTPError(HTTPError::MethodNotAllowed(m))) => assert_eq!(m, "Can't merge PullRequest, it is already closed"),
        _ => panic!("expected method not allowed"),
    }
}

#[test]
fn reference_lines() {
    let hash = "a".repeat(40);
    let (kind, name, h) = parse_ref_line(format!("{} refs/heads/master", hash)).unwrap();
    assert_eq!((kind.as_str(), name.as_str(), h.to_string()), ("heads", "master", hash.clone()));
    let (kind, name, _) = parse_ref_line(format!("{} HEAD", hash)).unwrap();
    assert_eq!((kind.as_str(), name.as_str()), ("heads", "HEAD"));
    match parse_ref_line("nospace".to_string()) {
        Err(ErrorType::ProtocolError(m)) => assert_eq!(m, "invalid ref line 'nospace'"),
        _ => panic!("expected an error"),
    }
    assert!(parse_ref_line(format!("{} refs/x", hash)).is_err());
}

#[test]
fn server_refs_are_read() {
    let lines = vec![
        "version 1".to_string(),
        format!("{} HEAD\0multi_ack", "a".repeat(40)),
        format!("{} refs/heads/master", "a".repeat(40)),
        format!("{} refs/tags/v1", "b".repeat(40)),
    ];
    let (heads, tags) = read_server_refs(&lines).unwrap();
    assert_eq!(heads.len(), 2);
    assert_eq!(heads[0].0, "HEAD");
    assert_eq!(tags[0].0, "v1");
    let empty = vec![format!("{} capabilities^{{}}", "0".repeat(40))];
    let (heads, tags) = read_server_refs(&empty).unwrap();
    assert!(heads.is_empty() && tags.is_empty());
}

#[test]
fn push_commands_and_fetch_wants() {
    let local = vec![("master".to_string(), h('a')), ("dev".to_string(), h('b'))];
    let remote = vec![("master".to_string(), h('c')), ("old".to_string(), h('d'))];
    let (cmds, commits) = references_to_update(&local, &remote).unwrap();
    assert_eq!(cmds.len(), 3);
    assert_eq!((cmds[0].0.to_string(), cmds[0].1.to_string(), cmds[0].2.clone()), ("c".repeat(40), "a".repeat(40), "master".to_string()));
    assert_eq!((cmds[1].0.to_string(), cmds[1].2.clone()), ("0".repeat(40), "dev".to_string()));
    assert_eq!((cmds[2].1.to_string(), cmds[2].2.clone()), ("0".repeat(40), "old".to_string()));
    assert_eq!(commits.len(), 2);
    let lines = send_commands(&cmds, true).unwrap();
    assert!(lines[0].ends_with("refs/heads/master\0\n"));
    assert!(lines[1].ends_with("refs/heads/dev\n"));
    assert!(fetch_wants(&local, &local).is_none());
    let wants = fetch_wants(&remote, &local).unwrap();
    assert_eq!(wants.len(), 2);
    let req = fetch_request_lines(&wants).unwrap();
    assert_eq!(req.len(), 4);
    assert_eq!(req[2], "0000");
    assert_eq!(req[3], "0009done\n");
    assert!(check_nak(Some("NAK".to_string())).is_ok());
    match check_nak(None) {
        Err(ErrorType::ProtocolError(m)) => assert_eq!(m, "expected NAK line got flush line (0000)"),
        _ => panic!("expected an error"),
    }
}

#[test]
fn push_and_pull_arguments() {
    let files = vec![("master".to_string(), "a".repeat(40)), ("dev".to_string(), "b".repeat(40))];
    let all = parse_refs_to_push(&vec!["--all".to_string()], None, &files, "refs/heads").unwrap();
    assert_eq!(all.len(), 2);
    let one = parse_refs_to_push(&vec!["dev".to_string()], None, &files, "refs/heads").unwrap();
    assert_eq!(one[0].1.to_string(), "b".repeat(40));
    assert!(parse_refs_to_push(&Vec::new(), None, &files, "refs/heads").is_err());
    let mut remote = Remote::empty("remote");
    remote.set_upstream("master".to_string(), "origin".to_string(), "master".to_string());
    let remote_branches = vec!["master".to_string()];
    assert_eq!(parse_pull_branch_name(&Vec::new(), "master", &remote, &remote_branches).unwrap(), "master");
    assert!(parse_pull_branch_name(&Vec::new(), "dev", &remote, &remote_branches).is_err());
    assert!(parse_pull_branch_name(&vec!["nope".to_string()], "master", &remote, &remote_branches).is_err());
    assert_eq!(pull_report(&Vec::new(), &Vec::new()), "Pull completed succesfully with fast-forward merge\n");
}

#[test]
fn clone_sets_up_branches() {
    let refs = vec![("master".to_string(), h('a')), ("dev".to_string(), h('b'))];
    let mut remote = Remote::empty("remote");
    let (branches, head) = clone_branches(&"b".repeat(40), &refs, "refs/heads", &mut remote).unwrap();
    assert_eq!(branches.len(), 2);
    assert_eq!(head.get_name(), "dev");
    assert_eq!(remote.get_upstream("dev").unwrap(), ("origin".to_string(), "dev".to_string()));
    let mut remote = Remote::empty("remote");
    let (_, head) = clone_branches(&"c".repeat(40), &refs, "refs/heads", &mut remote).unwrap();
    assert_eq!(head.get_name(), "master");
}

#[test]
fn repository_locks_are_registered_once() {
    let mut perms = RepositoryAccessPermission::init_repository_access_permission();
    assert!(perms.requier_write_permision("repo"));
    let a = get_permision_for_reposiory_from_repository_access_permission(&mut perms, "repo").unwrap();
    let b = get_permision_for_reposiory_from_repository_access_permission(&mut perms, "repo").unwrap();
    assert_eq!(a, b);
    assert!(!perms.requier_write_permision("repo"));
    match perms.new_permission_for_repository("other") {
        Err(ErrorType::InvalidPath(m)) => assert_eq!(m, "Not exist other in the repository access permission."),
        _ => panic!("expected an error"),
    }
}

#[test]
fn remote_rename_follows_the_command_results() {
    let mut remote = Remote::empty("remote");
    let add = vec!["add".to_string(), "origin".to_string(), "git://h/r".to_string()];
    Remote::remote_command(&add, &mut remote).unwrap();
    let rename = vec!["rename".to_string(), "origin".to_string(), "up".to_string()];
    match Remote::remote_command(&rename, &mut remote) {
        Err(ErrorType::CommandError(CommandError::InvalidArgument(m))) => assert_eq!(m, "no such remote: origin"),
        _ => panic!("a rename that took place reports an error"),
    }
    assert_eq!(remote.get_url("up").unwrap(), "git://h/r");
    assert!(remote.get_url("origin").is_none());
    let missing = vec!["rename".to_string(), "nope".to_string(), "x".to_string()];
    let (text, changed) = Remote::remote_command(&missing, &mut remote).unwrap();
    assert_eq!(text, "");
    assert!(!changed);
    assert_eq!(remote.get_url("up").unwrap(), "git://h/r");
}

#[test]
fn push_head_update_line() {
    assert!(head_update_line(&h('a'), &h('a')).unwrap().is_none());
    let line = head_update_line(&h('c'), &h('a')).unwrap().unwrap();
    let body = format!("{} {} HEAD\0", "c".repeat(40), "a".repeat(40));
    assert_eq!(line, format!("{:04x}{}\n", body.len() + 5, body));
    assert!(line.starts_with("005c"));
}
