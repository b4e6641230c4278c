use git_rustico::pkt_line::{create_pkt_line, read_pkt_line, pkt_line_size};
use git_rustico::config::RepoConfig;
use git_rustico::index::Index;
use git_rustico::index_file_info::IndexFileInfo;
use git_rustico::remote::Remote;
use git_rustico::branch::Branch;
use git_rustico::tag::Tag;
use git_rustico::ignore::Ignore;
use git_rustico::ls_file::LsFile;
use git_rustico::show_ref::ShowRef;
use git_rustico::errors::{CommandError, ErrorType, HTTPError};

#[test]
fn pkt_line_frames_and_reads_back() {
    let line = create_pkt_line("hello").unwrap();
    assert_eq!(line, "000ahello\n");
    let (content, used) = read_pkt_line(line.as_bytes()).unwrap();
    assert_eq!(content.unwrap(), "hello");
    assert_eq!(used, 10);
    let (flush, used) = read_pkt_line(b"0000").unwrap();
    assert!(flush.is_none());
    assert_eq!(used, 4);
    assert_eq!(pkt_line_size(*b"001e").unwrap(), 30);
    assert!(read_pkt_line(b"00").is_err());
}

#[test]
fn config_text_roundtrip() {
    let mut config = RepoConfig::open("config", Some("")).unwrap();
    assert!(config.get_user().is_none());
    config.set_user_name("Ana");
    config.set_user_mail("ana@mail");
    let text = config.to_file_text();
    let again = RepoConfig::open("config", Some(text.as_str())).unwrap();
    let user = again.get_user().unwrap();
    assert_eq!(user.get_name(), "Ana");
    assert_eq!(user.get_mail(), "ana@mail");
    assert!(RepoConfig::open("config", None).is_err());
}

#[test]
fn config_command_sets_user() {
    let args = vec!["--user-name".to_string(), "Bob".to_string()];
    let (config, _) = RepoConfig::config_command("config", Some(""), &args).unwrap();
    let text = config.to_file_text();
    assert!(text.contains("Bob"));
    let bad = vec!["--other".to_string(), "x".to_string()];
    assert!(matches!(RepoConfig::config_command("config", Some(""), &bad), Err(ErrorType::CommandError(CommandError::UnknownOption(_, _)))));
}

#[test]
fn index_text_roundtrip() {
    let mut index = Index::empty();
    index.add("a.txt", "2023-01-01", &b"abc".to_vec());
    index.add("b/c.txt", "2023-01-02", &b"xyz".to_vec());
    let text = index.save();
    let mut again = Index::new(text.as_str()).unwrap();
    assert_eq!(again.save(), text);
    assert_eq!(again.as_files_vector().len(), 2);
    match again.remove("missing") {
        Err(ErrorType::FileNotInIndex(m)) => assert_eq!(m, "ERROR missing not in the index."),
        _ => panic!("expected an error"),
    }
    assert!(again.remove("a.txt").is_ok());
    assert_eq!(again.as_files_vector().len(), 1);
}

#[test]
fn index_line_parses_back() {
    let info = IndexFileInfo::new("a.txt", "2023-01-01", &b"abc".to_vec());
    let line = info.to_index_line();
    let back = IndexFileInfo::try_from(line.trim_end()).unwrap();
    assert_eq!(back.get_path(), "a.txt");
    assert_eq!(back.get_hash().to_string(), info.get_hash().to_string());
    assert!(IndexFileInfo::try_from("nonsense").is_err());
}

#[test]
fn remote_file_roundtrip() {
    let mut remote = Remote::empty("remote");
    remote.add("origin".to_string(), "git://127.0.0.1:9418/repo".to_string());
    remote.set_upstream("master".to_string(), "origin".to_string(), "master".to_string());
    let text = remote.save();
    let again = Remote::from_file("remote", text.as_str()).unwrap();
    assert_eq!(again.get_url("origin").unwrap(), "git://127.0.0.1:9418/repo");
    assert_eq!(again.get_upstream("master").unwrap(), ("origin".to_string(), "master".to_string()));
    assert!(again.get_url("other").is_none());
}

#[test]
fn remote_url_is_split() {
    let (host, repo) = Remote::parse_url("git://127.0.0.1:9418/repo").unwrap();
    assert_eq!(host, "127.0.0.1:9418");
    assert_eq!(repo, "/repo");
    assert!(Remote::parse_url("http://x").is_err());
}

#[test]
fn branches_are_listed_from_their_files() {
    let entries = vec![("master".to_string(), "a".repeat(40)), ("dev".to_string(), "b".repeat(40))];
    let list = Branch::list_branches(&entries).unwrap();
    assert_eq!(list.len(), 2);
    assert_eq!(list[1].0, "dev");
    let bad = vec![("master".to_string(), "short".to_string())];
    assert!(Branch::list_branches(&bad).is_err());
    let shown = Branch::display_branches("master", &list);
    assert_eq!(shown, "master <--HEAD\ndev\n");
}

#[test]
fn tags_file_is_read() {
    let text = "v1;Ana ana@mail;1111111111111111111111111111111111111111;01/01/2023 10:00:00;first\nv2;Ana ana@mail;2222222222222222222222222222222222222222;02/01/2023 10:00:00;\n";
    let tags = Tag::read_file_tags(Some(text)).unwrap();
    assert_eq!(tags.len(), 2);
    assert_eq!(tags[0].parse_to_string(), "v1;Ana ana@mail;1111111111111111111111111111111111111111;01/01/2023 10:00:00;first");
    assert_eq!(Tag::get_hash_of_tag(Some(text), "v2").unwrap(), "2222222222222222222222222222222222222222");
    match Tag::get_hash_of_tag(Some(text), "v3") {
        Err(ErrorType::RepositoryError(m)) => assert_eq!(m, "Error, Not exist tag v3."),
        _ => panic!("expected an error"),
    }
    let shown = Tag::get_tags_for_show_refs(Some(text)).unwrap();
    assert_eq!(shown[0], ("v1 first".to_string(), "1111111111111111111111111111111111111111".to_string()));
    assert_eq!(shown[1], ("v2".to_string(), "2222222222222222222222222222222222222222".to_string()));
    assert!(matches!(Tag::read_file_tags(Some("a;b\n")), Err(ErrorType::FormatError(_))));
    assert!(matches!(Tag::read_file_tags(None), Err(ErrorType::IOError(_))));
}

#[test]
fn tags_file_written_reads_back() {
    let text = "v1;Ana ana@mail;1111111111111111111111111111111111111111;01/01/2023 10:00:00;first\nv2;Ana ana@mail;2222222222222222222222222222222222222222;02/01/2023 10:00:00;";
    let tags = Tag::read_file_tags(Some(text)).unwrap();
    let written = Tag::write_file_tags(&tags);
    assert_eq!(written, text);
    let again = Tag::read_file_tags(Some(&written)).unwrap();
    assert_eq!(again.len(), 2);
    assert_eq!(again[1].parse_to_string(), tags[1].parse_to_string());
}

#[test]
fn ignore_lists_the_ignored_arguments() {
    let ignored = Ignore::get_ignored_files(Some("target\nnotes.txt\n"));
    assert_eq!(ignored, vec!["target", "notes.txt"]);
    let args = vec!["a".to_string(), "notes.txt".to_string(), "target".to_string()];
    assert_eq!(Ignore::check_ignore_command(&args, &ignored), vec!["notes.txt", "target"]);
    assert!(Ignore::get_ignored_files(None).is_empty());
}

#[test]
fn ls_files_lists_tracked_and_untracked() {
    let not_staged = vec!["b".to_string()];
    let staged = vec!["c".to_string()];
    let listing = "a\nb\nc";
    let args: Vec<String> = Vec::new();
    assert_eq!(LsFile::show_file(&args, &not_staged, &staged, listing, Vec::new()), "c\na\nb");
    let others = vec!["--others".to_string()];
    let dir = vec!["a".to_string(), "b".to_string(), "c".to_string(), "d".to_string()];
    assert_eq!(LsFile::show_file(&others, &not_staged, &staged, listing, dir), "d");
    assert_eq!(LsFile::filter_no_repeat(vec!["x".to_string(), "y".to_string()], &vec!["y".to_string()]), vec!["x"]);
}

#[test]
fn options_test() {
    let basic_all_false = ShowRef::options(&Vec::new()).unwrap();
    assert!(!basic_all_false.hash);
    assert!(!basic_all_false.head);
    assert!(!basic_all_false.heads);
    assert!(!basic_all_false.tags);
    let basic_all_true = ShowRef::options(&vec![
        "-s".to_string(),
        "--head".to_string(),
        "--heads".to_string(),
        "--tags".to_string(),
    ])
    .unwrap();
    assert!(basic_all_true.hash);
    assert!(basic_all_true.head);
    assert!(basic_all_true.heads);
    assert!(basic_all_true.tags);
    let basic_only_hash = ShowRef::options(&vec!["--hash".to_string()]).unwrap();
    assert!(basic_only_hash.hash);
    assert!(!basic_only_hash.head);
    assert!(!basic_only_hash.heads);
    assert!(!basic_only_hash.tags);
}

#[test]
fn show_ref_lists_branches() {
    let local = vec![("master".to_string(), "a".repeat(40)), ("HEAD".to_string(), "b".repeat(40))];
    let text = ShowRef::show_ref(&vec!["--heads".to_string(), "--head".to_string()], &local, &Vec::new(), None).unwrap();
    assert_eq!(text, format!("{} master\n", "a".repeat(40)));
}

#[test]
fn error_messages() {
    assert_eq!(ErrorType::RepositoryError("x".to_string()).to_string(), "ERROR[x]");
    assert_eq!(ErrorType::CommandError(CommandError::IncorrectAmount("1".to_string(), 3)).to_string(),
        "ERROR:[Error in amount of parameters sent. Expected 1, got 3]");
    assert_eq!(ErrorType::HTTPError(HTTPError::NotFound("y".to_string())).to_string(), "ERROR[404 Not Found: y]");
    assert_eq!(ErrorType::FileNotFound("p".to_string()).to_string(), "ERROR:[The given path does not match any files: p]");
    assert_eq!(ErrorType::ObjectType("a".to_string(), "b".to_string()).to_string(), "ERROR:[Wrong ObjectType. Expected a, got b]");
}

#[test]
fn pkt_line_length_fits_four_hex_digits() {
    let longest = "a".repeat(0xffff - 5);
    let line = create_pkt_line(&longest).unwrap();
    assert_eq!(&line[0..4], "ffff");
    assert_eq!(line.len(), 0xffff);
    match create_pkt_line(&"a".repeat(0xffff - 4)) {
        Err(ErrorType::ProtocolError(m)) => assert_eq!(m, "pktline: can't be larger than 4k"),
        _ => panic!("expected a protocol error"),
    }
}

#[test]
fn current_date_time_has_the_day_month_year_time_shape() {
    let s = git_rustico::utils::get_current_date_time().unwrap();
    let b = s.as_bytes();
    let n = b.len();
    assert!(n >= 19);
    assert_eq!(b[2], b'/');
    assert_eq!(b[5], b'/');
    assert_eq!(b[n - 9], b' ');
    assert_eq!(b[n - 6], b':');
    assert_eq!(b[n - 3], b':');
    for i in [0, 1, 3, 4, n - 8, n - 7, n - 5, n - 4, n - 2, n - 1] {
        assert!(b[i].is_ascii_digit());
    }
}

#[test]
fn remote_file_survives_edits() {
    let text = "remote origin git://h/r\nremote other git://h/o\nbranch master origin master\n";
    let mut remote = Remote::from_file("remote", text).unwrap();
    remote.add("mirror".to_string(), "git://m/r".to_string());
    assert_eq!(remote.rename("other".to_string(), "backup".to_string()), None);
    assert_eq!(remote.remove("origin".to_string()).unwrap(), "git://h/r");
    remote.set_upstream("dev".to_string(), "mirror".to_string(), "dev".to_string());
    let saved = remote.save();
    let again = Remote::from_file("remote", saved.as_str()).unwrap();
    assert_eq!(again.get_remotes(), remote.get_remotes());
    assert_eq!(again.get_url("backup").unwrap(), "git://h/o");
    assert!(again.get_url("origin").is_none());
    assert_eq!(again.get_upstream("dev").unwrap(), ("mirror".to_string(), "dev".to_string()));
    assert_eq!(again.get_upstream("master").unwrap(), ("origin".to_string(), "master".to_string()));
}
