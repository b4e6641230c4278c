use git_rustico::cli::{parse_command, CliCommand, check_arguments_quantity, parse_options, return_option, cat_file_args, needs_repository};
use git_rustico::log_file::{send_text_to_log_initial, send_text_to_log_finish, send_info_from_client_http, get_user_data};
use git_rustico::utils::{get_current_date_time, verify_path_exists};
use git_rustico::init::git_init;
use git_rustico::errors::ErrorType;
use git_rustico::text::sort_strings;

#[test]
fn commands_are_recognised() {
    assert!(parse_command("status").unwrap() == CliCommand::Status);
    assert!(parse_command("ls-files").unwrap() == CliCommand::LsFiles);
    match parse_command("frobnicate") {
        Err(ErrorType::FormatError(m)) => assert_eq!(m, "Command not implemented yet : frobnicate"),
        _ => panic!("expected an error"),
    }
    assert!(!needs_repository("init"));
    assert!(needs_repository("log"));
}

#[test]
fn argument_helpers() {
    let args = vec!["a".to_string()];
    assert!(check_arguments_quantity(1, &args).is_ok());
    assert_eq!(check_arguments_quantity(0, &args).unwrap_err().to_string(),
        "ERROR:[Error in amount of parameters sent. Expected 0, got 1]");
    let mut args = vec!["-p".to_string(), "x".to_string(), "-q".to_string()];
    let options = parse_options(&mut args);
    assert_eq!(options, vec!["-p", "-q"]);
    assert_eq!(args, vec!["x"]);
    assert_eq!(return_option(&Vec::new()).unwrap(), "Whithout options.");
    assert_eq!(return_option(&vec!["a".to_string(), "b".to_string()]).unwrap(), "Whit options: a, b.");
    assert_eq!(cat_file_args(&vec!["abc".to_string(), "-t".to_string()]).unwrap(), ("-t".to_string(), "abc".to_string()));
    assert!(cat_file_args(&vec!["-p".to_string(), "-t".to_string()]).is_err());
}

#[test]
fn log_lines() {
    let line = send_text_to_log_initial("add", &vec!["a".to_string(), "b".to_string()], "config", None);
    assert!(line.starts_with("EXEC; "));
    assert!(line.ends_with("; No data user in config.; add; a b"));
    let line = send_text_to_log_finish("add", "done", "config", Some("[user]\n\tname = Ana\n\tmail = a@b\n"), false);
    assert!(line.starts_with("ERROR; "));
    assert!(line.ends_with("; done"));
    let line = send_info_from_client_http(true, "hi");
    assert!(line.starts_with("INFO; ") && line.ends_with("; CLIENT; hi"));
    assert!(get_user_data("config", None).is_err());
}

#[test]
fn date_time_and_paths() {
    let now = get_current_date_time().unwrap();
    assert_eq!(now.len(), 19);
    assert_eq!(&now[2..3], "/");
    assert!(verify_path_exists("a", true).is_ok());
    match verify_path_exists("a/b", false) {
        Err(ErrorType::FileNotFound(p)) => assert_eq!(p, "a/b"),
        _ => panic!("expected an error"),
    }
    assert!(git_init(true).is_err());
    assert_eq!(git_init(false).unwrap(), "git-rustico repository succesfully created");
}

#[test]
fn strings_are_sorted() {
    let v = vec!["b".to_string(), "a".to_string(), "c".to_string(), "a".to_string()];
    assert_eq!(sort_strings(&v), vec!["a", "a", "b", "c"]);
}
