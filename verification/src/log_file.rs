use vstd::prelude::*;
use crate::config::{RepoConfig, config_lines};
use crate::errors::ErrorType;
use crate::utils::{get_current_date_time, date_time_shape};
use crate::text::{push_text, join_strings, join_with, views, lines};

verus! {

/// A line of the log of a command: result, time, user, command and what else
/// is said, separated by `; `.
pub open spec fn log_line(result: Seq<char>, timestamp: Seq<char>, user_data: Seq<char>, command: Seq<char>, extra: Seq<char>) -> Seq<char> {
    result + "; "@ + timestamp + "; "@ + user_data + "; "@ + command + "; "@ + extra
}

/// A line of the server's log: kind, time, user and text, separated by `; `.
pub open spec fn server_log_line(kind: Seq<char>, timestamp: Seq<char>, user: Seq<char>, text: Seq<char>) -> Seq<char> {
    kind + "; "@ + timestamp + "; "@ + user + "; "@ + text
}

/// The user a configuration's text names, if it names both a name and a
/// mail (`None` for no text).
pub open spec fn configured_user(config_text: Option<Seq<char>>) -> Option<(Seq<char>, Seq<char>)> {
    match config_text {
        Some(t) => match config_lines(lines(t), 0, None, None) {
            Some((Some(n), Some(m))) => Some((n, m)),
            _ => None,
        },
        None => None,
    }
}

/// What the log says of the configured user.
pub open spec fn user_data_text(config_text: Option<Seq<char>>) -> Seq<char> {
    match configured_user(config_text) {
        Some((n, m)) => "Name="@ + n + " - Mail="@ + m,
        None => "No data user in config."@,
    }
}

/// The word that tells how a command or a request went.
pub open spec fn outcome_word(ok: bool, yes: Seq<char>, no: Seq<char>) -> Seq<char> {
    if ok { yes } else { no }
}

/// The text of an optional string slice.
pub open spec fn opt_text(o: Option<&str>) -> Option<Seq<char>> {
    match o {
        Some(s) => Some(s@),
        None => None,
    }
}

/// The configured user as the log writes it: `Name=<name> - Mail=<mail>`;
/// an error where the configuration (its file's text, `None` where there is
/// none) names no user.
pub fn get_user_data(path_config: &str, config_text: Option<&str>) -> (r: Result<String, ErrorType>)
    ensures
        match configured_user(opt_text(config_text)) {
            Some((n, m)) => r matches Ok(s) && s@ == "Name="@ + n + " - Mail="@ + m,
            None => r is Err,
        },
{
    let config = match RepoConfig::open(path_config, config_text) {
        Ok(c) => c,
        Err(e) => return Err(e),
    };
    match config.get_user() {
        None => Err(ErrorType::ConfigError(String::from_str("Error not data user yet."))),
        Some(user) => {
            let mut s = String::from_str("Name=");
            push_text(&mut s, user.get_name().as_str());
            push_text(&mut s, " - Mail=");
            push_text(&mut s, user.get_mail().as_str());
            Ok(s)
        },
    }
}

/// A line of the log made now.
fn send_info(result: &str, command: &str, text_extra: &str, path_config: &str, config_text: Option<&str>) -> (r: String)
    ensures
        exists|ts: Seq<char>| date_time_shape(ts) && r@ == #[trigger] log_line(result@, ts, user_data_text(opt_text(config_text)), command@, text_extra@),
{
    let timestamp = match get_current_date_time() {
        Ok(t) => t,
        Err(_) => String::from_str("Error getting current time."),
    };
    let user_data = match get_user_data(path_config, config_text) {
        Ok(d) => d,
        Err(_) => String::from_str("No data user in config."),
    };
    let mut line = String::new();
    push_text(&mut line, result);
    push_text(&mut line, "; ");
    push_text(&mut line, timestamp.as_str());
    push_text(&mut line, "; ");
    push_text(&mut line, user_data.as_str());
    push_text(&mut line, "; ");
    push_text(&mut line, command);
    push_text(&mut line, "; ");
    push_text(&mut line, text_extra);
    assert(line@ == log_line(result@, timestamp@, user_data_text(opt_text(config_text)), command@, text_extra@));
    line
}

/// The log line that opens a command: `EXEC`, the time, the user, the
/// command and its arguments separated by spaces.
pub fn send_text_to_log_initial(command: &str, args: &Vec<String>, path_config: &str, config_text: Option<&str>) -> (r: String)
    ensures
        exists|ts: Seq<char>| date_time_shape(ts) && r@ == #[trigger] log_line("EXEC"@, ts, user_data_text(opt_text(config_text)), command@,
            join_with(views(args@), " "@)),
{
    let text = join_strings(args, " ");
    send_info("EXEC", command, text.as_str(), path_config, config_text)
}

/// The log line that closes a command: `OK` or `ERROR`, the time, the user,
/// the command and what it gave.
pub fn send_text_to_log_finish(command: &str, text: &str, path_config: &str, config_text: Option<&str>, is_ok: bool) -> (r: String)
    ensures
        exists|ts: Seq<char>| date_time_shape(ts) && r@ == #[trigger] log_line(outcome_word(is_ok, "OK"@, "ERROR"@), ts,
            user_data_text(opt_text(config_text)), command@, text@),
{
    let finish = if is_ok { "OK" } else { "ERROR" };
    let r = send_info(finish, command, text, path_config, config_text);
    proof {
        let ts = choose|ts: Seq<char>| date_time_shape(ts) && r@ == #[trigger] log_line(finish@, ts, user_data_text(opt_text(config_text)), command@, text@);
        assert(finish@ == outcome_word(is_ok, "OK"@, "ERROR"@));
        assert(r@ == log_line(outcome_word(is_ok, "OK"@, "ERROR"@), ts, user_data_text(opt_text(config_text)), command@, text@));
    }
    r
}

/// A line of the server's log made now.
pub fn send_info_from_server(type_of_message: &str, text: &str, user: &str) -> (r: String)
    ensures
        exists|ts: Seq<char>| date_time_shape(ts) && r@ == #[trigger] server_log_line(type_of_message@, ts, user@, text@),
{
    let timestamp = match get_current_date_time() {
        Ok(t) => t,
        Err(_) => String::from_str("Error getting current time."),
    };
    let mut line = String::new();
    push_text(&mut line, type_of_message);
    push_text(&mut line, "; ");
    push_text(&mut line, timestamp.as_str());
    push_text(&mut line, "; ");
    push_text(&mut line, user);
    push_text(&mut line, "; ");
    push_text(&mut line, text);
    assert(line@ == server_log_line(type_of_message@, timestamp@, user@, text@));
    line
}

/// A line of the server's log about an HTTP client: `INFO` or `ERROR`, the
/// time, `CLIENT` and the text.
pub fn send_info_from_client_http(is_info: bool, text: &str) -> (r: String)
    ensures
        exists|ts: Seq<char>| date_time_shape(ts)
            && r@ == #[trigger] server_log_line(outcome_word(is_info, "INFO"@, "ERROR"@), ts, "CLIENT"@, text@),
{
    let kind = if is_info { "INFO" } else { "ERROR" };
    let r = send_info_from_server(kind, text, "CLIENT");
    proof {
        let ts = choose|ts: Seq<char>| date_time_shape(ts) && r@ == #[trigger] server_log_line(kind@, ts, "CLIENT"@, text@);
        assert(kind@ == outcome_word(is_info, "INFO"@, "ERROR"@));
        assert(r@ == server_log_line(outcome_word(is_info, "INFO"@, "ERROR"@), ts, "CLIENT"@, text@));
    }
    r
}

} // verus!
