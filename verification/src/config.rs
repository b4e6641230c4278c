use vstd::prelude::*;
use crate::errors::{CommandError, ErrorType};
use crate::text::{lines, lines_of, split_once_spec, split_once_char, has_prefix, starts_with,
    join_with, join_strings, views, push_text, text_eq, lemma_lines_cons, lemma_split_once_at, strip_cr};
use crate::user::User;

verus! {

/// The category word that starts the line of the user's name.
pub open spec fn name_category() -> Seq<char> {
    "user_name:"@
}

/// The category word that starts the line of the user's mail address.
pub open spec fn mail_category() -> Seq<char> {
    "user_mail:"@
}

/// The user's name and mail address after reading the lines of a
/// configuration file from `i` on, starting from `name` and `mail`; `None`
/// where a line names an unknown category. A line is a category, a space and
/// a value; lines with no space are skipped, and a later value replaces an
/// earlier one.
pub open spec fn config_lines(ls: Seq<Seq<char>>, i: nat, name: Option<Seq<char>>, mail: Option<Seq<char>>)
    -> Option<(Option<Seq<char>>, Option<Seq<char>>)>
    decreases (if i < ls.len() { ls.len() - i } else { 0 }),
{
    if i >= ls.len() {
        Some((name, mail))
    } else {
        match split_once_spec(ls[i as int], ' ') {
            None => config_lines(ls, i + 1, name, mail),
            Some((cat, val)) => {
                if cat == name_category() {
                    config_lines(ls, i + 1, Some(val), mail)
                } else if cat == mail_category() {
                    config_lines(ls, i + 1, name, Some(val))
                } else {
                    None
                }
            },
        }
    }
}

/// The text of a configuration file holding these values.
pub open spec fn config_text(name: Option<Seq<char>>, mail: Option<Seq<char>>) -> Seq<char> {
    (match name {
        Some(n) => name_category() + seq![' '] + n + seq!['\n'],
        None => Seq::empty(),
    }) + (match mail {
        Some(m) => mail_category() + seq![' '] + m + seq!['\n'],
        None => Seq::empty(),
    })
}

/// The outcome of the options of the `config` command, read from position
/// `i` on: `found` tells that the previous option waits for its value,
/// `option` is that option. The result holds the name, the mail and the
/// messages for the values set, or, as an error, the value given to an
/// unknown option. Empty arguments are skipped; an argument that starts with
/// `-` opens an option (after it served as a value if one was awaited), and
/// `--test` sets a test user and ends the walk.
pub open spec fn config_walk(
    args: Seq<Seq<char>>,
    i: nat,
    found: bool,
    option: Seq<char>,
    name: Option<Seq<char>>,
    mail: Option<Seq<char>>,
    msgs: Seq<Seq<char>>,
) -> Result<(Option<Seq<char>>, Option<Seq<char>>, Seq<Seq<char>>), Seq<char>>
    decreases (if i < args.len() { args.len() - i } else { 0 }),
{
    if i >= args.len() {
        Ok((name, mail, msgs))
    } else {
        let arg = args[i as int];
        if arg.len() == 0 {
            config_walk(args, i + 1, found, option, name, mail, msgs)
        } else {
            let step: Result<(Option<Seq<char>>, Option<Seq<char>>, Seq<Seq<char>>), Seq<char>> = if found {
                if option == "--user-name"@ {
                    Ok((Some(arg), mail, msgs.push("Set user name "@ + arg + "."@)))
                } else if option == "--user-mail"@ {
                    Ok((name, Some(arg), msgs.push("Set user mail "@ + arg + "."@)))
                } else {
                    Err(arg)
                }
            } else {
                Ok((name, mail, msgs))
            };
            match step {
                Err(e) => Err(e),
                Ok((n, m, out)) => {
                    if has_prefix(arg, "-"@) {
                        if arg == "--test"@ {
                            Ok((Some("test_username"@), Some("test_user@fi.uba.ar"@), out))
                        } else {
                            config_walk(args, i + 1, true, arg, n, m, out)
                        }
                    } else {
                        config_walk(args, i + 1, false, option, n, m, out)
                    }
                },
            }
        }
    }
}

/// The repository's configuration: who commits.
pub struct RepoConfig {
    path_config: String,
    user_name: Option<String>,
    user_mail: Option<String>,
}

/// The text of an optional string.
pub open spec fn opt_view(o: Option<String>) -> Option<Seq<char>> {
    match o {
        Some(s) => Some(s@),
        None => None,
    }
}

impl RepoConfig {
    /// The file the configuration is kept in.
    pub closed spec fn path_view(&self) -> Seq<char> {
        self.path_config@
    }

    /// The user's name, if set.
    pub closed spec fn name_view(&self) -> Option<Seq<char>> {
        opt_view(self.user_name)
    }

    /// The user's mail address, if set.
    pub closed spec fn mail_view(&self) -> Option<Seq<char>> {
        opt_view(self.user_mail)
    }

    /// Reads a configuration from the text of its file, `None` where the file
    /// does not exist.
    pub fn open(path_config: &str, file_text: Option<&str>) -> (r: Result<Self, ErrorType>)
        ensures
            file_text is None ==> r matches Err(ErrorType::RepositoryError(_)),
            file_text matches Some(t) ==> match config_lines(lines(t@), 0, None, None) {
                Some((n, m)) => r matches Ok(c) && c.path_view() == path_config@
                    && c.name_view() == n && c.mail_view() == m,
                None => r matches Err(ErrorType::FormatError(_)),
            },
    {
        let text = match file_text {
            None => {
                return Err(ErrorType::RepositoryError(
                    String::from_str("Couldn't find config in default path ('.git-rustico/config')"),
                ));
            },
            Some(t) => t,
        };
        let ls = lines_of(text);
        let ghost all = lines(text@);
        let mut user_name: Option<String> = None;
        let mut user_mail: Option<String> = None;
        let mut i: usize = 0;
        while i < ls.len()
            invariant
                views(ls@) == all,
                all == lines(text@),
                file_text == Some(text),
                i <= ls@.len(),
                config_lines(all, 0, None, None) == config_lines(all, i as nat, opt_view(user_name), opt_view(user_mail)),
            decreases ls.len() - i,
        {
            assert(ls@[i as int]@ == all[i as int]);
            match split_once_char(ls[i].as_str(), ' ') {
                None => {},
                Some((category, value)) => {
                    if text_eq(category.as_str(), "user_name:") {
                        proof { reveal_strlit("user_name:"); }
                        user_name = Some(value);
                    } else if text_eq(category.as_str(), "user_mail:") {
                        proof { reveal_strlit("user_name:"); reveal_strlit("user_mail:"); }
                        user_mail = Some(value);
                    } else {
                        proof { reveal_strlit("user_name:"); reveal_strlit("user_mail:"); }
                        return Err(ErrorType::FormatError(
                            String::from_str("Invalid category '{category}' in .git-rustico/config"),
                        ));
                    }
                },
            }
            i = i + 1;
        }
        Ok(RepoConfig { path_config: String::from_str(path_config), user_name, user_mail })
    }

    /// Sets the user's name.
    pub fn set_user_name(&mut self, name: &str)
        ensures
            final(self).name_view() == Some(name@),
            final(self).mail_view() == old(self).mail_view(),
            final(self).path_view() == old(self).path_view(),
    {
        self.user_name = Some(String::from_str(name));
    }

    /// Sets the user's mail address.
    pub fn set_user_mail(&mut self, mail: &str)
        ensures
            final(self).mail_view() == Some(mail@),
            final(self).name_view() == old(self).name_view(),
            final(self).path_view() == old(self).path_view(),
    {
        self.user_mail = Some(String::from_str(mail));
    }

    /// The user, once both name and mail address are set.
    pub fn get_user(&self) -> (r: Option<User>)
        ensures
            match (self.name_view(), self.mail_view()) {
                (Some(n), Some(m)) => r matches Some(u) && u.name_view() == n && u.mail_view() == m,
                _ => r is None,
            },
    {
        match (&self.user_name, &self.user_mail) {
            (Some(n), Some(m)) => Some(User::new(n.as_str(), m.as_str())),
            _ => None,
        }
    }

    /// The text the configuration file is saved with: a line for the name and
    /// one for the mail address, each only where it is set.
    pub fn to_file_text(&self) -> (r: String)
        ensures
            r@ == config_text(self.name_view(), self.mail_view()),
    {
        let mut content = String::new();
        proof {
            reveal_strlit("user_name: ");
            reveal_strlit("user_mail: ");
            reveal_strlit("user_name:");
            reveal_strlit("user_mail:");
            reveal_strlit("\n");
        }
        if let Some(uname) = &self.user_name {
            push_text(&mut content, "user_name: ");
            push_text(&mut content, uname.as_str());
            push_text(&mut content, "\n");
            assert(content@ =~= name_category() + seq![' '] + uname@ + seq!['\n']);
        }
        let ghost first = content@;
        if let Some(umail) = &self.user_mail {
            push_text(&mut content, "user_mail: ");
            push_text(&mut content, umail.as_str());
            push_text(&mut content, "\n");
            assert(content@ =~= first + (mail_category() + seq![' '] + umail@ + seq!['\n']));
        }
        content
    }

    /// The `config` command: reads the configuration from the text of its
    /// file (`None` where there is none), applies the options given, and
    /// returns the new configuration, to be saved, with a message for each
    /// value set. `--user-name` and `--user-mail` take the next argument as
    /// their value; `--test` sets a test user.
    pub fn config_command(path_config: &str, file_text: Option<&str>, args: &Vec<String>)
        -> (r: Result<(RepoConfig, String), ErrorType>)
        ensures
            args@.len() == 0 ==> r matches Err(ErrorType::CommandError(CommandError::IncorrectOptionAmount(1, 0))),
            args@.len() > 0 && file_text is None ==> r matches Err(ErrorType::RepositoryError(_)),
            args@.len() > 0 ==> (file_text matches Some(t) ==> match config_lines(lines(t@), 0, None, None) {
                None => r matches Err(ErrorType::FormatError(_)),
                Some((n, m)) => match config_walk(views(args@), 0, false, Seq::empty(), n, m, Seq::empty()) {
                    Ok((n2, m2, msgs)) => r matches Ok((c, text)) && c.path_view() == path_config@
                        && c.name_view() == n2 && c.mail_view() == m2 && text@ == join_with(msgs, " "@),
                    Err(a) => r matches Err(ErrorType::CommandError(CommandError::UnknownOption(x, y)))
                        && x@ == a && y@ == "--user-name or --user-mail"@,
                },
            }),
    {
        if args.len() == 0 {
            return Err(ErrorType::CommandError(CommandError::IncorrectOptionAmount(1, 0)));
        }
        let mut config = Self::open(path_config, file_text)?;
        let ghost all = views(args@);
        let ghost n0 = config.name_view();
        let ghost m0 = config.mail_view();
        let mut found = false;
        let mut option = String::new();
        let mut result: Vec<String> = Vec::new();
        let mut i: usize = 0;
        proof {
            reveal_strlit("--user-name");
            reveal_strlit("--user-mail");
            reveal_strlit("--test");
            reveal_strlit("-");
            reveal_strlit("Set user name ");
            reveal_strlit("Set user mail ");
            reveal_strlit(".");
            reveal_strlit("test_username");
            reveal_strlit("test_user@fi.uba.ar");
        }
        assert(option@ =~= Seq::<char>::empty());
        assert(views(result@) =~= Seq::<Seq<char>>::empty());
        while i < args.len()
            invariant_except_break
                config_walk(all, 0, false, Seq::empty(), n0, m0, Seq::empty())
                    == config_walk(all, i as nat, found, option@, config.name_view(), config.mail_view(), views(result@)),
            invariant
                all == views(args@),
                i <= args@.len(),
                config.path_view() == path_config@,
                args@.len() > 0,
                file_text matches Some(t) && config_lines(lines(t@), 0, None, None) == Some((n0, m0)),
            ensures
                config_walk(all, 0, false, Seq::empty(), n0, m0, Seq::empty())
                    == Ok::<(Option<Seq<char>>, Option<Seq<char>>, Seq<Seq<char>>), Seq<char>>(
                        (config.name_view(), config.mail_view(), views(result@))),
                config.path_view() == path_config@,
            decreases args.len() - i,
        {
            let arg = &args[i];
            assert(all[i as int] == arg@);
            if arg.unicode_len() == 0 {
                i = i + 1;
                continue;
            }
            if found {
                if text_eq(option.as_str(), "--user-name") {
                    config.set_user_name(arg.as_str());
                    let mut msg = String::from_str("Set user name ");
                    push_text(&mut msg, arg.as_str());
                    push_text(&mut msg, ".");
                    let ghost before = views(result@);
                    result.push(msg);
                    assert(views(result@) =~= before.push("Set user name "@ + arg@ + "."@));
                } else if text_eq(option.as_str(), "--user-mail") {
                    config.set_user_mail(arg.as_str());
                    let mut msg = String::from_str("Set user mail ");
                    push_text(&mut msg, arg.as_str());
                    push_text(&mut msg, ".");
                    let ghost before = views(result@);
                    result.push(msg);
                    assert(views(result@) =~= before.push("Set user mail "@ + arg@ + "."@));
                } else {
                    return Err(ErrorType::CommandError(CommandError::UnknownOption(
                        arg.clone(),
                        String::from_str("--user-name or --user-mail"),
                    )));
                }
                found = false;
            }
            if starts_with(arg.as_str(), "-") {
                if text_eq(arg.as_str(), "--test") {
                    config.set_user_name("test_username");
                    config.set_user_mail("test_user@fi.uba.ar");
                    break;
                }
                option = arg.clone();
                found = true;
            }
            i = i + 1;
        }
        let text = join_strings(&result, " ");
        proof { reveal_strlit(" "); }
        Ok((config, text))
    }
}

/// What a configuration file holds is what the configuration it was saved
/// from holds, where no value has a line break in it or ends in a carriage
/// return.
pub proof fn lemma_config_text_roundtrip(name: Option<Seq<char>>, mail: Option<Seq<char>>)
    requires
        name matches Some(n) ==> !n.contains('\n') && !(n.len() > 0 && n.last() == '\r'),
        mail matches Some(m) ==> !m.contains('\n') && !(m.len() > 0 && m.last() == '\r'),
    ensures
        config_lines(lines(config_text(name, mail)), 0, None, None) == Some((name, mail)),
{
    reveal_strlit("user_name:");
    reveal_strlit("user_mail:");
    let e = Seq::<char>::empty();
    let b = match mail {
        Some(m) => mail_category() + seq![' '] + m + seq!['\n'],
        None => e,
    };
    let lb: Seq<Seq<char>> = match mail {
        Some(m) => {
            let x2 = mail_category() + seq![' '] + m;
            assert(!x2.contains('\n')) by {
                assert forall|k: int| 0 <= k < x2.len() implies x2[k] != '\n' by {
                    if k >= 11 {
                        assert(x2[k] == m[k - 11]);
                        assert(m.contains(m[k - 11]));
                    }
                }
            }
            lemma_lines_cons(x2, e);
            assert(b =~= x2 + seq!['\n'] + e);
            assert(strip_cr(x2) == x2);
            assert(!mail_category().contains(' ')) by {
                assert forall|k: int| 0 <= k < mail_category().len() implies mail_category()[k] != ' ' by {}
            }
            lemma_split_once_at(mail_category(), ' ', m);
            seq![x2]
        },
        None => Seq::empty(),
    };
    assert(lines(b) == lb);
    if name is Some {
        let n = name->0;
        {
            let x1 = name_category() + seq![' '] + n;
            assert(!x1.contains('\n')) by {
                assert forall|k: int| 0 <= k < x1.len() implies x1[k] != '\n' by {
                    if k >= 11 {
                        assert(x1[k] == n[k - 11]);
                        assert(n.contains(n[k - 11]));
                    }
                }
            }
            lemma_lines_cons(x1, b);
            assert(config_text(name, mail) =~= x1 + seq!['\n'] + b);
            assert(strip_cr(x1) == x1);
            assert(!name_category().contains(' ')) by {
                assert forall|k: int| 0 <= k < name_category().len() implies name_category()[k] != ' ' by {}
            }
            lemma_split_once_at(name_category(), ' ', n);
            let ls = seq![x1] + lb;
            assert(lines(config_text(name, mail)) == ls);
            assert(ls[0] == x1);
            assert(split_once_spec(ls[0], ' ') == Some((name_category(), n)));
            assert(config_lines(ls, 0, None, None) == config_lines(ls, 1, Some(n), None));
            if mail is None {
                assert(ls.len() == 1);
                assert(config_lines(ls, 1, Some(n), None) == Some((name, mail)));
            }
            if mail is Some {
                let m = mail->0;
                assert(ls[1] == lb[0]);
                assert(mail_category()[5] != name_category()[5]);
                assert(config_lines(ls, 1, Some(n), None) == config_lines(ls, 2, Some(n), Some(m)));
                assert(ls.len() == 2);
                assert(config_lines(ls, 2, Some(n), Some(m)) == Some((name, mail)));
            }
            assert(config_lines(ls, 0, None, None) == Some((name, mail)));
            assert(config_lines(lines(config_text(name, mail)), 0, None, None) == Some((name, mail)));
        }
    } else {
        assert(config_text(name, mail) =~= b);
        if mail is Some {
            let m = mail->0;
            assert(lb[0] == mail_category() + seq![' '] + m);
            assert(mail_category()[5] != name_category()[5]);
            assert(config_lines(lb, 0, None, None) == config_lines(lb, 1, None, Some(m)));
            assert(lb.len() == 1);
        }
    }
}


} // verus!
