use vstd::prelude::*;
use vstd::utf8::encode_utf8;
use crate::errors::ErrorType;
use crate::hash::{GitHash, valid_hash_text};
use crate::branch::Branch;
use crate::network::{zero_hash, zero_git_hash, file_of, branch_file, pkt_text, before_nul, command_views, hash_views};
use crate::pkt_line::{create_pkt_line, fits_pkt};
use crate::commit::opt_hash;
use crate::text::{push_text, text_eq, trim, trim_string, split_on, split_char, split_once_spec, split_once_char,
    views, ascii_words, split_ascii_whitespace, str_to_chars, chars_to_string};

verus! {

/// A repository name without the `/` it may start with.
pub open spec fn without_slash(s: Seq<char>) -> Seq<char> {
    if s.len() > 0 && s[0] == '/' { s.drop_first() } else { s }
}

/// The request that opens an exchange of the git protocol,
/// `<command> <repository>\0<host>\0...`: the command, the repository
/// (without a leading `/`) and the host; `None` where it lacks a part.
pub open spec fn git_request(line: Seq<char>) -> Option<(Seq<char>, Seq<char>, Seq<char>)> {
    let ws = ascii_words(line);
    if ws.len() < 2 {
        None
    } else {
        let extra = split_on(ws[1], '\0');
        if extra.len() < 2 {
            None
        } else {
            Some((ws[0], without_slash(extra[0]), extra[1]))
        }
    }
}

/// The name a pushed command gives a reference: `HEAD`, or the last part of
/// `refs/<kind>/<name>`; `None` where it is neither.
pub open spec fn pushed_ref_name(r: Seq<char>) -> Option<Seq<char>> {
    let parts = split_on(trim(r), '/');
    if parts.len() == 1 && parts[0] == "HEAD"@ {
        Some("HEAD"@)
    } else if parts.len() != 3 || parts[0] != "refs"@ {
        None
    } else {
        Some(parts[2])
    }
}

/// What the server does for one pushed command `(old, new, name)`, given
/// its branch files: `None` where a branch to move has no file holding a
/// hash; else the commit it notes (a created or deleted branch), whether
/// the command is the head's, and the branch it writes (name and hash).
pub open spec fn command_step(c: (Seq<char>, Seq<char>, Seq<char>), files: Seq<(String, String)>)
    -> Option<(Option<Seq<char>>, bool, Option<(Seq<char>, Seq<char>)>)> {
    if c.2 == "HEAD"@ {
        Some((None, true, None))
    } else if c.0 == zero_hash() {
        Some((Some(c.1), false, Some((c.2, c.1))))
    } else if c.1 == zero_hash() {
        Some((Some(c.1), false, None))
    } else {
        match file_of(files, c.2) {
            Some(t) => if valid_hash_text(t) { Some((None, false, Some((c.2, c.1)))) } else { None },
            None => None,
        }
    }
}

/// What the server does for the first `n` pushed commands: the commits it
/// notes, the last command on the head, and the branches it writes, in
/// order; `None` where one of them fails.
pub open spec fn push_plan(cmds: Seq<(Seq<char>, Seq<char>, Seq<char>)>, files: Seq<(String, String)>, n: nat)
    -> Option<(Seq<Seq<char>>, Option<(Seq<char>, Seq<char>, Seq<char>)>, Seq<(Seq<char>, Seq<char>)>)>
    decreases n,
{
    if n == 0 {
        Some((Seq::empty(), None, Seq::empty()))
    } else {
        match push_plan(cmds, files, (n - 1) as nat) {
            None => None,
            Some((cs, h, ws)) => match command_step(cmds[n - 1], files) {
                None => None,
                Some((c, is_head, w)) => Some((
                    match c { Some(x) => cs.push(x), None => cs },
                    if is_head { Some(cmds[n - 1]) } else { h },
                    match w { Some(x) => ws.push(x), None => ws },
                )),
            },
        }
    }
}

/// The texts of the lines with which a server announces its references: the
/// head's commit first where it has one, then each branch; the first line
/// ends with a NUL.
pub open spec fn advert_texts(head: Option<Seq<char>>, refs: Seq<(Seq<char>, Seq<char>)>) -> Seq<Seq<char>> {
    let branch_lines = Seq::new(refs.len(), |i: int| refs[i].1 + " refs/heads/"@ + refs[i].0
        + if head is None && i == 0 { seq!['\0'] } else { Seq::empty() });
    match head {
        Some(h) => seq![h + " HEAD"@ + seq!['\0']] + branch_lines,
        None => branch_lines,
    }
}

/// The first hash a list of references holds for a name.
pub open spec fn first_ref(refs: Seq<(Seq<char>, Seq<char>)>, name: Seq<char>) -> Option<Seq<char>>
    decreases refs.len(),
{
    if refs.len() == 0 {
        None
    } else if refs[0].0 == name {
        Some(refs[0].1)
    } else {
        first_ref(refs.drop_first(), name)
    }
}

/// The references as texts.
pub open spec fn ref_texts(v: Seq<(String, GitHash)>) -> Seq<(Seq<char>, Seq<char>)> {
    v.map_values(|p: (String, GitHash)| (p.0@, p.1@))
}

/// Once a command fails, the plan for longer prefixes fails too.
proof fn lemma_push_plan_none(cmds: Seq<(Seq<char>, Seq<char>, Seq<char>)>, files: Seq<(String, String)>, n: nat, m: nat)
    requires
        push_plan(cmds, files, n) is None,
        n <= m,
    ensures
        push_plan(cmds, files, m) is None,
    decreases m - n,
{
    if n < m {
        lemma_push_plan_none(cmds, files, n, (m - 1) as nat);
    }
}

/// A text without a leading `/`.
fn drop_slash(s: &str) -> (r: String)
    ensures
        r@ == without_slash(s@),
{
    let v = str_to_chars(s);
    if v.len() > 0 && v[0] == '/' {
        let r = chars_to_string(&v.as_slice()[1..v.len()]);
        assert(v@.subrange(1, v@.len() as int) =~= s@.drop_first());
        r
    } else {
        String::from_str(s)
    }
}

/// Reads the request that opens an exchange of the git protocol: the
/// command, the repository and the host.
pub fn parse_git_request(line: &str) -> (r: Result<(String, String, String), ErrorType>)
    ensures
        match git_request(line@) {
            Some((c, repo, host)) => r matches Ok((a, b, d)) && a@ == c && b@ == repo && d@ == host,
            None => r matches Err(ErrorType::ProtocolError(m)) && m@ == "invalid request"@,
        },
{
    let ws = split_ascii_whitespace(line);
    if ws.len() < 2 {
        return Err(ErrorType::ProtocolError(String::from_str("invalid request")));
    }
    assert(views(ws@)[0] == ws@[0]@ && views(ws@)[1] == ws@[1]@);
    let extra = split_char(ws[1].as_str(), '\0');
    if extra.len() < 2 {
        return Err(ErrorType::ProtocolError(String::from_str("invalid request")));
    }
    assert(views(extra@)[0] == extra@[0]@ && views(extra@)[1] == extra@[1]@);
    let repo = drop_slash(extra[0].as_str());
    Ok((ws[0].clone(), repo, extra[1].clone()))
}

/// The commit a `want <hash>` line of a fetch asks for: the second field,
/// trimmed. The line must hold a space.
pub fn want_hash(line: &str) -> (r: Result<GitHash, ErrorType>)
    requires
        split_on(line@, ' ').len() >= 2,
    ensures
        r is Ok <==> valid_hash_text(trim(split_on(line@, ' ')[1])),
        r matches Ok(h) ==> h@ == trim(split_on(line@, ' ')[1]),
        r matches Err(e) ==> e matches ErrorType::InvalidHash(s) && s@ == trim(split_on(line@, ' ')[1]),
{
    let parts = split_char(line, ' ');
    assert(views(parts@)[1] == parts@[1]@);
    let t = trim_string(parts[1].as_str());
    GitHash::new(t.as_str())
}

/// Checks the line that ends the wants of a fetch: it must be `done`.
pub fn expect_done(line: Option<String>) -> (r: Result<(), ErrorType>)
    ensures
        r is Ok <==> (line matches Some(l) && l@ == "done"@),
        line is None ==> (r matches Err(ErrorType::ProtocolError(m)) && m@ == "expected a done line, got a flush line"@),
        line matches Some(l) ==> (l@ != "done"@ ==> (r matches Err(ErrorType::ProtocolError(m))
            && m@ == "expected a done line, got "@ + l@)),
{
    match line {
        None => Err(ErrorType::ProtocolError(String::from_str("expected a done line, got a flush line"))),
        Some(l) => {
            if text_eq(l.as_str(), "done") {
                Ok(())
            } else {
                let mut m = String::from_str("expected a done line, got ");
                push_text(&mut m, l.as_str());
                Err(ErrorType::ProtocolError(m))
            }
        },
    }
}

/// Reads a command line of a push, `<old> <new> <ref>[\0<capabilities>]`:
/// the old and new hashes and the name of the reference (`HEAD`, or the
/// last part of `refs/heads/<name>`).
pub fn parse_command_line(line: &str) -> (r: Result<(GitHash, GitHash, String), ErrorType>)
    ensures
        split_on(trim(line@), ' ').len() != 3 ==> (r matches Err(ErrorType::ProtocolError(m))
            && m@ == "invalid reference line: "@ + line@),
        split_on(trim(line@), ' ').len() == 3 ==> {
            let parts = split_on(trim(line@), ' ');
            &&& !valid_hash_text(parts[0]) ==> (r matches Err(ErrorType::InvalidHash(s)) && s@ == parts[0])
            &&& valid_hash_text(parts[0]) && !valid_hash_text(parts[1]) ==> (r matches Err(ErrorType::InvalidHash(s))
                && s@ == parts[1])
            &&& valid_hash_text(parts[0]) && valid_hash_text(parts[1]) ==> match pushed_ref_name(before_nul(parts[2])) {
                Some(n) => r matches Ok((a, b, c)) && a@ == parts[0] && b@ == parts[1] && c@ == n,
                None => r matches Err(ErrorType::ProtocolError(m)) && m@ == "invalid reference: "@ + before_nul(parts[2]),
            }
        },
{
    let t = trim_string(line);
    let parts = split_char(t.as_str(), ' ');
    if parts.len() != 3 {
        let mut m = String::from_str("invalid reference line: ");
        push_text(&mut m, line);
        return Err(ErrorType::ProtocolError(m));
    }
    assert(views(parts@)[0] == parts@[0]@ && views(parts@)[1] == parts@[1]@ && views(parts@)[2] == parts@[2]@);
    let previous_hash = match GitHash::new(parts[0].as_str()) {
        Ok(h) => h,
        Err(e) => return Err(e),
    };
    let new_hash = match GitHash::new(parts[1].as_str()) {
        Ok(h) => h,
        Err(e) => return Err(e),
    };
    let ref_name = match split_once_char(parts[2].as_str(), '\0') {
        Some((n, _)) => n,
        None => parts[2].clone(),
    };
    let trimmed = trim_string(ref_name.as_str());
    let ref_parts = split_char(trimmed.as_str(), '/');
    assert(views(ref_parts@).len() == ref_parts@.len());
    if ref_parts.len() == 1 && text_eq(ref_parts[0].as_str(), "HEAD") {
        assert(views(ref_parts@)[0] == ref_parts@[0]@);
        return Ok((previous_hash, new_hash, String::from_str("HEAD")));
    }
    if ref_parts.len() != 3 || !text_eq(ref_parts[0].as_str(), "refs") {
        proof {
            if ref_parts@.len() > 0 {
                assert(views(ref_parts@)[0] == ref_parts@[0]@);
            }
        }
        let mut m = String::from_str("invalid reference: ");
        push_text(&mut m, ref_name.as_str());
        return Err(ErrorType::ProtocolError(m));
    }
    assert(views(ref_parts@)[0] == ref_parts@[0]@ && views(ref_parts@)[2] == ref_parts@[2]@);
    Ok((previous_hash, new_hash, ref_parts[2].clone()))
}

/// What the server does with the commands of a push, given its branch
/// files: the commits of created and deleted branches, the command on the
/// head (the last one), and the branches to write (in the directory
/// `path_heads`). A branch to move must have a file holding a hash.
pub fn server_commits_to_update(commands: &Vec<(GitHash, GitHash, String)>, branch_files: &Vec<(String, String)>,
    path_heads: &str) -> (r: Result<(Vec<GitHash>, Option<(GitHash, GitHash, String)>, Vec<Branch>), ErrorType>)
    ensures
        r is Ok <==> push_plan(command_views(commands@), branch_files@, commands@.len()) is Some,
        r matches Ok((cs, h, bs)) ==> push_plan(command_views(commands@), branch_files@, commands@.len()) matches Some((pc, ph, pw))
            && hash_views(cs@) == pc
            && ph == match h { Some(c) => Some((c.0@, c.1@, c.2@)), None => None }
            && bs@.len() == pw.len()
            && forall|i: int| 0 <= i < bs@.len() ==> (#[trigger] bs@[i]).name_view() == pw[i].0 && bs@[i].hash_view() == pw[i].1
                && bs@[i].dir_view() == path_heads@,
{
    let ghost cv = command_views(commands@);
    let mut commits: Vec<GitHash> = Vec::new();
    let mut head_command: Option<(GitHash, GitHash, String)> = None;
    let mut branches: Vec<Branch> = Vec::new();
    let zero = zero_git_hash();
    let mut k: usize = 0;
    while k < commands.len()
        invariant
            k <= commands@.len(),
            cv == command_views(commands@),
            zero@ == zero_hash(),
            push_plan(cv, branch_files@, k as nat) matches Some((pc, ph, pw))
                && hash_views(commits@) == pc
                && ph == match head_command { Some(c) => Some((c.0@, c.1@, c.2@)), None => None }
                && branches@.len() == pw.len()
                && forall|i: int| 0 <= i < branches@.len() ==> (#[trigger] branches@[i]).name_view() == pw[i].0
                    && branches@[i].hash_view() == pw[i].1 && branches@[i].dir_view() == path_heads@,
        decreases commands.len() - k,
    {
        let (old_hash, new_hash, name) = &commands[k];
        assert(cv[k as int] == (old_hash@, new_hash@, name@));
        let ghost prev_commits = commits@;
        let ghost prev_branches = branches@;
        if text_eq(name.as_str(), "HEAD") {
            head_command = Some((old_hash.clone(), new_hash.clone(), name.clone()));
        } else if old_hash.same_as(&zero) {
            commits.push(new_hash.clone());
            branches.push(Branch::new(name.as_str(), path_heads, new_hash.clone()));
            assert(hash_views(commits@) =~= hash_views(prev_commits).push(new_hash@));
        } else if new_hash.same_as(&zero) {
            commits.push(new_hash.clone());
            assert(hash_views(commits@) =~= hash_views(prev_commits).push(new_hash@));
        } else {
            let mut branch = match Branch::open(path_heads, name.as_str(), branch_file(branch_files, name.as_str())) {
                Ok(b) => b,
                Err(e) => {
                    proof {
                        lemma_push_plan_none(cv, branch_files@, (k + 1) as nat, commands@.len() as nat);
                    }
                    return Err(e);
                },
            };
            branch.set_last_commit_hash(new_hash.clone());
            branches.push(branch);
        }
        k = k + 1;
    }
    Ok((commits, head_command, branches))
}

/// The pkt-lines with which a server announces its references: the head's
/// commit (where it has one) and each branch.
pub fn server_ref_lines(head_hash: &Option<GitHash>, refs: &Vec<(String, GitHash)>) -> (r: Result<Vec<String>, ErrorType>)
    ensures
        r is Ok <==> forall|i: int| 0 <= i < advert_texts(opt_hash(*head_hash),
            ref_texts(refs@)).len() ==> fits_pkt(#[trigger] advert_texts(opt_hash(*head_hash),
            ref_texts(refs@))[i]),
        r matches Ok(v) ==> views(v@) == advert_texts(opt_hash(*head_hash),
            ref_texts(refs@)).map_values(|t: Seq<char>| pkt_text(t)),
{
    let ghost head_view = opt_hash(*head_hash);
    let ghost texts = advert_texts(head_view, ref_texts(refs@));
    let mut lines: Vec<String> = Vec::new();
    let mut first = true;
    let mut done: usize = 0;
    proof { reveal_strlit(" HEAD"); reveal_strlit(" refs/heads/"); reveal_strlit("\0"); }
    match head_hash {
        Some(h) => {
            let mut line = h.to_string();
            push_text(&mut line, " HEAD");
            push_text(&mut line, "\0");
            assert(line@ == texts[0]);
            let pkt = match create_pkt_line(line.as_str()) {
                Ok(p) => p,
                Err(e) => return Err(e),
            };
            lines.push(pkt);
            first = false;
            done = 1;
        },
        None => {},
    }
    let mut k: usize = 0;
    while k < refs.len()
        invariant
            k <= refs@.len(),
            head_view == opt_hash(*head_hash),
            texts == advert_texts(head_view, ref_texts(refs@)),
            done == if head_hash is Some { 1usize } else { 0usize },
            first == (head_hash is None && k == 0),
            texts.len() == done + refs@.len(),
            views(lines@) == texts.subrange(0, done + k).map_values(|t: Seq<char>| pkt_text(t)),
            forall|i: int| 0 <= i < done + k ==> fits_pkt(#[trigger] texts[i]),
        decreases refs.len() - k,
    {
        proof { reveal_strlit(" refs/heads/"); reveal_strlit("\0"); }
        let (name, hash) = &refs[k];
        let mut line = hash.to_string();
        push_text(&mut line, " refs/heads/");
        push_text(&mut line, name.as_str());
        if first {
            push_text(&mut line, "\0");
            first = false;
        }
        assert(ref_texts(refs@)[k as int] == (name@, hash@));
        assert(line@ == texts[done + k]);
        let pkt = match create_pkt_line(line.as_str()) {
            Ok(p) => p,
            Err(e) => return Err(e),
        };
        let ghost before = views(lines@);
        lines.push(pkt);
        assert(views(lines@) =~= before.push(pkt@));
        assert(texts.subrange(0, done + k + 1) =~= texts.subrange(0, done + k as int).push(texts[done + k]));
        assert(views(lines@) =~= texts.subrange(0, done + k + 1).map_values(|t: Seq<char>| pkt_text(t)));
        k = k + 1;
    }
    assert(texts.subrange(0, texts.len() as int) =~= texts);
    Ok(lines)
}

/// What a push does to the server's head: `None` where no command was on
/// the head or the head's branch is not among the server's branches;
/// `Some(true)` where that branch now holds the commit the head's command
/// gives (the head then names it again), `Some(false)` where it does not.
pub fn head_after_push(head_command: &Option<(GitHash, GitHash, String)>, head_branch: &Option<String>,
    server_refs: &Vec<(String, GitHash)>) -> (r: Option<bool>)
    ensures
        r == match (head_command, head_branch) {
            (Some(c), Some(b)) => match first_ref(ref_texts(server_refs@), b@) {
                Some(h) => Some(h == c.1@),
                None => None,
            },
            _ => None,
        },
{
    let command = match head_command {
        Some(c) => c,
        None => return None,
    };
    let name = match head_branch {
        Some(b) => b,
        None => return None,
    };
    let mut k: usize = 0;
    assert(ref_texts(server_refs@).subrange(0, server_refs@.len() as int) =~= ref_texts(server_refs@));
    while k < server_refs.len()
        invariant
            k <= server_refs@.len(),
            *head_command == Some(*command),
            *head_branch == Some(*name),
            first_ref(ref_texts(server_refs@), name@) == first_ref(ref_texts(server_refs@).subrange(k as int,
                server_refs@.len() as int), name@),
        decreases server_refs.len() - k,
    {
        let ghost rest = ref_texts(server_refs@).subrange(k as int, server_refs@.len() as int);
        assert(rest[0] == (server_refs@[k as int].0@, server_refs@[k as int].1@));
        if text_eq(server_refs[k].0.as_str(), name.as_str()) {
            assert(first_ref(rest, name@) == Some(server_refs@[k as int].1@));
            return Some(server_refs[k].1.same_as(&command.1));
        }
        assert(rest.drop_first() =~= ref_texts(server_refs@).subrange(k + 1, server_refs@.len() as int));
        k = k + 1;
    }
    assert(ref_texts(server_refs@).subrange(k as int, server_refs@.len() as int) =~= Seq::<(Seq<char>, Seq<char>)>::empty());
    None
}

} // verus!
