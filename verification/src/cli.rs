use vstd::prelude::*;
use crate::errors::{CommandError, ErrorType};
use crate::text::{push_text, text_eq, views, join_strings, join_with, starts_with, has_prefix, usize_to_decimal, decimal};

verus! {

/// The commands the command line knows.
#[derive(PartialEq, Eq, Structural, Clone, Copy)]
pub enum CliCommand {
    Init,
    Config,
    CatFile,
    Status,
    CheckIgnore,
    Add,
    Rm,
    HashObject,
    Remote,
    Fetch,
    Clone,
    Pull,
    Push,
    Commit,
    Log,
    Branch,
    Checkout,
    Switch,
    Merge,
    ShowRef,
    Rebase,
    LsTree,
    LsFiles,
    Tag,
}

/// The command a name on the command line stands for.
pub open spec fn command_of(name: Seq<char>) -> Option<CliCommand> {
    if name == "init"@ { Some(CliCommand::Init) }
    else if name == "config"@ { Some(CliCommand::Config) }
    else if name == "cat-file"@ { Some(CliCommand::CatFile) }
    else if name == "status"@ { Some(CliCommand::Status) }
    else if name == "check-ignore"@ { Some(CliCommand::CheckIgnore) }
    else if name == "add"@ { Some(CliCommand::Add) }
    else if name == "rm"@ { Some(CliCommand::Rm) }
    else if name == "hash-object"@ { Some(CliCommand::HashObject) }
    else if name == "remote"@ { Some(CliCommand::Remote) }
    else if name == "fetch"@ { Some(CliCommand::Fetch) }
    else if name == "clone"@ { Some(CliCommand::Clone) }
    else if name == "pull"@ { Some(CliCommand::Pull) }
    else if name == "push"@ { Some(CliCommand::Push) }
    else if name == "commit"@ { Some(CliCommand::Commit) }
    else if name == "log"@ { Some(CliCommand::Log) }
    else if name == "branch"@ { Some(CliCommand::Branch) }
    else if name == "checkout"@ { Some(CliCommand::Checkout) }
    else if name == "switch"@ { Some(CliCommand::Switch) }
    else if name == "merge"@ { Some(CliCommand::Merge) }
    else if name == "show-ref"@ { Some(CliCommand::ShowRef) }
    else if name == "rebase"@ { Some(CliCommand::Rebase) }
    else if name == "ls-tree"@ { Some(CliCommand::LsTree) }
    else if name == "ls-files"@ { Some(CliCommand::LsFiles) }
    else if name == "tag"@ { Some(CliCommand::Tag) }
    else { None }
}

/// Whether a command needs to run inside a repository (all but `init` and
/// `clone`).
pub fn needs_repository(command: &str) -> (r: bool)
    ensures
        r == !(command@ == "init"@ || command@ == "clone"@),
{
    !(text_eq(command, "init") || text_eq(command, "clone"))
}

/// The command a name stands for; an error for one not implemented.
pub fn parse_command(command: &str) -> (r: Result<CliCommand, ErrorType>)
    ensures
        match command_of(command@) {
            Some(c) => r == Ok::<CliCommand, ErrorType>(c),
            None => r matches Err(ErrorType::FormatError(m)) && m@ == "Command not implemented yet : "@ + command@,
        },
{
    if text_eq(command, "init") { return Ok(CliCommand::Init); }
    if text_eq(command, "config") { return Ok(CliCommand::Config); }
    if text_eq(command, "cat-file") { return Ok(CliCommand::CatFile); }
    if text_eq(command, "status") { return Ok(CliCommand::Status); }
    if text_eq(command, "check-ignore") { return Ok(CliCommand::CheckIgnore); }
    if text_eq(command, "add") { return Ok(CliCommand::Add); }
    if text_eq(command, "rm") { return Ok(CliCommand::Rm); }
    if text_eq(command, "hash-object") { return Ok(CliCommand::HashObject); }
    if text_eq(command, "remote") { return Ok(CliCommand::Remote); }
    if text_eq(command, "fetch") { return Ok(CliCommand::Fetch); }
    if text_eq(command, "clone") { return Ok(CliCommand::Clone); }
    if text_eq(command, "pull") { return Ok(CliCommand::Pull); }
    if text_eq(command, "push") { return Ok(CliCommand::Push); }
    if text_eq(command, "commit") { return Ok(CliCommand::Commit); }
    if text_eq(command, "log") { return Ok(CliCommand::Log); }
    if text_eq(command, "branch") { return Ok(CliCommand::Branch); }
    if text_eq(command, "checkout") { return Ok(CliCommand::Checkout); }
    if text_eq(command, "switch") { return Ok(CliCommand::Switch); }
    if text_eq(command, "merge") { return Ok(CliCommand::Merge); }
    if text_eq(command, "show-ref") { return Ok(CliCommand::ShowRef); }
    if text_eq(command, "rebase") { return Ok(CliCommand::Rebase); }
    if text_eq(command, "ls-tree") { return Ok(CliCommand::LsTree); }
    if text_eq(command, "ls-files") { return Ok(CliCommand::LsFiles); }
    if text_eq(command, "tag") { return Ok(CliCommand::Tag); }
    let mut m = String::from_str("Command not implemented yet : ");
    push_text(&mut m, command);
    Err(ErrorType::FormatError(m))
}

/// Checks that a command got exactly `quantity` arguments.
pub fn check_arguments_quantity(quantity: usize, args: &Vec<String>) -> (r: Result<(), ErrorType>)
    ensures
        args@.len() == quantity ==> r is Ok,
        args@.len() != quantity ==> (r matches Err(ErrorType::CommandError(CommandError::IncorrectAmount(e, n)))
            && e@ == decimal(quantity as nat) && n == args@.len()),
{
    if args.len() != quantity {
        return Err(ErrorType::CommandError(CommandError::IncorrectAmount(usize_to_decimal(quantity), args.len())));
    }
    Ok(())
}

/// Whether an argument is an option (starts with `-`).
pub open spec fn is_option(a: Seq<char>) -> bool {
    a.len() > 0 && a[0] == '-'
}

proof fn lemma_dash_prefix(a: Seq<char>)
    ensures
        has_prefix(a, "-"@) == is_option(a),
{
    reveal_strlit("-");
    if a.len() > 0 {
        assert(a.subrange(0, 1)[0] == a[0]);
        if a[0] == '-' {
            assert(a.subrange(0, 1) =~= "-"@);
        }
    }
}

/// Takes the options (arguments that start with `-`) out of the arguments,
/// both keeping their order, and gives them.
pub fn parse_options(args: &mut Vec<String>) -> (r: Vec<String>)
    ensures
        views(r@) == views(old(args)@).filter(|a: Seq<char>| is_option(a)),
        views(final(args)@) == views(old(args)@).filter(|a: Seq<char>| !is_option(a)),
{
    let ghost all = views(args@);
    let ghost f = |a: Seq<char>| is_option(a);
    let ghost g = |a: Seq<char>| !is_option(a);
    let mut options: Vec<String> = Vec::new();
    let mut rest: Vec<String> = Vec::new();
    let mut pending: Vec<String> = Vec::new();
    std::mem::swap(&mut pending, args);
    let ghost mut done: int = 0;
    proof { reveal_strlit("-"); }
    while pending.len() > 0
        invariant
            0 <= done <= all.len(),
            views(pending@) == all.subrange(done, all.len() as int),
            views(options@) == all.subrange(0, done).filter(f),
            views(rest@) == all.subrange(0, done).filter(g),
            f == (|a: Seq<char>| is_option(a)),
            g == (|a: Seq<char>| !is_option(a)),
        decreases pending.len(),
    {
        let ghost p0 = views(pending@);
        assert(p0.len() > 0);
        assert(done < all.len());
        let a = pending.remove(0);
        assert(views(pending@) =~= p0.drop_first());
        assert(a@ == p0[0]);
        assert(p0[0] == all[done]);
        let ghost cur = all.subrange(0, done + 1);
        let ghost o0 = views(options@);
        let ghost r0 = views(rest@);
        proof {
            reveal(Seq::filter);
            assert(cur.drop_last() =~= all.subrange(0, done));
            assert(views(pending@) =~= all.subrange(done + 1, all.len() as int));
            assert(cur.last() == a@);
        }
        let opt = starts_with(a.as_str(), "-");
        proof { lemma_dash_prefix(a@); }
        if opt {
            options.push(a);
            assert(views(options@) =~= o0.push(cur.last()));
        } else {
            rest.push(a);
            assert(views(rest@) =~= r0.push(cur.last()));
        }
        proof { done = done + 1; }
    }
    assert(all.subrange(0, done) =~= all);
    *args = rest;
    options
}

/// What the log records of a command that takes options: the arguments, or
/// that there were none.
pub fn return_option(args: &Vec<String>) -> (r: Result<String, ErrorType>)
    ensures
        args@.len() == 0 ==> (r matches Ok(s) && s@ == "Whithout options."@),
        args@.len() > 0 ==> (r matches Ok(s) && s@ == "Whit options: "@ + join_with(views(args@), ", "@) + "."@),
{
    if args.len() == 0 {
        return Ok(String::from_str("Whithout options."));
    }
    let mut s = String::from_str("Whit options: ");
    push_text(&mut s, join_strings(args, ", ").as_str());
    push_text(&mut s, ".");
    Ok(s)
}

/// The arguments of `cat-file`: an option and a hash, in either order.
pub fn cat_file_args(args: &Vec<String>) -> (r: Result<(String, String), ErrorType>)
    requires
        args@.len() == 2 ==> (is_option(args@[0]@) || is_option(args@[1]@)),
    ensures
        args@.len() != 2 ==> (r matches Err(ErrorType::CommandError(CommandError::IncorrectAmount(e, n)))
            && e@ == "2"@ && n == args@.len()),
        args@.len() == 2 && is_option(args@[0]@) && is_option(args@[1]@) ==>
            r matches Err(ErrorType::CommandError(CommandError::IncorrectOptionAmount(1, 2))),
        args@.len() == 2 && is_option(args@[0]@) && !is_option(args@[1]@) ==>
            (r matches Ok((o, h)) && o@ == args@[0]@ && h@ == args@[1]@),
        args@.len() == 2 && !is_option(args@[0]@) && is_option(args@[1]@) ==>
            (r matches Ok((o, h)) && o@ == args@[1]@ && h@ == args@[0]@),
{
    if args.len() != 2 {
        proof { reveal_strlit("2"); }
        let r = check_arguments_quantity(2, args);
        proof {
            assert(decimal(2) == "2"@) by {
                reveal_strlit("2");
                assert(decimal(2) =~= seq!['2']);
            }
        }
        return match r {
            Err(e) => Err(e),
            Ok(()) => Err(ErrorType::CommandError(CommandError::IncorrectAmount(String::from_str("2"), args.len()))),
        };
    }
    proof { reveal_strlit("-"); }
    let o0 = starts_with(args[0].as_str(), "-");
    let o1 = starts_with(args[1].as_str(), "-");
    proof {
        lemma_dash_prefix(args@[0]@);
        lemma_dash_prefix(args@[1]@);
    }
    assert(o0 == is_option(args@[0]@));
    assert(o1 == is_option(args@[1]@));
    if o0 && o1 {
        return Err(ErrorType::CommandError(CommandError::IncorrectOptionAmount(1, 2)));
    }
    if o0 {
        Ok((args[0].clone(), args[1].clone()))
    } else {
        Ok((args[1].clone(), args[0].clone()))
    }
}

} // verus!
