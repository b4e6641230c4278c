use vstd::prelude::*;
use vstd::utf8::encode_utf8;
use crate::errors::{CommandError, ErrorType};
use crate::hash::{GitHash, valid_hash_text};
use crate::branch::Branch;
use crate::blob::Blob;
use crate::object_type::ObjectType;
use crate::git_object::{GitObject, ObjectStore, object_hash, object_parts};
use crate::commit::{Commit, commit_ok, stored_rec_history, stamps, stamp_hashes, files_known, files_stored, files_of, stored_commit_files};
use crate::tree::{entries_content, entries_files, blob_readable};
use crate::remote::Remote;
use crate::http_protocol::pair_views;
use crate::pkt_line::{create_pkt_line, pkt_len_prefix, fits_pkt};
use crate::assoc::{assoc_map, distinct_keys, find_key, lemma_assoc_distinct, lemma_assoc_absent, lemma_assoc_push,
    lemma_assoc_update};
use crate::merge::{hash_pairs, blob_pairs};
use crate::pull_request::{texts, blob_paths};
use crate::text::{push_text, text_eq, trim, trim_string, split_on, split_char, split_once_spec, split_once_char,
    has_prefix, starts_with, views, join_with, join_strings, text_bytes};

verus! {

/// The name of the remote that the network commands use.
pub open spec fn default_remote() -> Seq<char> {
    "origin"@
}

/// The hash made of forty zeros, which stands for no commit.
pub open spec fn zero_hash() -> Seq<char> {
    Seq::new(40, |i: int| '0')
}

/// A reference line `<hash> <ref>` of a server: the kind (`heads` or
/// `tags`), the name and the hash; or the error it gives.
pub open spec fn ref_line_spec(line: Seq<char>) -> Result<(Seq<char>, Seq<char>, Seq<char>), ErrorType> {
    match split_once_spec(line, ' ') {
        None => Err(ErrorType::ProtocolError(arbitrary())),
        Some((hash, name)) => {
            let parts = split_on(trim(name), '/');
            if !(parts.len() == 1 && parts[0] == "HEAD"@) && (parts.len() != 3 || parts[0] != "refs"@) {
                Err(ErrorType::ProtocolError(arbitrary()))
            } else if !valid_hash_text(hash) {
                Err(ErrorType::InvalidHash(arbitrary()))
            } else if parts.len() == 1 {
                Ok(("heads"@, "HEAD"@, hash))
            } else {
                Ok((parts[1], parts[2], hash))
            }
        },
    }
}

/// The message of the error for a line that is no reference line.
pub open spec fn invalid_ref_line_text(line: Seq<char>) -> Seq<char> {
    "invalid ref line '"@ + line + "'"@
}

/// Whether a line of the advertisement announces the protocol version.
pub open spec fn is_version_line(line: Seq<char>) -> bool {
    encode_utf8(line).len() == 9 && crate::http_protocol::contains_text(line, "version"@)
}

/// The number of lines before the first that does not announce the version.
pub open spec fn leading_versions(lines: Seq<Seq<char>>, i: nat) -> nat
    decreases lines.len() - i,
{
    if i < lines.len() && is_version_line(lines[i as int]) {
        leading_versions(lines, i + 1)
    } else {
        i
    }
}

/// What a reference line holds before its first NUL (the capabilities
/// after it are ignored).
pub open spec fn before_nul(line: Seq<char>) -> Seq<char> {
    match split_once_spec(line, '\0') {
        Some((r, _)) => r,
        None => line,
    }
}

/// The lines of an advertisement that name references: none where the
/// first one (after the version lines) is the forty zeros of an empty
/// repository; the first without its capabilities.
pub open spec fn ref_lines(lines: Seq<Seq<char>>) -> Seq<Seq<char>> {
    let k = leading_versions(lines, 0);
    if k >= lines.len() || has_prefix(lines[k as int], zero_hash()) {
        Seq::empty()
    } else {
        seq![before_nul(lines[k as int])] + lines.subrange(k as int + 1, lines.len() as int)
    }
}

/// The references of the first `n` reference lines, split into heads and
/// tags, in order; or the error of the first bad line.
pub open spec fn refs_upto(lines: Seq<Seq<char>>, n: nat)
    -> Result<(Seq<(Seq<char>, Seq<char>)>, Seq<(Seq<char>, Seq<char>)>), ErrorType>
    decreases n,
{
    if n == 0 {
        Ok((Seq::empty(), Seq::empty()))
    } else {
        match refs_upto(lines, (n - 1) as nat) {
            Err(e) => Err(e),
            Ok((heads, tags)) => match ref_line_spec(lines[n - 1]) {
                Err(e) => Err(e),
                Ok((kind, name, hash)) => if kind == "heads"@ {
                    Ok((heads.push((name, hash)), tags))
                } else if kind == "tags"@ {
                    Ok((heads, tags.push((name, hash))))
                } else {
                    Err(ErrorType::ProtocolError(arbitrary()))
                },
            },
        }
    }
}

/// The kind of an error, its text left out.
pub open spec fn same_kind(a: ErrorType, b: ErrorType) -> bool {
    match (a, b) {
        (ErrorType::ProtocolError(_), ErrorType::ProtocolError(_)) => true,
        (ErrorType::InvalidHash(_), ErrorType::InvalidHash(_)) => true,
        _ => false,
    }
}

/// Whether a list of references names each reference once.
pub open spec fn distinct_refs(v: Seq<(String, GitHash)>) -> bool {
    distinct_keys(hash_pairs(v))
}

/// The references of a list of lines as a map, a later line for a name
/// replacing an earlier one.
pub open spec fn ref_map(v: Seq<(Seq<char>, Seq<char>)>) -> Map<Seq<char>, Seq<char>> {
    assoc_map(v)
}

/// Parses a reference line of a server, `<hash> <ref>`: `HEAD`, or
/// `refs/<kind>/<name>`. Gives the kind, the name and the hash.
pub fn parse_ref_line(ref_line: String) -> (r: Result<(String, String, GitHash), ErrorType>)
    ensures
        match ref_line_spec(ref_line@) {
            Ok((k, n, h)) => r matches Ok((rk, rn, rh)) && rk@ == k && rn@ == n && rh@ == h,
            Err(e) => r matches Err(re) && same_kind(re, e),
        },
        split_once_spec(ref_line@, ' ') is None ==> (r matches Err(ErrorType::ProtocolError(m))
            && m@ == invalid_ref_line_text(ref_line@)),
{
    let (hash, ref_name) = match split_once_char(ref_line.as_str(), ' ') {
        Some(p) => p,
        None => {
            let mut m = String::from_str("invalid ref line '");
            push_text(&mut m, ref_line.as_str());
            push_text(&mut m, "'");
            return Err(ErrorType::ProtocolError(m));
        },
    };
    let trimmed = trim_string(ref_name.as_str());
    let parts = split_char(trimmed.as_str(), '/');
    assert(views(parts@) == split_on(trim(ref_name@), '/'));
    let kind: String;
    let name: String;
    if parts.len() == 1 && text_eq(parts[0].as_str(), "HEAD") {
        kind = String::from_str("heads");
        name = String::from_str("HEAD");
    } else if parts.len() != 3 || !text_eq(parts[0].as_str(), "refs") {
        let mut m = String::from_str("invalid ref format '");
        push_text(&mut m, join_strings(&parts, "/").as_str());
        push_text(&mut m, "'");
        return Err(ErrorType::ProtocolError(m));
    } else {
        kind = parts[1].clone();
        name = parts[2].clone();
    }
    let hash = match GitHash::new(hash.as_str()) {
        Ok(h) => h,
        Err(e) => return Err(e),
    };
    Ok((kind, name, hash))
}

/// Once a reference line fails, the error stays for longer prefixes.
proof fn lemma_refs_err_stays(lines: Seq<Seq<char>>, n: nat, m: nat)
    requires
        refs_upto(lines, n) is Err,
        n <= m,
    ensures
        refs_upto(lines, m) == refs_upto(lines, n),
    decreases m - n,
{
    if n < m {
        lemma_refs_err_stays(lines, n, (m - 1) as nat);
    }
}

/// Puts a reference in a list that names each once: a new value for a name
/// already there, else a new pair at the end.
pub fn put_ref(v: &mut Vec<(String, GitHash)>, name: String, hash: GitHash)
    requires
        distinct_refs(old(v)@),
    ensures
        distinct_refs(final(v)@),
        ref_map(hash_pairs(final(v)@)) == ref_map(hash_pairs(old(v)@)).insert(name@, hash@),
{
    let ghost s = hash_pairs(v@);
    match find_key(v, name.as_str()) {
        Some(k) => {
            proof {
                assert(s[k as int].0 == name@);
                lemma_assoc_update(s, k as int, hash@);
            }
            let ghost hv = hash@;
            v.set(k, (name, hash));
            assert(hash_pairs(v@) =~= s.update(k as int, (s[k as int].0, hv)));
        },
        None => {
            proof {
                assert forall|i: int| 0 <= i < s.len() implies s[i].0 != name@ by {
                    assert(s[i].0 == v@[i].0@);
                }
                lemma_assoc_absent(s, name@);
                lemma_assoc_push(s, name@, hash@);
            }
            let ghost nv = name@;
            let ghost hv = hash@;
            v.push((name, hash));
            assert(hash_pairs(v@) =~= s.push((nv, hv)));
        },
    }
}

/// Reads the references a server advertises, one pkt-line payload each up
/// to the flush line: the head references and the tag references, each
/// named once (a later line for a name replacing an earlier one). Version
/// lines before the first reference are skipped, the capabilities after the
/// first reference's NUL ignored, and an empty repository's line of zeros
/// gives no reference.
pub fn read_server_refs(lines: &Vec<String>) -> (r: Result<(Vec<(String, GitHash)>, Vec<(String, GitHash)>), ErrorType>)
    ensures
        match refs_upto(ref_lines(views(lines@)), ref_lines(views(lines@)).len()) {
            Ok((heads, tags)) => r matches Ok((rh, rt)) && distinct_refs(rh@) && distinct_refs(rt@)
                && ref_map(hash_pairs(rh@)) == ref_map(heads) && ref_map(hash_pairs(rt@)) == ref_map(tags),
            Err(e) => r matches Err(re) && same_kind(re, e),
        },
{
    let ghost ls = views(lines@);
    let mut heads: Vec<(String, GitHash)> = Vec::new();
    let mut tags: Vec<(String, GitHash)> = Vec::new();
    let mut k: usize = 0;
    proof { reveal_strlit("version"); }
    while k < lines.len() && is_version(lines[k].as_str())
        invariant
            k <= lines@.len(),
            ls == views(lines@),
            leading_versions(ls, 0) == leading_versions(ls, k as nat),
        decreases lines.len() - k,
    {
        assert(ls[k as int] == lines@[k as int]@);
        k = k + 1;
    }
    proof {
        if k < lines@.len() {
            assert(ls[k as int] == lines@[k as int]@);
        }
    }
    assert(leading_versions(ls, 0) == k);
    let ghost rl = ref_lines(ls);
    assert(hash_pairs(heads@) =~= Seq::<(Seq<char>, Seq<char>)>::empty());
    assert(hash_pairs(tags@) =~= Seq::<(Seq<char>, Seq<char>)>::empty());
    if k >= lines.len() || starts_with(lines[k].as_str(), "0000000000000000000000000000000000000000") {
        proof {
            reveal_strlit("0000000000000000000000000000000000000000");
            assert("0000000000000000000000000000000000000000"@ =~= zero_hash());
        }
        return Ok((heads, tags));
    }
    proof {
        reveal_strlit("0000000000000000000000000000000000000000");
        assert("0000000000000000000000000000000000000000"@ =~= zero_hash());
    }
    let first = match split_once_char(lines[k].as_str(), '\0') {
        Some((r, _)) => r,
        None => lines[k].clone(),
    };
    assert(rl.len() == lines@.len() - k);
    let mut i: usize = 0;
    let n = lines.len() - k;
    while i < n
        invariant
            n == lines@.len() - k,
            k < lines@.len(),
            i <= n,
            ls == views(lines@),
            rl == ref_lines(ls),
            rl.len() == n,
            first@ == rl[0],
            forall|j: int| 1 <= j < n ==> rl[j] == ls[k + j],
            distinct_refs(heads@),
            distinct_refs(tags@),
            refs_upto(rl, i as nat) matches Ok((h, t)) && ref_map(hash_pairs(heads@)) == ref_map(h)
                && ref_map(hash_pairs(tags@)) == ref_map(t),
        decreases n - i,
    {
        assert(k + i < lines.len());
        let line = if i == 0 { first.clone() } else { lines[k + i].clone() };
        assert(line@ == rl[i as int]) by {
            if i > 0 {
                assert(ls[k + i] == lines@[k + i]@);
            }
        }
        let ghost prev = refs_upto(rl, i as nat);
        let (kind, name, hash) = match parse_ref_line(line) {
            Ok(p) => p,
            Err(e) => {
                proof { lemma_refs_err_stays(rl, (i + 1) as nat, n as nat); }
                return Err(e);
            },
        };
        if text_eq(kind.as_str(), "heads") {
            put_ref(&mut heads, name, hash);
        } else if text_eq(kind.as_str(), "tags") {
            put_ref(&mut tags, name, hash);
        } else {
            let mut m = String::from_str("invalid ref type '");
            push_text(&mut m, kind.as_str());
            push_text(&mut m, "'");
            proof { lemma_refs_err_stays(rl, (i + 1) as nat, n as nat); }
            return Err(ErrorType::ProtocolError(m));
        }
        proof {
            assert forall|h: Seq<(Seq<char>, Seq<char>)>, nm: Seq<char>, hh: Seq<char>|
                #[trigger] ref_map(h.push((nm, hh))) == ref_map(h).insert(nm, hh) by {
                assert(h.push((nm, hh)).drop_last() =~= h);
            }
        }
        i = i + 1;
    }
    Ok((heads, tags))
}

/// Whether a line announces the protocol version: nine bytes holding
/// `version`.
fn is_version(line: &str) -> (r: bool)
    ensures
        r == is_version_line(line@),
{
    proof { reveal_strlit("version"); }
    text_bytes(line).len() == 9 && crate::http_protocol::contains_str(line, "version")
}


/// The pkt-line that carries a text (its length as `str::len` gives it).
pub open spec fn pkt_text(t: Seq<char>) -> Seq<char> {
    pkt_len_prefix((encode_utf8(t).len() as usize) as nat) + t + seq!['\n']
}

/// The commands that update or create the remote references of the local
/// ones that differ: `(old, new, name)`, the old hash zeros for a new one.
pub open spec fn update_commands(local: Seq<(Seq<char>, Seq<char>)>, remote: Map<Seq<char>, Seq<char>>)
    -> Seq<(Seq<char>, Seq<char>, Seq<char>)>
    decreases local.len(),
{
    if local.len() == 0 {
        Seq::empty()
    } else {
        let rest = update_commands(local.drop_last(), remote);
        let (n, h) = local.last();
        if remote.contains_key(n) {
            if remote[n] == h { rest } else { rest.push((remote[n], h, n)) }
        } else {
            rest.push((zero_hash(), h, n))
        }
    }
}

/// The commits of the local references that differ from the remote ones.
pub open spec fn pushed_commits(local: Seq<(Seq<char>, Seq<char>)>, remote: Map<Seq<char>, Seq<char>>) -> Seq<Seq<char>>
    decreases local.len(),
{
    if local.len() == 0 {
        Seq::empty()
    } else {
        let rest = pushed_commits(local.drop_last(), remote);
        let (n, h) = local.last();
        if remote.contains_key(n) && remote[n] == h { rest } else { rest.push(h) }
    }
}

/// The commands that delete the remote references with no local one.
pub open spec fn delete_commands(remote: Seq<(Seq<char>, Seq<char>)>, local: Map<Seq<char>, Seq<char>>)
    -> Seq<(Seq<char>, Seq<char>, Seq<char>)>
    decreases remote.len(),
{
    if remote.len() == 0 {
        Seq::empty()
    } else {
        let rest = delete_commands(remote.drop_last(), local);
        let (n, h) = remote.last();
        if local.contains_key(n) { rest } else { rest.push((h, zero_hash(), n)) }
    }
}

/// The commands as plain texts.
pub open spec fn command_views(v: Seq<(GitHash, GitHash, String)>) -> Seq<(Seq<char>, Seq<char>, Seq<char>)> {
    v.map_values(|c: (GitHash, GitHash, String)| (c.0@, c.1@, c.2@))
}

/// The hashes as texts.
pub open spec fn hash_views(v: Seq<GitHash>) -> Seq<Seq<char>> {
    v.map_values(|h: GitHash| h@)
}

/// The text of the command line on a reference; the first line of the list
/// ends with a NUL.
pub open spec fn command_line(c: (Seq<char>, Seq<char>, Seq<char>), first: bool) -> Seq<char> {
    c.0 + " "@ + c.1 + " refs/heads/"@ + c.2 + (if first { seq!['\0'] } else { Seq::empty() })
}

/// The hash of forty zeros.
pub fn zero_git_hash() -> (r: GitHash)
    ensures
        r@ == zero_hash(),
{
    proof {
        reveal_strlit("0000000000000000000000000000000000000000");
        assert("0000000000000000000000000000000000000000"@ =~= zero_hash());
        vstd::utf8::is_ascii_chars_encode_utf8(zero_hash());
        assert(crate::hash::valid_hash_text(zero_hash()));
    }
    match GitHash::new("0000000000000000000000000000000000000000") {
        Ok(h) => h,
        Err(_) => {
            assert(false);
            GitHash::hash_sha1(&Vec::new())
        },
    }
}

/// The value a reference list that names each reference once maps a name to.
fn lookup_ref(v: &Vec<(String, GitHash)>, name: &str) -> (r: Option<GitHash>)
    requires
        distinct_refs(v@),
    ensures
        match r {
            Some(h) => ref_map(hash_pairs(v@)).contains_key(name@) && h@ == ref_map(hash_pairs(v@))[name@],
            None => !ref_map(hash_pairs(v@)).contains_key(name@),
        },
{
    let ghost s = hash_pairs(v@);
    proof { lemma_assoc_distinct(s); }
    match find_key(v, name) {
        Some(k) => {
            assert(s[k as int] == (v@[k as int].0@, v@[k as int].1@));
            assert(assoc_map(s).contains_key(s[k as int].0));
            Some(v[k].1.clone())
        },
        None => {
            proof {
                assert forall|i: int| 0 <= i < s.len() implies s[i].0 != name@ by {
                    assert(s[i].0 == v@[i].0@);
                }
                lemma_assoc_absent(s, name@);
            }
            None
        },
    }
}

/// Whether a list of references names each reference once.
pub fn refs_distinct(v: &Vec<(String, GitHash)>) -> (r: bool)
    ensures
        r == distinct_refs(v@),
{
    let ghost s = hash_pairs(v@);
    let mut i: usize = 0;
    while i < v.len()
        invariant
            i <= v@.len(),
            s == hash_pairs(v@),
            forall|a: int, b: int| 0 <= a < b < s.len() && a < i ==> s[a].0 != s[b].0,
        decreases v.len() - i,
    {
        let mut j: usize = i + 1;
        while j < v.len()
            invariant
                i < v@.len(),
                i + 1 <= j <= v@.len(),
                s == hash_pairs(v@),
                forall|a: int, b: int| 0 <= a < b < s.len() && a < i ==> s[a].0 != s[b].0,
                forall|b: int| i < b < j ==> s[i as int].0 != #[trigger] s[b].0,
            decreases v.len() - j,
        {
            if text_eq(v[i].0.as_str(), v[j].0.as_str()) {
                assert(s[i as int].0 == s[j as int].0);
                return false;
            }
            j = j + 1;
        }
        i = i + 1;
    }
    true
}

/// The hash of a reference in a list that names each once.
pub fn find_ref(v: &Vec<(String, GitHash)>, name: &str) -> (r: Option<GitHash>)
    requires
        distinct_refs(v@),
    ensures
        match r {
            Some(h) => ref_map(hash_pairs(v@)).contains_key(name@) && h@ == ref_map(hash_pairs(v@))[name@],
            None => !ref_map(hash_pairs(v@)).contains_key(name@),
        },
{
    let ghost s = hash_pairs(v@);
    proof { lemma_assoc_distinct(s); }
    match find_key(v, name) {
        Some(k) => {
            assert(s[k as int] == (v@[k as int].0@, v@[k as int].1@));
            assert(assoc_map(s).contains_key(s[k as int].0));
            assert(assoc_map(s)[s[k as int].0] == s[k as int].1);
            Some(v[k].1.clone())
        },
        None => {
            proof {
                assert forall|i: int| 0 <= i < s.len() implies s[i].0 != name@ by {
                    assert(s[i].0 == v@[i].0@);
                }
                lemma_assoc_absent(s, name@);
            }
            None
        },
    }
}

/// Takes a reference out of a list that names each once, giving its hash.
#[verifier::spinoff_prover]
pub fn remove_ref(v: &mut Vec<(String, GitHash)>, name: &str) -> (r: Option<GitHash>)
    requires
        distinct_refs(old(v)@),
    ensures
        distinct_refs(final(v)@),
        ref_map(hash_pairs(final(v)@)) == ref_map(hash_pairs(old(v)@)).remove(name@),
        match r {
            Some(h) => ref_map(hash_pairs(old(v)@)).contains_key(name@) && h@ == ref_map(hash_pairs(old(v)@))[name@],
            None => !ref_map(hash_pairs(old(v)@)).contains_key(name@),
        },
{
    let ghost s = hash_pairs(v@);
    proof { lemma_assoc_distinct(s); }
    match find_key(v, name) {
        Some(k) => {
            assert(s[k as int] == (v@[k as int].0@, v@[k as int].1@));
            assert(0 <= k < s.len());
            assert(assoc_map(s).contains_key(s[k as int].0));
            assert(assoc_map(s)[s[k as int].0] == s[k as int].1);
            proof { crate::assoc::lemma_assoc_remove(s, k as int); }
            let (_, h) = v.remove(k);
            assert(hash_pairs(v@) =~= s.remove(k as int));
            Some(h)
        },
        None => {
            proof {
                assert forall|i: int| 0 <= i < s.len() implies s[i].0 != name@ by {
                    assert(s[i].0 == v@[i].0@);
                }
                lemma_assoc_absent(s, name@);
                assert(assoc_map(s).remove(name@) =~= assoc_map(s));
            }
            None
        },
    }
}

/// Which remote references a push changes: an update or creation command
/// `(old, new, name)` for each local reference that differs from the
/// remote's (the old hash zeros for a new one) with the commits to send, and
/// a deletion command for each remote reference with no local one.
pub fn references_to_update(local_refs: &Vec<(String, GitHash)>, remote_refs: &Vec<(String, GitHash)>)
    -> (r: Result<(Vec<(GitHash, GitHash, String)>, Vec<GitHash>), ErrorType>)
    requires
        distinct_refs(local_refs@),
        distinct_refs(remote_refs@),
    ensures
        r matches Ok((cmds, commits)) && command_views(cmds@) == update_commands(hash_pairs(local_refs@),
            ref_map(hash_pairs(remote_refs@))) + delete_commands(hash_pairs(remote_refs@), ref_map(hash_pairs(local_refs@)))
            && hash_views(commits@) == pushed_commits(hash_pairs(local_refs@), ref_map(hash_pairs(remote_refs@))),
{
    let ghost lp = hash_pairs(local_refs@);
    let ghost rp = hash_pairs(remote_refs@);
    let ghost rm = ref_map(rp);
    let ghost lm = ref_map(lp);
    let mut commands: Vec<(GitHash, GitHash, String)> = Vec::new();
    let mut commits: Vec<GitHash> = Vec::new();
    let mut k: usize = 0;
    assert(lp.subrange(0, 0) =~= Seq::<(Seq<char>, Seq<char>)>::empty());
    while k < local_refs.len()
        invariant
            k <= local_refs@.len(),
            lp == hash_pairs(local_refs@),
            rp == hash_pairs(remote_refs@),
            rm == ref_map(rp),
            distinct_refs(remote_refs@),
            command_views(commands@) == update_commands(lp.subrange(0, k as int), rm),
            hash_views(commits@) == pushed_commits(lp.subrange(0, k as int), rm),
        decreases local_refs.len() - k,
    {
        let ghost sub = lp.subrange(0, k + 1);
        assert(sub.drop_last() =~= lp.subrange(0, k as int));
        assert(sub.last() == (local_refs@[k as int].0@, local_refs@[k as int].1@));
        let ghost cv = command_views(commands@);
        let ghost hv = hash_views(commits@);
        let name = &local_refs[k].0;
        let hash = &local_refs[k].1;
        match lookup_ref(remote_refs, name.as_str()) {
            Some(remote_hash) => {
                if !remote_hash.same_as(hash) {
                    commands.push((remote_hash, hash.clone(), name.clone()));
                    commits.push(hash.clone());
                    assert(command_views(commands@) =~= cv.push(command_views(commands@).last()));
                    assert(hash_views(commits@) =~= hv.push(hash_views(commits@).last()));
                }
            },
            None => {
                commands.push((zero_git_hash(), hash.clone(), name.clone()));
                commits.push(hash.clone());
                assert(command_views(commands@) =~= cv.push(command_views(commands@).last()));
                assert(hash_views(commits@) =~= hv.push(hash_views(commits@).last()));
            },
        }
        k = k + 1;
    }
    assert(lp.subrange(0, k as int) =~= lp);
    let ghost updates = command_views(commands@);
    let mut j: usize = 0;
    assert(rp.subrange(0, 0) =~= Seq::<(Seq<char>, Seq<char>)>::empty());
    assert(updates + delete_commands(rp.subrange(0, 0), lm) =~= updates);
    while j < remote_refs.len()
        invariant
            j <= remote_refs@.len(),
            lp == hash_pairs(local_refs@),
            rp == hash_pairs(remote_refs@),
            lm == ref_map(lp),
            distinct_refs(local_refs@),
            command_views(commands@) == updates + delete_commands(rp.subrange(0, j as int), lm),
        decreases remote_refs.len() - j,
    {
        let ghost sub = rp.subrange(0, j + 1);
        assert(sub.drop_last() =~= rp.subrange(0, j as int));
        assert(sub.last() == (remote_refs@[j as int].0@, remote_refs@[j as int].1@));
        let ghost cv = command_views(commands@);
        let name = &remote_refs[j].0;
        match lookup_ref(local_refs, name.as_str()) {
            Some(_) => {},
            None => {
                commands.push((remote_refs[j].1.clone(), zero_git_hash(), name.clone()));
                assert(command_views(commands@) =~= cv.push(command_views(commands@).last()));
            },
        }
        j = j + 1;
    }
    assert(rp.subrange(0, j as int) =~= rp);
    Ok((commands, commits))
}

/// The pkt-lines of the commands a push sends: `<old> <new> refs/heads/<name>`,
/// the first of all the lines (where `first`) followed by a NUL.
pub fn send_commands(commands: &Vec<(GitHash, GitHash, String)>, first: bool) -> (r: Result<Vec<String>, ErrorType>)
    ensures
        r is Ok <==> forall|i: int| 0 <= i < commands@.len() ==>
            fits_pkt(command_line(#[trigger] command_views(commands@)[i], first && i == 0)),
        r matches Err(e) ==> e is ProtocolError,
        r matches Ok(v) ==> v@.len() == commands@.len() && forall|i: int| 0 <= i < v@.len() ==>
            #[trigger] v@[i]@ == pkt_text(command_line(command_views(commands@)[i], first && i == 0)),
{
    let mut lines: Vec<String> = Vec::new();
    let mut k: usize = 0;
    while k < commands.len()
        invariant
            k <= commands@.len(),
            lines@.len() == k,
            forall|i: int| 0 <= i < k ==> #[trigger] lines@[i]@ == pkt_text(command_line(command_views(commands@)[i], first && i == 0)),
            forall|i: int| 0 <= i < k ==> fits_pkt(command_line(#[trigger] command_views(commands@)[i], first && i == 0)),
        decreases commands.len() - k,
    {
        let mut line = commands[k].0.to_string();
        push_text(&mut line, " ");
        push_text(&mut line, commands[k].1.to_string().as_str());
        push_text(&mut line, " refs/heads/");
        push_text(&mut line, commands[k].2.as_str());
        if first && k == 0 {
            push_text(&mut line, "\0");
        }
        proof { reveal_strlit("\0"); }
        assert(line@ == command_line(command_views(commands@)[k as int], first && k == 0)) by {
            assert(command_views(commands@)[k as int] == (commands@[k as int].0@, commands@[k as int].1@, commands@[k as int].2@));
        }
        let pkt = match create_pkt_line(line.as_str()) {
            Ok(p) => p,
            Err(e) => return Err(e),
        };
        lines.push(pkt);
        k = k + 1;
    }
    Ok(lines)
}


/// The command that moves the remote's HEAD in a push: `<old> <new> HEAD`
/// followed by a NUL.
pub open spec fn head_command(old: Seq<char>, new: Seq<char>) -> Seq<char> {
    old + " "@ + new + " HEAD\0"@
}

/// The pkt-line that moves the remote's HEAD from `remote_head` to
/// `local_head`; `None` where both are the same commit.
pub fn head_update_line(remote_head: &GitHash, local_head: &GitHash) -> (r: Result<Option<String>, ErrorType>)
    ensures
        remote_head@ == local_head@ ==> r matches Ok(None),
        remote_head@ != local_head@ ==> (r is Ok <==> fits_pkt(head_command(remote_head@, local_head@))),
        r matches Ok(Some(p)) ==> remote_head@ != local_head@
            && p@ == pkt_text(head_command(remote_head@, local_head@)),
        r matches Err(e) ==> e is ProtocolError,
{
    if remote_head.same_as(local_head) {
        return Ok(None);
    }
    let mut line = remote_head.to_string();
    push_text(&mut line, " ");
    push_text(&mut line, local_head.to_string().as_str());
    push_text(&mut line, " HEAD\0");
    assert(line@ == head_command(remote_head@, local_head@));
    match create_pkt_line(line.as_str()) {
        Ok(p) => Ok(Some(p)),
        Err(e) => Err(e),
    }
}

/// The remote references that the local copies lack or hold at another
/// commit, in the remote's order.
pub open spec fn changed_refs(remote: Seq<(Seq<char>, Seq<char>)>, local: Map<Seq<char>, Seq<char>>) -> Seq<(Seq<char>, Seq<char>)>
    decreases remote.len(),
{
    if remote.len() == 0 {
        Seq::empty()
    } else {
        let rest = changed_refs(remote.drop_last(), local);
        let (n, h) = remote.last();
        if local.contains_key(n) && local[n] == h { rest } else { rest.push((n, h)) }
    }
}

/// Which remote references a fetch wants: `None` where the local copies of
/// the remote references are up to date (the same map), else the references
/// that changed.
pub fn fetch_wants(remote_refs: &Vec<(String, GitHash)>, local_refs: &Vec<(String, GitHash)>) -> (r: Option<Vec<(String, GitHash)>>)
    requires
        distinct_refs(remote_refs@),
        distinct_refs(local_refs@),
    ensures
        r is None <==> ref_map(hash_pairs(remote_refs@)) == ref_map(hash_pairs(local_refs@)),
        r matches Some(v) ==> hash_pairs(v@) == changed_refs(hash_pairs(remote_refs@), ref_map(hash_pairs(local_refs@))),
{
    let ghost rp = hash_pairs(remote_refs@);
    let ghost lp = hash_pairs(local_refs@);
    let ghost rm = ref_map(rp);
    let ghost lm = ref_map(lp);
    let mut changed: Vec<(String, GitHash)> = Vec::new();
    let mut k: usize = 0;
    assert(rp.subrange(0, 0) =~= Seq::<(Seq<char>, Seq<char>)>::empty());
    assert(hash_pairs(changed@) =~= Seq::<(Seq<char>, Seq<char>)>::empty());
    while k < remote_refs.len()
        invariant
            k <= remote_refs@.len(),
            rp == hash_pairs(remote_refs@),
            lp == hash_pairs(local_refs@),
            lm == ref_map(lp),
            distinct_refs(local_refs@),
            hash_pairs(changed@) == changed_refs(rp.subrange(0, k as int), lm),
            changed@.len() == 0 ==> forall|i: int| 0 <= i < k ==> #[trigger] lm.contains_key(rp[i].0) && lm[rp[i].0] == rp[i].1,
        decreases remote_refs.len() - k,
    {
        let ghost sub = rp.subrange(0, k + 1);
        assert(sub.drop_last() =~= rp.subrange(0, k as int));
        assert(sub.last() == (remote_refs@[k as int].0@, remote_refs@[k as int].1@));
        let ghost before = hash_pairs(changed@);
        let name = &remote_refs[k].0;
        let hash = &remote_refs[k].1;
        let same = match lookup_ref(local_refs, name.as_str()) {
            Some(h) => h.same_as(hash),
            None => false,
        };
        if !same {
            changed.push((name.clone(), hash.clone()));
            assert(hash_pairs(changed@) =~= before.push((name@, hash@)));
        }
        k = k + 1;
    }
    assert(rp.subrange(0, k as int) =~= rp);
    if changed.len() > 0 {
        proof {
            if rm == lm {
                lemma_changed_empty(rp, lm);
            }
        }
        return Some(changed);
    }
    let mut j: usize = 0;
    while j < local_refs.len()
        invariant
            j <= local_refs@.len(),
            rp == hash_pairs(remote_refs@),
            lp == hash_pairs(local_refs@),
            rm == ref_map(rp),
            lm == ref_map(lp),
            distinct_refs(remote_refs@),
            distinct_refs(local_refs@),
            changed@.len() == 0,
            hash_pairs(changed@) == changed_refs(rp, lm),
            forall|i: int| 0 <= i < rp.len() ==> #[trigger] lm.contains_key(rp[i].0) && lm[rp[i].0] == rp[i].1,
            forall|i: int| 0 <= i < j ==> #[trigger] rm.contains_key(lp[i].0),
        decreases local_refs.len() - j,
    {
        assert(lp[j as int] == (local_refs@[j as int].0@, local_refs@[j as int].1@));
        match lookup_ref(remote_refs, local_refs[j].0.as_str()) {
            Some(_) => {},
            None => {
                proof {
                    lemma_assoc_distinct(lp);
                    assert(lm.contains_key(lp[j as int].0));
                }
                return Some(changed);
            },
        }
        j = j + 1;
    }
    proof {
        lemma_assoc_distinct(rp);
        lemma_assoc_distinct(lp);
        assert forall|key: Seq<char>| rm.contains_key(key) implies lm.contains_key(key) && lm[key] == rm[key] by {
            let i = choose|i: int| 0 <= i < rp.len() && rp[i].0 == key;
            assert(rm.contains_key(rp[i].0) && rm[rp[i].0] == rp[i].1);
            assert(lm.contains_key(rp[i].0) && lm[rp[i].0] == rp[i].1);
        }
        assert forall|key: Seq<char>| lm.contains_key(key) implies rm.contains_key(key) by {
            let i = choose|i: int| 0 <= i < lp.len() && lp[i].0 == key;
            assert(rm.contains_key(lp[i].0));
        }
        assert(rm =~= lm);
    }
    None
}

/// Where the maps are the same, no remote reference changed.
proof fn lemma_changed_empty(remote: Seq<(Seq<char>, Seq<char>)>, local: Map<Seq<char>, Seq<char>>)
    requires
        distinct_keys(remote),
        assoc_map(remote) == local,
    ensures
        changed_refs(remote, local).len() == 0,
{
    lemma_assoc_distinct(remote);
    assert forall|i: int| 0 <= i < remote.len() implies #[trigger] local.contains_key(remote[i].0)
        && local[remote[i].0] == remote[i].1 by {
        assert(assoc_map(remote).contains_key(remote[i].0));
        assert(assoc_map(remote)[remote[i].0] == remote[i].1);
    }
    lemma_changed_empty_rec(remote, local, remote.len());
    assert(remote.subrange(0, remote.len() as int) =~= remote);
}

proof fn lemma_changed_empty_rec(remote: Seq<(Seq<char>, Seq<char>)>, local: Map<Seq<char>, Seq<char>>, n: nat)
    requires
        n <= remote.len(),
        forall|i: int| 0 <= i < remote.len() ==> #[trigger] local.contains_key(remote[i].0) && local[remote[i].0] == remote[i].1,
    ensures
        changed_refs(remote.subrange(0, n as int), local).len() == 0,
    decreases n,
{
    if n > 0 {
        let sub = remote.subrange(0, n as int);
        assert(sub.drop_last() =~= remote.subrange(0, n - 1));
        assert(sub.last() == remote[n - 1]);
        lemma_changed_empty_rec(remote, local, (n - 1) as nat);
    }
}

/// The text of the line that asks for a commit.
pub open spec fn want_text(hash: Seq<char>) -> Seq<char> {
    "want "@ + hash
}

/// The lines a fetch sends: a `want <hash>` pkt-line per wanted reference,
/// a flush line and a `done` pkt-line.
pub fn fetch_request_lines(wants: &Vec<(String, GitHash)>) -> (r: Result<Vec<String>, ErrorType>)
    ensures
        r is Ok <==> forall|i: int| 0 <= i < wants@.len() ==> fits_pkt(#[trigger] want_text(wants@[i].1@)),
        r matches Err(e) ==> e is ProtocolError,
        r matches Ok(v) ==> {
            &&& v@.len() == wants@.len() + 2
            &&& forall|i: int| 0 <= i < wants@.len() ==> #[trigger] v@[i]@ == pkt_text("want "@ + wants@[i].1@)
            &&& v@[wants@.len() as int]@ == "0000"@
            &&& v@[wants@.len() as int + 1]@ == pkt_text("done"@)
        },
{
    let mut lines: Vec<String> = Vec::new();
    let mut k: usize = 0;
    while k < wants.len()
        invariant
            k <= wants@.len(),
            lines@.len() == k,
            forall|i: int| 0 <= i < k ==> #[trigger] lines@[i]@ == pkt_text("want "@ + wants@[i].1@),
            forall|i: int| 0 <= i < k ==> fits_pkt(#[trigger] want_text(wants@[i].1@)),
        decreases wants.len() - k,
    {
        let mut text = String::from_str("want ");
        push_text(&mut text, wants[k].1.to_string().as_str());
        assert(text@ == want_text(wants@[k as int].1@));
        let pkt = match create_pkt_line(text.as_str()) {
            Ok(p) => p,
            Err(e) => {
                assert(!fits_pkt(want_text(wants@[k as int].1@)));
                return Err(e);
            },
        };
        lines.push(pkt);
        k = k + 1;
    }
    lines.push(String::from_str("0000"));
    proof {
        reveal_strlit("done");
        assert(vstd::utf8::is_ascii_chars("done"@));
        vstd::utf8::is_ascii_chars_encode_utf8("done"@);
    }
    let done = match create_pkt_line("done") {
        Ok(p) => p,
        Err(e) => return Err(e),
    };
    lines.push(done);
    Ok(lines)
}

/// Checks the server's answer to a fetch request: it must be `NAK`.
pub fn check_nak(line: Option<String>) -> (r: Result<(), ErrorType>)
    ensures
        match line {
            Some(l) => if l@ == "NAK"@ { r is Ok } else {
                r matches Err(ErrorType::ProtocolError(m)) && m@ == "expected NAK line got "@ + l@
            },
            None => r matches Err(ErrorType::ProtocolError(m)) && m@ == "expected NAK line got flush line (0000)"@,
        },
{
    match line {
        Some(l) => {
            if text_eq(l.as_str(), "NAK") {
                Ok(())
            } else {
                let mut m = String::from_str("expected NAK line got ");
                push_text(&mut m, l.as_str());
                Err(ErrorType::ProtocolError(m))
            }
        },
        None => Err(ErrorType::ProtocolError(String::from_str("expected NAK line got flush line (0000)"))),
    }
}

/// The branch file text a list of branch files (name and text) holds for a
/// name, the first one counting.
pub open spec fn file_of(files: Seq<(String, String)>, name: Seq<char>) -> Option<Seq<char>>
    decreases files.len(),
{
    if files.len() == 0 {
        None
    } else if files[0].0@ == name {
        Some(files[0].1@)
    } else {
        file_of(files.drop_first(), name)
    }
}

/// The text of a branch's file among a list of branch files.
pub fn branch_file<'a>(files: &'a Vec<(String, String)>, name: &str) -> (r: Option<&'a str>)
    ensures
        match r {
            Some(t) => file_of(files@, name@) == Some(t@),
            None => file_of(files@, name@) is None,
        },
{
    let mut k: usize = 0;
    assert(files@.subrange(0, files@.len() as int) =~= files@);
    while k < files.len()
        invariant
            k <= files@.len(),
            file_of(files@, name@) == file_of(files@.subrange(k as int, files@.len() as int), name@),
        decreases files.len() - k,
    {
        assert(files@.subrange(k as int, files@.len() as int)[0] == files@[k as int]);
        if text_eq(files[k].0.as_str(), name) {
            return Some(files[k].1.as_str());
        }
        assert(files@.subrange(k as int, files@.len() as int).drop_first() =~= files@.subrange(k + 1, files@.len() as int));
        k = k + 1;
    }
    None
}

/// Which local references a push sends: the head's branch with no argument,
/// every branch with `--all`, or the named branch; each named once.
pub fn parse_refs_to_push(args: &Vec<String>, head_branch: Option<Branch>, branch_files: &Vec<(String, String)>, path_heads: &str)
    -> (r: Result<Vec<(String, GitHash)>, ErrorType>)
    ensures
        r matches Ok(v) ==> distinct_refs(v@),
        args@.len() == 0 ==> match head_branch {
            None => r matches Err(ErrorType::RepositoryError(m)) && m@ == "can't push if HEAD is not pointing to a valid branch"@,
            Some(b) => r matches Ok(v) && v@.len() == 1 && v@[0].0@ == b.name_view() && v@[0].1@ == b.hash_view(),
        },
        args@.len() == 1 && args@[0]@ != "--all"@ ==> match file_of(branch_files@, args@[0]@) {
            Some(t) => if valid_hash_text(t) {
                r matches Ok(v) && v@.len() == 1 && v@[0].0@ == args@[0]@ && v@[0].1@ == t
            } else {
                r is Err
            },
            None => r matches Err(ErrorType::CommandError(CommandError::InvalidBranch(_))),
        },
        args@.len() == 1 && args@[0]@ == "--all"@ ==> {
            &&& r is Ok <==> forall|i: int| 0 <= i < branch_files@.len() ==> valid_hash_text(#[trigger] branch_files@[i].1@)
            &&& r matches Ok(v) ==> ref_map(hash_pairs(v@)) == ref_map(pair_views(branch_files@))
            &&& r matches Err(e) ==> e is InvalidHash
        },
        args@.len() > 1 ==> (r matches Err(ErrorType::CommandError(CommandError::IncorrectAmount(e, n)))
            && e@ == "1"@ && n == args@.len()),
{
    if args.len() == 0 {
        return match head_branch {
            None => Err(ErrorType::RepositoryError(String::from_str("can't push if HEAD is not pointing to a valid branch"))),
            Some(b) => {
                let mut v: Vec<(String, GitHash)> = Vec::new();
                v.push((b.get_name(), b.get_last_commit_hash()));
                Ok(v)
            },
        };
    }
    if args.len() > 1 {
        return Err(ErrorType::CommandError(CommandError::IncorrectAmount(String::from_str("1"), args.len())));
    }
    let name = args[0].as_str();
    if text_eq(name, "--all") {
        let list = match Branch::list_branches(branch_files) {
            Ok(l) => l,
            Err(e) => return Err(e),
        };
        let mut v: Vec<(String, GitHash)> = Vec::new();
        let mut k: usize = 0;
        let ghost fp = pair_views(branch_files@);
        assert(hash_pairs(v@) =~= Seq::<(Seq<char>, Seq<char>)>::empty());
        assert(fp.subrange(0, 0) =~= Seq::<(Seq<char>, Seq<char>)>::empty());
        while k < list.len()
            invariant
                k <= list@.len(),
                list@.len() == branch_files@.len(),
                fp == pair_views(branch_files@),
                forall|i: int| 0 <= i < list@.len() ==> #[trigger] list@[i].0@ == branch_files@[i].0@
                    && list@[i].1@ == branch_files@[i].1@,
                distinct_refs(v@),
                ref_map(hash_pairs(v@)) == ref_map(fp.subrange(0, k as int)),
            decreases list.len() - k,
        {
            assert(list@[k as int].0@ == branch_files@[k as int].0@);
            proof {
                assert(fp.subrange(0, k + 1).drop_last() =~= fp.subrange(0, k as int));
                assert(fp.subrange(0, k + 1).last() == fp[k as int]);
            }
            put_ref(&mut v, list[k].0.clone(), list[k].1.clone());
            k = k + 1;
        }
        assert(fp.subrange(0, fp.len() as int) =~= fp);
        return Ok(v);
    }
    let branch = match Branch::open(path_heads, name, branch_file(branch_files, name)) {
        Ok(b) => b,
        Err(e) => return Err(e),
    };
    let mut v: Vec<(String, GitHash)> = Vec::new();
    v.push((String::from_str(name), branch.get_last_commit_hash()));
    Ok(v)
}

/// Whether a name is among a list of names.
fn has_name(names: &Vec<String>, name: &str) -> (r: bool)
    ensures
        r == texts(names@).contains(name@),
{
    let mut k: usize = 0;
    while k < names.len()
        invariant
            k <= names@.len(),
            forall|i: int| 0 <= i < k ==> names@[i]@ != name@,
        decreases names.len() - k,
    {
        if text_eq(names[k].as_str(), name) {
            assert(texts(names@)[k as int] == name@);
            return true;
        }
        k = k + 1;
    }
    proof {
        if texts(names@).contains(name@) {
            let i = choose|i: int| 0 <= i < texts(names@).len() && texts(names@)[i] == name@;
            assert(names@[i]@ == name@);
        }
    }
    false
}

/// The remote branch a pull merges: the local branch's upstream with no
/// argument, else the named one; it must be among the remote branches.
pub fn parse_pull_branch_name(args: &Vec<String>, local_branch_name: &str, remote: &Remote, remote_branches: &Vec<String>)
    -> (r: Result<String, ErrorType>)
    ensures
        args@.len() == 0 ==> match remote.branches_view().contains_key(local_branch_name@) {
            false => r matches Err(ErrorType::ConfigError(m))
                && m@ == "current branch '"@ + local_branch_name@ + "' doesn't have an upstream branch"@,
            true => {
                let up = remote.branches_view()[local_branch_name@].1;
                if texts(remote_branches@).contains(up) {
                    r matches Ok(n) && n@ == up
                } else {
                    r matches Err(ErrorType::RepositoryError(m)) && m@ == "the current branch '"@ + local_branch_name@
                        + "' has an upstream which does not exist: '"@ + up + "'"@
                }
            },
        },
        args@.len() > 1 ==> (r matches Err(ErrorType::CommandError(CommandError::IncorrectAmount(e, n)))
            && e@ == "1"@ && n == args@.len()),
        args@.len() == 1 ==> if texts(remote_branches@).contains(args@[0]@) {
            r matches Ok(n) && n@ == args@[0]@
        } else {
            r matches Err(ErrorType::CommandError(CommandError::InvalidArgument(m))) && m@ == "the given remote branch name '"@
                + args@[0]@ + "' does not exist as a valid remote ref"@
        },
{
    if args.len() == 0 {
        let (_, remote_branch_name) = match remote.get_upstream(local_branch_name) {
            Some(u) => u,
            None => {
                let mut m = String::from_str("current branch '");
                push_text(&mut m, local_branch_name);
                push_text(&mut m, "' doesn't have an upstream branch");
                return Err(ErrorType::ConfigError(m));
            },
        };
        if !has_name(remote_branches, remote_branch_name.as_str()) {
            let mut m = String::from_str("the current branch '");
            push_text(&mut m, local_branch_name);
            push_text(&mut m, "' has an upstream which does not exist: '");
            push_text(&mut m, remote_branch_name.as_str());
            push_text(&mut m, "'");
            return Err(ErrorType::RepositoryError(m));
        }
        return Ok(remote_branch_name);
    }
    if args.len() != 1 {
        return Err(ErrorType::CommandError(CommandError::IncorrectAmount(String::from_str("1"), args.len())));
    }
    let name = args[0].clone();
    if !has_name(remote_branches, name.as_str()) {
        let mut m = String::from_str("the given remote branch name '");
        push_text(&mut m, name.as_str());
        push_text(&mut m, "' does not exist as a valid remote ref");
        return Err(ErrorType::CommandError(CommandError::InvalidArgument(m)));
    }
    Ok(name)
}

/// Where a pull lands when the head points to no branch: a local branch
/// named and placed like the remote branch given as the only argument.
pub fn pull_new_branch(args: &Vec<String>, remote_file: Option<&str>, path_remotes: &str, path_heads: &str) -> (r: Result<Branch, ErrorType>)
    ensures
        args@.len() != 1 ==> (r matches Err(ErrorType::RepositoryError(m)) && m@ ==
            "you must provide a remote branch name to pull from because HEAD isn't pointing to any branch"@),
        args@.len() == 1 ==> match remote_file {
            Some(t) => if valid_hash_text(t@) {
                r matches Ok(b) && b.name_view() == args@[0]@ && b.hash_view() == t@ && b.dir_view() == path_heads@
            } else {
                r is Err
            },
            None => r matches Err(ErrorType::CommandError(CommandError::InvalidBranch(_))),
        },
{
    if args.len() != 1 {
        return Err(ErrorType::RepositoryError(String::from_str(
            "you must provide a remote branch name to pull from because HEAD isn't pointing to any branch")));
    }
    let remote_branch = match Branch::open(path_remotes, args[0].as_str(), remote_file) {
        Ok(b) => b,
        Err(e) => return Err(e),
    };
    Ok(Branch::new(args[0].as_str(), path_heads, remote_branch.get_last_commit_hash()))
}

/// What a pull reports after merging: the conflicting files, or how the
/// merge went.
pub fn pull_report(modified_files: &Vec<(String, Blob)>, conflict_files: &Vec<(String, Blob)>) -> (r: String)
    ensures
        conflict_files@.len() > 0 ==> r@ == "Your local changes conflict with remote changes in the following files :"@
            + join_with(blob_paths(blob_pairs(conflict_files@)), ", "@) + "\nReview them and commit the merge manually.\n"@,
        conflict_files@.len() == 0 && modified_files@.len() == 0 ==> r@ == "Pull completed succesfully with fast-forward merge\n"@,
        conflict_files@.len() == 0 && modified_files@.len() > 0 ==> r@ ==
            "Your branch and the remote branch have diverged.\nPull completed succesfully with three-way merge\n"@,
{
    if conflict_files.len() > 0 {
        let mut names: Vec<String> = Vec::new();
        let mut k: usize = 0;
        while k < conflict_files.len()
            invariant
                k <= conflict_files@.len(),
                texts(names@) == blob_paths(blob_pairs(conflict_files@)).subrange(0, k as int),
            decreases conflict_files.len() - k,
        {
            let ghost before = names@;
            let ghost bp = blob_paths(blob_pairs(conflict_files@));
            names.push(conflict_files[k].0.clone());
            proof {
                assert(bp[k as int] == conflict_files@[k as int].0@);
                assert(texts(names@) =~= texts(before).push(conflict_files@[k as int].0@));
                assert(bp.subrange(0, k + 1) =~= bp.subrange(0, k as int).push(bp[k as int]));
            }
            k = k + 1;
        }
        assert(blob_paths(blob_pairs(conflict_files@)).subrange(0, k as int) =~= blob_paths(blob_pairs(conflict_files@)));
        let mut r = String::from_str("Your local changes conflict with remote changes in the following files :");
        push_text(&mut r, join_strings(&names, ", ").as_str());
        push_text(&mut r, "\nReview them and commit the merge manually.\n");
        return r;
    }
    if modified_files.len() == 0 {
        String::from_str("Pull completed succesfully with fast-forward merge\n")
    } else {
        String::from_str("Your branch and the remote branch have diverged.\nPull completed succesfully with three-way merge\n")
    }
}


/// The last of the references that points to `hash`, if any.
pub open spec fn last_ref_at(refs: Seq<(Seq<char>, Seq<char>)>, hash: Seq<char>) -> Option<Seq<char>>
    decreases refs.len(),
{
    if refs.len() == 0 {
        None
    } else if refs.last().1 == hash {
        Some(refs.last().0)
    } else {
        last_ref_at(refs.drop_last(), hash)
    }
}

/// Sets up the local branches of a cloned repository: a local branch for
/// each remote reference, tracking it on the default remote, and the
/// branch the head is to point to: the last one at the remote head's commit,
/// else `master`. The branch files are to be written afterwards.
pub fn clone_branches(remote_head: &str, remote_refs: &Vec<(String, GitHash)>, path_heads: &str, remote: &mut Remote)
    -> (r: Result<(Vec<Branch>, Branch), ErrorType>)
    ensures
        !valid_hash_text(remote_head@) ==> r matches Err(ErrorType::InvalidHash(_)),
        r matches Ok((bs, head)) ==> {
            &&& bs@.len() == remote_refs@.len()
            &&& forall|i: int| 0 <= i < bs@.len() ==> #[trigger] bs@[i].name_view() == remote_refs@[i].0@
                && bs@[i].hash_view() == remote_refs@[i].1@ && bs@[i].dir_view() == path_heads@
            &&& head.dir_view() == path_heads@
            &&& match last_ref_at(hash_pairs(remote_refs@), remote_head@) {
                    Some(n) => head.name_view() == n && head.hash_view() == remote_head@,
                    None => head.name_view() == "master"@
                        && head.hash_view() == ref_map(hash_pairs(remote_refs@))["master"@],
                }
        },
        valid_hash_text(remote_head@) && (last_ref_at(hash_pairs(remote_refs@), remote_head@) is Some
            || ref_map(hash_pairs(remote_refs@)).contains_key("master"@)) ==> r is Ok,
        valid_hash_text(remote_head@) && last_ref_at(hash_pairs(remote_refs@), remote_head@) is None
            && !ref_map(hash_pairs(remote_refs@)).contains_key("master"@) ==> (r matches Err(ErrorType::ProtocolError(m))
            && m@ == "couldn't clone because the remote HEAD commit ("@ + remote_head@
                + ") doesn't match with a valid remote branch and remote doesn't have a default 'master' branch"@),
        valid_hash_text(remote_head@) ==> forall|k: Seq<char>| #[trigger] final(remote).branches_view().contains_key(k) <==>
            (old(remote).branches_view().contains_key(k) || ref_map(hash_pairs(remote_refs@)).contains_key(k)),
        !valid_hash_text(remote_head@) ==> final(remote).branches_view() == old(remote).branches_view(),
        final(remote).remotes_view() == old(remote).remotes_view(),
{
    let head_hash = match GitHash::new(remote_head) {
        Ok(h) => h,
        Err(e) => return Err(e),
    };
    let ghost rp = hash_pairs(remote_refs@);
    let mut branches: Vec<Branch> = Vec::new();
    let mut head: Option<Branch> = None;
    let mut master: Option<GitHash> = None;
    let mut k: usize = 0;
    assert(rp.subrange(0, 0) =~= Seq::<(Seq<char>, Seq<char>)>::empty());
    while k < remote_refs.len()
        invariant
            k <= remote_refs@.len(),
            rp == hash_pairs(remote_refs@),
            head_hash@ == remote_head@,
            branches@.len() == k,
            forall|i: int| 0 <= i < k ==> #[trigger] branches@[i].name_view() == remote_refs@[i].0@
                && branches@[i].hash_view() == remote_refs@[i].1@ && branches@[i].dir_view() == path_heads@,
            match last_ref_at(rp.subrange(0, k as int), remote_head@) {
                Some(n) => head matches Some(b) && b.name_view() == n && b.hash_view() == remote_head@ && b.dir_view() == path_heads@,
                None => head is None,
            },
            match master {
                Some(h) => ref_map(rp.subrange(0, k as int)).contains_key("master"@) && h@ == ref_map(rp.subrange(0, k as int))["master"@],
                None => !ref_map(rp.subrange(0, k as int)).contains_key("master"@),
            },
            forall|key: Seq<char>| #[trigger] remote.branches_view().contains_key(key) <==>
                (old(remote).branches_view().contains_key(key) || ref_map(rp.subrange(0, k as int)).contains_key(key)),
            remote.remotes_view() == old(remote).remotes_view(),
        decreases remote_refs.len() - k,
    {
        let ghost sub = rp.subrange(0, k + 1);
        assert(sub.drop_last() =~= rp.subrange(0, k as int));
        assert(sub.last() == (remote_refs@[k as int].0@, remote_refs@[k as int].1@));
        let name = &remote_refs[k].0;
        let hash = &remote_refs[k].1;
        let branch = Branch::new(name.as_str(), path_heads, hash.clone());
        if hash.same_as(&head_hash) {
            head = Some(branch.clone());
        }
        if text_eq(name.as_str(), "master") {
            master = Some(hash.clone());
        }
        branches.push(branch);
        remote.set_upstream(name.clone(), String::from_str("origin"), name.clone());
        k = k + 1;
    }
    assert(rp.subrange(0, k as int) =~= rp);
    let head = match head {
        Some(b) => b,
        None => match master {
            Some(h) => Branch::new("master", path_heads, h),
            None => {
                let mut m = String::from_str("couldn't clone because the remote HEAD commit (");
                push_text(&mut m, remote_head);
                push_text(&mut m, ") doesn't match with a valid remote branch and remote doesn't have a default 'master' branch");
                return Err(ErrorType::ProtocolError(m));
            },
        },
    };
    Ok((branches, head))
}


/// The hashes of a list of objects to send.
pub open spec fn object_hashes(v: Seq<(ObjectType, GitHash, Vec<u8>)>) -> Seq<Seq<char>> {
    v.map_values(|o: (ObjectType, GitHash, Vec<u8>)| o.1@)
}

/// Whether a hash is among a list of hashes.
fn has_hash(v: &Vec<GitHash>, h: &GitHash) -> (r: bool)
    ensures
        r == hash_views(v@).contains(h@),
{
    let mut k: usize = 0;
    while k < v.len()
        invariant
            k <= v@.len(),
            forall|i: int| 0 <= i < k ==> v@[i]@ != h@,
        decreases v.len() - k,
    {
        if v[k].same_as(h) {
            assert(hash_views(v@)[k as int] == h@);
            return true;
        }
        k = k + 1;
    }
    proof {
        if hash_views(v@).contains(h@) {
            let i = choose|i: int| 0 <= i < hash_views(v@).len() && hash_views(v@)[i] == h@;
            assert(v@[i]@ == h@);
        }
    }
    false
}

/// The invariant of the objects gathered for a push: every tree and blob is
/// one the remote did not have and comes once, and a tree's hash is that of
/// its content.
pub open spec fn fresh_objects(objs: Seq<(ObjectType, GitHash, Vec<u8>)>, remote: Seq<Seq<char>>, seen: Seq<Seq<char>>) -> bool {
    &&& forall|h: Seq<char>| remote.contains(h) ==> #[trigger] seen.contains(h)
    &&& forall|i: int| #![trigger objs[i]] 0 <= i < objs.len() && objs[i].0 != ObjectType::Commit ==>
            seen.contains(objs[i].1@) && !remote.contains(objs[i].1@)
    &&& forall|i: int, j: int| #![trigger objs[i], objs[j]] 0 <= i < j < objs.len() && objs[i].0 != ObjectType::Commit
            && objs[j].0 != ObjectType::Commit ==> objs[i].1@ != objs[j].1@
    &&& forall|i: int| #![trigger objs[i]] 0 <= i < objs.len() && objs[i].0 == ObjectType::Tree ==>
            objs[i].1@ == object_hash(objs[i].2@, ObjectType::Tree)
}

/// What holds of the objects a push sends: no tree or blob is one the
/// remote has, none comes twice, and a tree's hash is that of its content.
pub open spec fn fresh_sent(objs: Seq<(ObjectType, GitHash, Vec<u8>)>, remote: Seq<Seq<char>>) -> bool {
    &&& forall|i: int| #![trigger objs[i]] 0 <= i < objs.len() && objs[i].0 != ObjectType::Commit ==>
            !remote.contains(objs[i].1@)
    &&& forall|i: int, j: int| #![trigger objs[i], objs[j]] 0 <= i < j < objs.len() && objs[i].0 != ObjectType::Commit
            && objs[j].0 != ObjectType::Commit ==> objs[i].1@ != objs[j].1@
    &&& forall|i: int| #![trigger objs[i]] 0 <= i < objs.len() && objs[i].0 == ObjectType::Tree ==>
            objs[i].1@ == object_hash(objs[i].2@, ObjectType::Tree)
}

/// Seeing one more hash keeps the invariant.
proof fn lemma_fresh_seen(objs: Seq<(ObjectType, GitHash, Vec<u8>)>, remote: Seq<Seq<char>>, seen: Seq<Seq<char>>, h: Seq<char>)
    requires
        fresh_objects(objs, remote, seen),
    ensures
        fresh_objects(objs, remote, seen.push(h)),
{
    let s2 = seen.push(h);
    assert forall|x: Seq<char>| seen.contains(x) implies #[trigger] s2.contains(x) by {
        let k = choose|k: int| 0 <= k < seen.len() && seen[k] == x;
        assert(s2[k] == x);
    }
    assert forall|i: int| 0 <= i < objs.len() && objs[i].0 != ObjectType::Commit implies
        #[trigger] s2.contains(objs[i].1@) && !remote.contains(objs[i].1@) by {
        assert(seen.contains(objs[i].1@));
    }
    assert forall|x: Seq<char>| remote.contains(x) implies #[trigger] s2.contains(x) by {
        assert(seen.contains(x));
    }
}

/// Adding a commit keeps the invariant.
proof fn lemma_fresh_commit(objs: Seq<(ObjectType, GitHash, Vec<u8>)>, remote: Seq<Seq<char>>, seen: Seq<Seq<char>>,
    o: (ObjectType, GitHash, Vec<u8>))
    requires
        fresh_objects(objs, remote, seen),
        o.0 == ObjectType::Commit,
    ensures
        fresh_objects(objs.push(o), remote, seen),
{
    let n = objs.push(o);
    assert forall|i: int| 0 <= i < n.len() && n[i].0 != ObjectType::Commit implies
        #[trigger] seen.contains(n[i].1@) && !remote.contains(n[i].1@) by {
        assert(n[i] == objs[i]);
    }
    assert forall|i: int, j: int| 0 <= i < j < n.len() && n[i].0 != ObjectType::Commit && n[j].0 != ObjectType::Commit
        implies #[trigger] n[i].1@ != #[trigger] n[j].1@ by {
        assert(n[i] == objs[i] && n[j] == objs[j]);
    }
    assert forall|i: int| 0 <= i < n.len() && n[i].0 == ObjectType::Tree implies
        #[trigger] n[i].1@ == object_hash(n[i].2@, ObjectType::Tree) by {
        assert(n[i] == objs[i]);
    }
}

/// Adds an object that is not among those seen.
proof fn lemma_fresh_push(objs: Seq<(ObjectType, GitHash, Vec<u8>)>, remote: Seq<Seq<char>>, seen: Seq<Seq<char>>,
    o: (ObjectType, GitHash, Vec<u8>))
    requires
        fresh_objects(objs, remote, seen),
        o.0 != ObjectType::Commit,
        !seen.contains(o.1@),
        o.0 == ObjectType::Tree ==> o.1@ == object_hash(o.2@, ObjectType::Tree),
    ensures
        fresh_objects(objs.push(o), remote, seen.push(o.1@)),
{
    let n = objs.push(o);
    let s2 = seen.push(o.1@);
    assert forall|h: Seq<char>| remote.contains(h) implies #[trigger] s2.contains(h) by {
        assert(seen.contains(h));
        let k = choose|k: int| 0 <= k < seen.len() && seen[k] == h;
        assert(s2[k] == h);
    }
    assert forall|i: int| 0 <= i < n.len() && n[i].0 != ObjectType::Commit implies
        #[trigger] s2.contains(n[i].1@) && !remote.contains(n[i].1@) by {
        if i < objs.len() {
            assert(n[i] == objs[i]);
            assert(seen.contains(objs[i].1@) && !remote.contains(objs[i].1@));
            let k = choose|k: int| 0 <= k < seen.len() && seen[k] == objs[i].1@;
            assert(s2[k] == objs[i].1@);
        } else {
            assert(s2[seen.len() as int] == o.1@);
            if remote.contains(o.1@) {
                assert(seen.contains(o.1@));
            }
        }
    }
    assert forall|i: int, j: int| 0 <= i < j < n.len() && n[i].0 != ObjectType::Commit && n[j].0 != ObjectType::Commit
        implies #[trigger] n[i].1@ != #[trigger] n[j].1@ by {
        if j < objs.len() {
            assert(n[i] == objs[i] && n[j] == objs[j]);
        } else {
            assert(n[i] == objs[i]);
            assert(seen.contains(objs[i].1@));
        }
    }
    assert forall|i: int| 0 <= i < n.len() && n[i].0 == ObjectType::Tree implies
        #[trigger] n[i].1@ == object_hash(n[i].2@, ObjectType::Tree) by {
        if i < objs.len() {
            assert(n[i] == objs[i]);
        }
    }
}

/// Whether the store can give what a push sends for commits with these
/// hashes: each commit, its history, and the blob of every file of every
/// commit of that history.
pub open spec fn pack_ready(store: Map<Seq<char>, Seq<u8>>, hashes: Seq<Seq<char>>) -> bool {
    forall|k: int| 0 <= k < hashes.len() ==> #[trigger] commit_pack_ready(store, hashes[k])
}

/// Whether the store can give what a push sends for one commit.
pub open spec fn commit_pack_ready(store: Map<Seq<char>, Seq<u8>>, hash: Seq<char>) -> bool {
    &&& commit_ok(store, hash)
    &&& stored_rec_history(store, hash) is Some
    &&& forall|i: int| 0 <= i < stored_rec_history(store, hash)->0.len() ==>
        #[trigger] files_readable(store, stored_rec_history(store, hash)->0[i].0)
}

/// Whether the store holds a readable blob for every file of the commit
/// stored under a hash.
pub open spec fn files_readable(store: Map<Seq<char>, Seq<u8>>, hash: Seq<char>) -> bool {
    forall|f: int| 0 <= f < stored_commit_files(store, hash).len() ==>
        blob_readable(store, #[trigger] stored_commit_files(store, hash)[f].1)
}

/// The objects gathered so far, by type, hash and content.
pub open spec fn pack_views(objs: Seq<(ObjectType, GitHash, Vec<u8>)>) -> Seq<(ObjectType, Seq<char>, Seq<u8>)> {
    objs.map_values(|o: (ObjectType, GitHash, Vec<u8>)| (o.0, o.1@, o.2@))
}

/// Gathering the blobs of some files: each blob not seen yet is added, with
/// the content stored under its hash, and becomes seen.
pub open spec fn blob_steps(store: Map<Seq<char>, Seq<u8>>, objs: Seq<(ObjectType, Seq<char>, Seq<u8>)>,
    seen: Seq<Seq<char>>, files: Seq<(Seq<char>, Seq<char>)>) -> (Seq<(ObjectType, Seq<char>, Seq<u8>)>, Seq<Seq<char>>)
    decreases files.len(),
{
    if files.len() == 0 {
        (objs, seen)
    } else {
        let (o, sn) = blob_steps(store, objs, seen, files.drop_last());
        let b = files.last().1;
        if sn.contains(b) {
            (o, sn)
        } else {
            (o.push((ObjectType::Blob, b, (object_parts(store, b)->0).2)), sn.push(b))
        }
    }
}

/// Gathering for one commit of a history: the commit itself always; then,
/// where its tree is not seen yet, the tree and the blobs of its files.
pub open spec fn commit_step(store: Map<Seq<char>, Seq<u8>>, objs: Seq<(ObjectType, Seq<char>, Seq<u8>)>,
    seen: Seq<Seq<char>>, c: Commit) -> (Seq<(ObjectType, Seq<char>, Seq<u8>)>, Seq<Seq<char>>)
{
    let seen1 = if seen.contains(c.hash_view()) { seen } else { seen.push(c.hash_view()) };
    let objs1 = objs.push((ObjectType::Commit, c.hash_view(), encode_utf8(c.content_view()->0)));
    let tc = entries_content(c.tree_view().entries_view())->0;
    let t = object_hash(tc, ObjectType::Tree);
    if seen1.contains(t) {
        (objs1, seen1)
    } else {
        blob_steps(store, objs1.push((ObjectType::Tree, t, tc)), seen1.push(t), files_of(c))
    }
}

/// Gathering over a list of commits, starting with the remote's hashes as
/// seen: the objects gathered and the hashes seen.
pub open spec fn pack_walk(store: Map<Seq<char>, Seq<u8>>, cs: Seq<Commit>, remote: Seq<Seq<char>>)
    -> (Seq<(ObjectType, Seq<char>, Seq<u8>)>, Seq<Seq<char>>)
    decreases cs.len(),
{
    if cs.len() == 0 {
        (Seq::empty(), remote)
    } else {
        let (o, sn) = pack_walk(store, cs.drop_last(), remote);
        commit_step(store, o, sn, cs.last())
    }
}

/// The hashes of the histories of the commits stored under these hashes,
/// one history after another.
pub open spec fn history_hashes(store: Map<Seq<char>, Seq<u8>>, hs: Seq<Seq<char>>) -> Seq<Seq<char>>
    decreases hs.len(),
{
    if hs.len() == 0 {
        Seq::empty()
    } else {
        history_hashes(store, hs.drop_last()) + match stored_rec_history(store, hs.last()) {
            Some(h) => stamp_hashes(h),
            None => Seq::empty(),
        }
    }
}

/// Whether commits are those of the histories of the commits stored under
/// these hashes, as read from the store: the same hashes in the same order,
/// each with the files stored under its hash and an object text.
pub open spec fn walked(store: Map<Seq<char>, Seq<u8>>, cs: Seq<Commit>, hs: Seq<Seq<char>>) -> bool {
    &&& stamp_hashes(stamps(cs)) == history_hashes(store, hs)
    &&& forall|i: int| 0 <= i < cs.len() ==> files_of(#[trigger] cs[i]) == stored_commit_files(store, cs[i].hash_view())
        && cs[i].content_view() is Some
}

/// The objects a push sends for the commits it updates: each commit of
/// their histories, and each tree and blob they reach that the remote has
/// not got (the given hashes) and that was not gathered before. Every tree
/// and blob comes once, none the remote has, and a tree's hash is that of
/// its content. The commits are those read from the store: their hashes
/// and files are the stored ones, and each is sent with its object text.
pub fn get_packfile_objects(commits_to_update: Vec<GitHash>, repeated_hashes_remote: Vec<GitHash>, store: &ObjectStore)
    -> (r: Result<Vec<(ObjectType, GitHash, Vec<u8>)>, ErrorType>)
    ensures
        r matches Ok(objs) ==> fresh_sent(objs@, hash_views(repeated_hashes_remote@)),
        r matches Ok(objs) ==> exists|cs: Seq<Commit>| #[trigger] walked(store@, cs, hash_views(commits_to_update@))
            && pack_views(objs@) == pack_walk(store@, cs, hash_views(repeated_hashes_remote@)).0,
        pack_ready(store@, hash_views(commits_to_update@)) ==> r is Ok,
{
    let ghost remote = hash_views(repeated_hashes_remote@);
    let ghost hs = hash_views(commits_to_update@);
    let ghost ready = pack_ready(store@, hash_views(commits_to_update@));
    let mut seen = repeated_hashes_remote;
    assert forall|h: Seq<char>| remote.contains(h) implies #[trigger] hash_views(seen@).contains(h) by {}
    let mut objects: Vec<(ObjectType, GitHash, Vec<u8>)> = Vec::new();
    assert(fresh_objects(objects@, remote, hash_views(seen@)));
    let ghost mut cs: Seq<Commit> = Seq::empty();
    assert(pack_views(objects@) =~= Seq::<(ObjectType, Seq<char>, Seq<u8>)>::empty());
    assert(stamp_hashes(stamps(cs)) =~= history_hashes(store@, hs.subrange(0, 0)));
    let mut k: usize = 0;
    while k < commits_to_update.len()
        invariant
            k <= commits_to_update@.len(),
            remote == hash_views(repeated_hashes_remote@),
            hs == hash_views(commits_to_update@),
            fresh_objects(objects@, remote, hash_views(seen@)),
            ready == pack_ready(store@, hash_views(commits_to_update@)),
            stamp_hashes(stamps(cs)) == history_hashes(store@, hs.subrange(0, k as int)),
            forall|i: int| 0 <= i < cs.len() ==> files_of(#[trigger] cs[i]) == stored_commit_files(store@, cs[i].hash_view())
                && cs[i].content_view() is Some,
            (pack_views(objects@), hash_views(seen@)) == pack_walk(store@, cs, remote),
        decreases commits_to_update.len() - k,
    {
        proof {
            if ready {
                assert(hash_views(commits_to_update@)[k as int] == commits_to_update@[k as int]@);
                assert(commit_pack_ready(store@, commits_to_update@[k as int]@));
            }
        }
        let commit = match GitObject::read_commit(&commits_to_update[k], store) {
            Ok(c) => c,
            Err(e) => return Err(e),
        };
        let history = match commit.get_commits_history_rec(store) {
            Ok(h) => h,
            Err(e) => return Err(e),
        };
        let ghost hk = commits_to_update@[k as int]@;
        let ghost cs0 = cs;
        proof {
            assert(hs[k as int] == hk);
            assert(stored_rec_history(store@, hk) == Some(stamps(history@)));
            assert(hs.subrange(0, k + 1).drop_last() =~= hs.subrange(0, k as int));
            assert(history_hashes(store@, hs.subrange(0, k + 1))
                == history_hashes(store@, hs.subrange(0, k as int)) + stamp_hashes(stamps(history@)));
            assert(cs0 + history@.subrange(0, 0) =~= cs0);
        }
        let mut j: usize = 0;
        while j < history.len()
            invariant
                j <= history@.len(),
                remote == hash_views(repeated_hashes_remote@),
                fresh_objects(objects@, remote, hash_views(seen@)),
                ready ==> commit_pack_ready(store@, hk),
                ready == pack_ready(store@, hash_views(commits_to_update@)),
                stored_rec_history(store@, hk) == Some(stamps(history@)),
                forall|i: int| 0 <= i < history@.len() ==> #[trigger] files_known(store@, history@[i], commit),
                files_stored(store@, commit),
                forall|i: int| 0 <= i < history@.len() ==> (#[trigger] history@[i]).content_view() is Some,
                cs == cs0 + history@.subrange(0, j as int),
                forall|i: int| 0 <= i < cs.len() ==> files_of(#[trigger] cs[i]) == stored_commit_files(store@, cs[i].hash_view())
                    && cs[i].content_view() is Some,
                (pack_views(objects@), hash_views(seen@)) == pack_walk(store@, cs, remote),
            decreases history.len() - j,
        {
            let c = &history[j];
            proof {
                assert(files_known(store@, history@[j as int], commit));
                assert(files_of(*c) == stored_commit_files(store@, c.hash_view()));
                if ready {
                    assert(stamps(history@)[j as int].0 == c.hash_view());
                    assert(files_readable(store@, stored_rec_history(store@, hk)->0[j as int].0));
                }
            }
            let ghost st0 = pack_walk(store@, cs, remote);
            let ghost cs_next = cs.push(*c);
            proof {
                assert(cs_next.drop_last() =~= cs);
                assert(cs_next.last() == *c);
                assert(pack_walk(store@, cs_next, remote) == commit_step(store@, st0.0, st0.1, *c));
            }
            let ch = c.get_hash();
            if !has_hash(&seen, &ch) {
                let ghost s0 = hash_views(seen@);
                seen.push(ch.clone());
                proof {
                    assert(hash_views(seen@) =~= s0.push(ch@));
                    lemma_fresh_seen(objects@, remote, s0, ch@);
                }
            }
            let ghost seen1 = hash_views(seen@);
            assert(seen1 == (if st0.1.contains(c.hash_view()) { st0.1 } else { st0.1.push(c.hash_view()) }));
            let content = match c.get_content() {
                Ok(b) => b,
                Err(e) => return Err(e),
            };
            let ghost oc = (ObjectType::Commit, ch, content);
            proof { lemma_fresh_commit(objects@, remote, hash_views(seen@), oc); }
            let ghost pv0 = pack_views(objects@);
            objects.push((ObjectType::Commit, ch, content));
            assert(objects@.last() == oc);
            assert(pack_views(objects@) =~= pv0.push((ObjectType::Commit, c.hash_view(), encode_utf8(c.content_view()->0))));
            let tree = c.get_tree();
            let tree_hash = match tree.get_hash() {
                Ok(h) => h,
                Err(e) => return Err(e),
            };
            if has_hash(&seen, &tree_hash) {
                proof {
                    cs = cs_next;
                    assert(cs0 + history@.subrange(0, j + 1) =~= cs_next);
                }
                j = j + 1;
                continue;
            }
            let tree_content = match tree.generate_content() {
                Ok(t) => t,
                Err(e) => return Err(e),
            };
            proof {
                lemma_fresh_push(objects@, remote, hash_views(seen@), (ObjectType::Tree, tree_hash, tree_content));
            }
            let ghost s1 = hash_views(seen@);
            seen.push(tree_hash.clone());
            assert(hash_views(seen@) =~= s1.push(tree_hash@));
            let ghost pv1 = pack_views(objects@);
            objects.push((ObjectType::Tree, tree_hash, tree_content));
            assert(pack_views(objects@) =~= pv1.push((ObjectType::Tree, tree_hash@, tree_content@)));
            let ghost objs_t = pack_views(objects@);
            let ghost seen_t = hash_views(seen@);
            let files = tree.get_files_vec();
            let ghost listing = entries_files(tree.entries_view(), Seq::empty());
            proof {
                if ready {
                    assert forall|q: int| 0 <= q < listing.len() implies blob_readable(store@, #[trigger] listing[q].1) by {
                        assert(listing[q] == stored_commit_files(store@, c.hash_view())[q]);
                    }
                }
                assert(listing.subrange(0, 0) =~= Seq::<(Seq<char>, Seq<char>)>::empty());
            }
            let mut f: usize = 0;
            while f < files.len()
                invariant
                    f <= files@.len(),
                    fresh_objects(objects@, remote, hash_views(seen@)),
                    files@.map_values(|p: (String, GitHash)| (p.0@, p.1@)) == listing,
                    ready ==> forall|q: int| 0 <= q < listing.len() ==> blob_readable(store@, #[trigger] listing[q].1),
                    ready == pack_ready(store@, hash_views(commits_to_update@)),
                    (pack_views(objects@), hash_views(seen@)) == blob_steps(store@, objs_t, seen_t, listing.subrange(0, f as int)),
                decreases files.len() - f,
            {
                let blob_hash = &files[f].1;
                assert(listing[f as int].1 == blob_hash@);
                proof {
                    if ready { assert(blob_readable(store@, listing[f as int].1)); }
                    assert(listing.subrange(0, f + 1).drop_last() =~= listing.subrange(0, f as int));
                    assert(listing.subrange(0, f + 1).last() == listing[f as int]);
                }
                if !has_hash(&seen, blob_hash) {
                    let blob = match GitObject::read_blob(blob_hash, store) {
                        Ok(b) => b,
                        Err(e) => return Err(e),
                    };
                    let bytes = crate::text::text_bytes(blob.get_content().as_str());
                    proof {
                        let c2 = (object_parts(store@, blob_hash@)->0).2;
                        vstd::utf8::decode_utf8_encode_utf8(c2);
                        assert(bytes@ == c2);
                    }
                    let bh = blob_hash.clone();
                    let ghost o = (ObjectType::Blob, bh, bytes);
                    proof {
                        lemma_fresh_push(objects@, remote, hash_views(seen@), o);
                    }
                    let ghost s2 = hash_views(seen@);
                    let ghost pv2 = pack_views(objects@);
                    seen.push(blob_hash.clone());
                    assert(hash_views(seen@) =~= s2.push(blob_hash@));
                    objects.push((ObjectType::Blob, bh, bytes));
                    assert(objects@.last() == o);
                    assert(pack_views(objects@) =~= pv2.push((ObjectType::Blob, blob_hash@, bytes@)));
                }
                f = f + 1;
            }
            proof {
                assert(listing.subrange(0, listing.len() as int) =~= listing);
                assert(files@.map_values(|p: (String, GitHash)| (p.0@, p.1@)).len() == files@.len());
                assert(listing == files_of(*c));
                cs = cs_next;
                assert(cs0 + history@.subrange(0, j + 1) =~= cs_next);
            }
            j = j + 1;
        }
        proof {
            assert(history@.subrange(0, history@.len() as int) =~= history@);
            crate::commit::lemma_stamps_append(cs0, history@);
            assert(stamp_hashes(stamps(cs0) + stamps(history@)) =~= stamp_hashes(stamps(cs0)) + stamp_hashes(stamps(history@)));
        }
        k = k + 1;
    }
    assert(fresh_objects(objects@, hash_views(repeated_hashes_remote@), hash_views(seen@)));
    assert(hs.subrange(0, hs.len() as int) =~= hs);
    assert(walked(store@, cs, hs));
    Ok(objects)
}

} // verus!
