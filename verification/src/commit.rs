use vstd::prelude::*;
use chrono::TimeZone;
use vstd::utf8::encode_utf8;
use crate::errors::{CommandError, ErrorType};
use crate::hash::GitHash;
use crate::object_type::ObjectType;
use crate::git_object::{GitObject, ObjectStore, object_hash, object_parts, stored_after, lemma_stored_after_push};
use crate::compressor::zlib_deflate;
use crate::object_type::with_header;
use crate::tree::{Tree, entries_content, entries_files, index_lookup, tree_saves};
use crate::index::{Index, info_views, entries_map, distinct_paths};
use crate::index_file_info::IndexEntry;
use crate::user::User;
use crate::text::{int_text, i64_to_decimal, push_text, text_bytes, split_on, split_char, join_with,
    join_strings, views, lines, lines_of, join_lines, join_with_newlines, split_once_spec, split_once_char,
    text_eq, parse_i64_spec, parse_i64, str_to_chars, chars_to_string, string_from_utf8};
use crate::hash::valid_hash_text;
use crate::tree::{hash_binary, tree_ok, tree_blobs_ok, entries_blobs_ok, stored_tree_files};
use crate::object_type::object_kind_name;
use crate::errors::ParseError;
use vstd::utf8::{valid_utf8, decode_utf8};

verus! {

/// A moment as a commit records it: seconds since the epoch, the local
/// offset from UTC (as `+HH:MM`), and how the moment is shown.
pub struct CommitDate {
    pub timestamp: i64,
    pub offset: String,
    pub display: String,
}

impl Clone for CommitDate {
    fn clone(&self) -> (r: Self)
        ensures
            r.timestamp == self.timestamp,
            r.offset@ == self.offset@,
            r.display@ == self.display@,
    {
        CommitDate { timestamp: self.timestamp, offset: self.offset.clone(), display: self.display.clone() }
    }
}

/// `chrono::Local::now()`, with its UNIX timestamp, its offset and its
/// `Display` text. Nothing is promised of the moment: it is the clock's.
#[verifier::external_body]
pub fn local_now() -> (r: CommitDate) {
    let now = chrono::Local::now();
    CommitDate {
        timestamp: now.timestamp(),
        offset: now.offset().to_string(),
        display: now.to_string(),
    }
}

/// Whether `chrono` can represent a moment this many seconds after the
/// epoch (`DateTime::from_timestamp(seconds, 0)` gives one): a function of
/// the number alone, whatever the time zone.
pub uninterp spec fn timestamp_representable(seconds: i64) -> bool;

/// `chrono::Local.timestamp_opt(seconds, 0)`: the moment at that many
/// seconds since the epoch in the machine's time zone, `None` where chrono
/// cannot represent it (the first of two readings where the local time is
/// ambiguous). Trusted: it gives a moment exactly where
/// `timestamp_representable` holds (chrono's `timestamp_opt` fails only where
/// `DateTime::from_timestamp` does), and the moment keeps the timestamp; its
/// offset and text depend on the machine's time zone and are left unsaid.
#[verifier::external_body]
pub fn local_date_at(seconds: i64) -> (r: Option<CommitDate>)
    ensures
        r is Some <==> timestamp_representable(seconds),
        r matches Some(d) ==> d.timestamp == seconds,
{
    let dt = match chrono::Local.timestamp_opt(seconds, 0) {
        chrono::LocalResult::None => return None,
        chrono::LocalResult::Single(dt) => dt,
        chrono::LocalResult::Ambiguous(dt, _) => dt,
    };
    Some(CommitDate { timestamp: dt.timestamp(), offset: dt.offset().to_string(), display: dt.to_string() })
}

/// Who signed a commit and when: name, mail, timestamp and offset.
pub struct Signature {
    pub name: Seq<char>,
    pub mail: Seq<char>,
    pub timestamp: i64,
    pub offset: Seq<char>,
}

/// The offset as commits write it: without its colons.
pub open spec fn compact_offset(offset: Seq<char>) -> Seq<char> {
    join_with(split_on(offset, ':'), Seq::empty())
}

/// A signature line of a commit: `<kind> <name> <<mail>> <seconds> <offset>`.
pub open spec fn signature_line(kind: Seq<char>, s: Signature) -> Seq<char> {
    kind + " "@ + s.name + " <"@ + s.mail + "> "@ + int_text(s.timestamp as int) + " "@ + compact_offset(s.offset)
        + "\n"@
}

/// The text of a commit object.
pub open spec fn commit_text(
    tree_hash: Seq<char>,
    parent: Option<Seq<char>>,
    second_parent: Option<Seq<char>>,
    author: Signature,
    committer: Signature,
    message: Seq<char>,
) -> Seq<char> {
    "tree "@ + tree_hash + "\n"@
        + (match parent { Some(p) => "parent "@ + p + "\n"@, None => Seq::empty() })
        + (match second_parent { Some(p) => "parent "@ + p + "\n"@, None => Seq::empty() })
        + signature_line("author"@, author) + signature_line("committer"@, committer) + "\n"@ + message + "\n"@
}

/// The hash and file under which a commit object of this content is kept.
pub open spec fn commit_object_file(c: Seq<u8>) -> (Seq<char>, Seq<u8>) {
    (object_hash(c, ObjectType::Commit), zlib_deflate(with_header(c, ObjectType::Commit)))
}

/// The objects that saving a commit keeps, in order: those of its tree,
/// then the commit object, where its text can be made.
pub open spec fn commit_saves(c: Commit) -> Seq<(Seq<char>, Seq<u8>)> {
    tree_saves(c.tree_view().entries_view()) + match c.content_view() {
        Some(t) => seq![commit_object_file(encode_utf8(t))],
        None => Seq::empty(),
    }
}

/// The signature of a user at a moment.
pub open spec fn signature_of(u: User, d: CommitDate) -> Signature {
    Signature { name: u.name_view(), mail: u.mail_view(), timestamp: d.timestamp, offset: d.offset@ }
}

/// The text of an optional hash.
pub open spec fn opt_hash(h: Option<GitHash>) -> Option<Seq<char>> {
    match h {
        Some(x) => Some(x@),
        None => None,
    }
}

/// A snapshot of the repository: its tree, its parents, who made it and
/// when, and why.
pub struct Commit {
    hash: GitHash,
    tree: Tree,
    parent_hash: Option<GitHash>,
    second_parent_hash: Option<GitHash>,
    author: User,
    author_date: CommitDate,
    committer: User,
    committer_date: CommitDate,
    message: String,
}

/// Appends a signature line to a commit text.
fn push_signature(result: &mut String, kind: &str, user: &User, date: &CommitDate)
    ensures
        final(result)@ == old(result)@ + signature_line(kind@, signature_of(*user, *date)),
{
    push_text(result, kind);
    push_text(result, " ");
    let name = user.get_name();
    push_text(result, name.as_str());
    push_text(result, " <");
    let mail = user.get_mail();
    push_text(result, mail.as_str());
    push_text(result, "> ");
    let ts = i64_to_decimal(date.timestamp);
    push_text(result, ts.as_str());
    push_text(result, " ");
    let pieces = split_char(date.offset.as_str(), ':');
    let offset = join_strings(&pieces, "");
    proof { reveal_strlit(""); }
    assert(""@ =~= Seq::<char>::empty());
    assert(offset@ == compact_offset(date.offset@));
    push_text(result, offset.as_str());
    push_text(result, "\n");
    proof {
        reveal_strlit(" ");
        reveal_strlit(" <");
        reveal_strlit("> ");
        reveal_strlit("\n");
    }
    assert(result@ =~= old(result)@ + signature_line(kind@, signature_of(*user, *date)));
}

impl Commit {
    /// The hash of the commit.
    pub closed spec fn hash_view(&self) -> Seq<char> {
        self.hash@
    }

    /// The commit's tree.
    pub closed spec fn tree_view(&self) -> Tree {
        self.tree
    }

    /// The first parent's hash, if any.
    pub closed spec fn parent_view(&self) -> Option<Seq<char>> {
        opt_hash(self.parent_hash)
    }

    /// The second parent's hash, if any (a merge).
    pub closed spec fn second_parent_view(&self) -> Option<Seq<char>> {
        opt_hash(self.second_parent_hash)
    }

    /// The author's signature.
    pub closed spec fn author_view(&self) -> Signature {
        signature_of(self.author, self.author_date)
    }

    /// The committer's signature.
    pub closed spec fn committer_view(&self) -> Signature {
        signature_of(self.committer, self.committer_date)
    }

    /// How the author's date is shown.
    pub closed spec fn date_text_view(&self) -> Seq<char> {
        self.author_date.display@
    }

    /// The author's timestamp.
    pub closed spec fn time_view(&self) -> i64 {
        self.author_date.timestamp
    }

    /// The message.
    pub closed spec fn message_view(&self) -> Seq<char> {
        self.message@
    }

    /// The text of the commit's object, where its tree's object can be made.
    pub open spec fn content_view(&self) -> Option<Seq<char>> {
        match entries_content(self.tree_view().entries_view()) {
            Some(c) => Some(commit_text(object_hash(c, ObjectType::Tree), self.parent_view(),
                self.second_parent_view(), self.author_view(), self.committer_view(), self.message_view())),
            None => None,
        }
    }

    /// The bytes of a commit object.
    pub fn generate_content(
        hash_tree: &GitHash,
        parent_hash: Option<GitHash>,
        second_parent_hash: Option<GitHash>,
        author: (&User, &CommitDate),
        committer: (&User, &CommitDate),
        message: &str,
    ) -> (r: Result<Vec<u8>, ErrorType>)
        ensures
            r matches Ok(v) && v@ == encode_utf8(commit_text(hash_tree@, opt_hash(parent_hash), opt_hash(second_parent_hash),
                signature_of(*author.0, *author.1), signature_of(*committer.0, *committer.1), message@)),
    {
        let mut result = String::from_str("tree ");
        push_text(&mut result, hash_tree.as_str());
        push_text(&mut result, "\n");
        let ghost first = result@;
        if let Some(p) = &parent_hash {
            push_text(&mut result, "parent ");
            push_text(&mut result, p.as_str());
            push_text(&mut result, "\n");
        }
        let ghost second = result@;
        if let Some(p) = &second_parent_hash {
            push_text(&mut result, "parent ");
            push_text(&mut result, p.as_str());
            push_text(&mut result, "\n");
        }
        let ghost third = result@;
        push_signature(&mut result, "author", author.0, author.1);
        push_signature(&mut result, "committer", committer.0, committer.1);
        push_text(&mut result, "\n");
        push_text(&mut result, message);
        push_text(&mut result, "\n");
        proof {
            reveal_strlit("tree ");
            reveal_strlit("parent ");
            reveal_strlit("\n");
            assert(second =~= first + (match opt_hash(parent_hash) { Some(p) => "parent "@ + p + "\n"@, None => Seq::empty() }));
            assert(third =~= second + (match opt_hash(second_parent_hash) { Some(p) => "parent "@ + p + "\n"@, None => Seq::empty() }));
        }
        assert(result@ =~= commit_text(hash_tree@, opt_hash(parent_hash), opt_hash(second_parent_hash),
            signature_of(*author.0, *author.1), signature_of(*committer.0, *committer.1), message@));
        Ok(text_bytes(result.as_str()))
    }

    /// A commit of a tree made by `user` at `date`, author and committer
    /// alike. An error where the tree's object cannot be made.
    pub fn new_at(
        tree: Tree,
        parent_hash: Option<GitHash>,
        second_parent_hash: Option<GitHash>,
        message: &str,
        user: User,
        date: CommitDate,
    ) -> (r: Result<Self, ErrorType>)
        ensures
            entries_content(tree.entries_view()) is None ==> r is Err,
            r matches Err(e) ==> e is Parse,
            entries_content(tree.entries_view()) is Some ==> (r matches Ok(c) && {
                &&& c.tree_view() == tree
                &&& c.parent_view() == opt_hash(parent_hash)
                &&& c.second_parent_view() == opt_hash(second_parent_hash)
                &&& c.author_view() == signature_of(user, date)
                &&& c.committer_view() == signature_of(user, date)
                &&& c.message_view() == message@
                &&& c.time_view() == date.timestamp
                &&& c.content_view() matches Some(t) && c.hash_view() == object_hash(encode_utf8(t), ObjectType::Commit)
            }),
    {
        let tree_hash = match tree.get_hash() {
            Ok(h) => h,
            Err(e) => return Err(e),
        };
        let p1 = match &parent_hash { Some(h) => Some(h.clone()), None => None };
        let p2 = match &second_parent_hash { Some(h) => Some(h.clone()), None => None };
        let content = match Self::generate_content(&tree_hash, p1, p2, (&user, &date), (&user, &date), message) {
            Ok(c) => c,
            Err(e) => return Err(e),
        };
        let commit_hash = GitHash::hash_object(&content, ObjectType::Commit);
        let committer = user.clone();
        let committer_date = date.clone();
        Ok(Commit {
            hash: commit_hash,
            tree,
            parent_hash,
            second_parent_hash,
            author: user,
            author_date: date,
            committer,
            committer_date,
            message: String::from_str(message),
        })
    }

    /// A commit of a tree made by `user` now.
    pub fn new(
        tree: Tree,
        parent_hash: Option<GitHash>,
        second_parent_hash: Option<GitHash>,
        message: &str,
        user: User,
    ) -> (r: Result<Self, ErrorType>)
        ensures
            entries_content(tree.entries_view()) is None <==> r is Err,
            r matches Err(e) ==> e is Parse,
            r matches Ok(c) ==> c.tree_view() == tree && c.parent_view() == opt_hash(parent_hash)
                && c.second_parent_view() == opt_hash(second_parent_hash) && c.message_view() == message@
                && c.author_view().name == user.name_view() && c.author_view().mail == user.mail_view()
                && (c.content_view() matches Some(t) && c.hash_view() == object_hash(encode_utf8(t), ObjectType::Commit)),
    {
        let date = local_now();
        Self::new_at(tree, parent_hash, second_parent_hash, message, user, date)
    }

    /// The commit's hash.
    pub fn get_hash(&self) -> (r: GitHash)
        ensures
            r@ == self.hash_view(),
    {
        self.hash.clone()
    }

    /// The bytes of the commit's object.
    pub fn get_content(&self) -> (r: Result<Vec<u8>, ErrorType>)
        ensures
            match self.content_view() {
                Some(t) => r matches Ok(v) && v@ == encode_utf8(t),
                None => r is Err,
            },
            r matches Err(e) ==> e is Parse,
    {
        let tree_hash = match self.tree.get_hash() {
            Ok(h) => h,
            Err(e) => return Err(e),
        };
        let p1 = match &self.parent_hash { Some(h) => Some(h.clone()), None => None };
        let p2 = match &self.second_parent_hash { Some(h) => Some(h.clone()), None => None };
        Self::generate_content(&tree_hash, p1, p2, (&self.author, &self.author_date),
            (&self.committer, &self.committer_date), self.message.as_str())
    }

    /// Stores the commit's tree and then the commit itself.
    pub fn save(&self, store: &mut ObjectStore) -> (r: Result<(), ErrorType>)
        ensures
            self.content_view() is None ==> r is Err,
            self.content_view() is Some ==> r is Ok,
            r is Ok ==> (self.content_view() matches Some(t) && object_parts(final(store)@,
                object_hash(encode_utf8(t), ObjectType::Commit)) == Some((ObjectType::Commit, encode_utf8(t).len(), encode_utf8(t)))),
            r is Ok ==> final(store)@ == stored_after(old(store)@, commit_saves(*self)),
            r is Ok ==> final(store).written_view() == old(store).written_view() + commit_saves(*self),
    {
        let ghost m0 = store@;
        let ghost w0 = store.written_view();
        match self.tree.save(store) {
            Ok(()) => {},
            Err(e) => return Err(e),
        }
        let content = match self.get_content() {
            Ok(c) => c,
            Err(e) => return Err(e),
        };
        let ghost ts = tree_saves(self.tree.entries_view());
        let ghost x = commit_object_file(content@);
        match GitObject::save_commit(content, store) {
            Ok(_) => {
                proof {
                    assert(commit_saves(*self) =~= ts.push(x));
                    lemma_stored_after_push(m0, ts, x);
                    assert(store.written_view() =~= w0 + ts.push(x));
                }
                Ok(())
            },
            Err(e) => Err(e),
        }
    }

    /// The message of the `commit` command: its one argument.
    pub fn parse_args(args: Vec<String>) -> (r: Result<String, ErrorType>)
        ensures
            args@.len() == 1 ==> (r matches Ok(m) && m@ == args@[0]@),
            args@.len() != 1 ==> (r matches Err(ErrorType::CommandError(CommandError::IncorrectAmount(e, 0))) && e@ == "1"@),
    {
        if args.len() != 1 {
            return Err(ErrorType::CommandError(CommandError::IncorrectAmount(String::from_str("1"), 0)));
        }
        Ok(args[0].clone())
    }

    /// The author.
    pub fn get_user(&self) -> (r: User)
        ensures
            r.name_view() == self.author_view().name,
            r.mail_view() == self.author_view().mail,
    {
        self.author.clone()
    }

    /// When the commit was authored.
    pub fn get_date(&self) -> (r: CommitDate)
        ensures
            r.timestamp == self.time_view(),
            r.offset@ == self.author_view().offset,
    {
        self.author_date.clone()
    }

    /// The commit's tree.
    pub fn get_tree(&self) -> (r: &Tree)
        ensures
            *r == self.tree_view(),
    {
        &self.tree
    }

    /// The message.
    pub fn get_message(&self) -> (r: String)
        ensures
            r@ == self.message_view(),
    {
        self.message.clone()
    }

    /// The first parent's hash.
    pub fn get_parent_hash(&self) -> (r: Option<GitHash>)
        ensures
            opt_hash(r) == self.parent_view(),
    {
        match &self.parent_hash { Some(h) => Some(h.clone()), None => None }
    }

    /// The second parent's hash.
    pub fn get_second_parent_hash(&self) -> (r: Option<GitHash>)
        ensures
            opt_hash(r) == self.second_parent_view(),
    {
        match &self.second_parent_hash { Some(h) => Some(h.clone()), None => None }
    }

    /// The files of the commit's tree, with their paths and hashes.
    pub fn get_files_vec(&self) -> (r: Vec<(String, GitHash)>)
        ensures
            r@.map_values(|p: (String, GitHash)| (p.0@, p.1@)) == entries_files(self.tree_view().entries_view(), Seq::empty()),
    {
        self.tree.get_files_vec()
    }

    /// Gives the commit another first parent; its hash follows its new
    /// content.
    pub fn set_parent_hash(&mut self, new_hash: Option<GitHash>) -> (r: Result<(), ErrorType>)
        ensures
            final(self).parent_view() == opt_hash(new_hash),
            final(self).tree_view() == old(self).tree_view(),
            final(self).second_parent_view() == old(self).second_parent_view(),
            final(self).author_view() == old(self).author_view(),
            final(self).committer_view() == old(self).committer_view(),
            final(self).message_view() == old(self).message_view(),
            final(self).time_view() == old(self).time_view(),
            r is Ok <==> final(self).content_view() is Some,
            r matches Err(e) ==> e is Parse,
            r is Ok ==> (final(self).content_view() matches Some(t)
                && final(self).hash_view() == object_hash(encode_utf8(t), ObjectType::Commit)),
    {
        self.parent_hash = new_hash;
        let content = match self.get_content() {
            Ok(c) => c,
            Err(e) => return Err(e),
        };
        self.hash = GitHash::hash_object(&content, ObjectType::Commit);
        Ok(())
    }

    /// Takes the commit's object out of the store.
    pub fn delete(&self, store: &mut ObjectStore)
        ensures
            final(store)@ == old(store)@.remove(self.hash_view()),
            final(store).written_view() == old(store).written_view(),
    {
        GitObject::delete_object(&self.hash, store)
    }
}

/// The header fields of a commit object, as read so far.
pub struct CommitHeader {
    pub tree: Option<Seq<char>>,
    pub parent: Option<Seq<char>>,
    pub second_parent: Option<Seq<char>>,
    pub author: Option<Seq<char>>,
    pub committer: Option<Seq<char>>,
    pub message: Option<Seq<char>>,
}

/// A header with nothing read yet.
pub open spec fn empty_header() -> CommitHeader {
    CommitHeader { tree: None, parent: None, second_parent: None, author: None, committer: None, message: None }
}

/// The header of a commit object read from line `i` on: each line is a
/// category, a space and its value (lines with no space are skipped, later
/// values replace earlier ones); the first `parent` line gives the first
/// parent, later ones the second. At the first empty line the remaining
/// lines, joined, are the message. The error is a parent that is not a hash.
pub open spec fn header_walk(ls: Seq<Seq<char>>, i: nat, h: CommitHeader) -> Result<CommitHeader, Seq<char>>
    decreases (if i < ls.len() { ls.len() - i } else { 0 }),
{
    if i >= ls.len() {
        Ok(h)
    } else if ls[i as int].len() == 0 {
        Ok(CommitHeader { message: Some(join_lines(ls.subrange(i as int + 1, ls.len() as int))), ..h })
    } else {
        match split_once_spec(ls[i as int], ' ') {
            None => header_walk(ls, i + 1, h),
            Some((cat, data)) => {
                if cat == "parent"@ {
                    if !valid_hash_text(data) {
                        Err(data)
                    } else if h.parent is None {
                        header_walk(ls, i + 1, CommitHeader { parent: Some(data), ..h })
                    } else {
                        header_walk(ls, i + 1, CommitHeader { second_parent: Some(data), ..h })
                    }
                } else if cat == "tree"@ {
                    header_walk(ls, i + 1, CommitHeader { tree: Some(data), ..h })
                } else if cat == "author"@ {
                    header_walk(ls, i + 1, CommitHeader { author: Some(data), ..h })
                } else if cat == "committer"@ {
                    header_walk(ls, i + 1, CommitHeader { committer: Some(data), ..h })
                } else {
                    header_walk(ls, i + 1, h)
                }
            },
        }
    }
}

/// The name, mail and timestamp of a signature line's value: four fields
/// separated by spaces, the mail between `<` and `>`, the timestamp a
/// number.
pub open spec fn user_line_parts(d: Seq<char>) -> Option<(Seq<char>, Seq<char>, int)> {
    let f = split_on(d, ' ');
    if f.len() != 4 {
        None
    } else if !(f[1].len() >= 2 && f[1][0] == '<' && f[1].last() == '>') {
        None
    } else {
        match parse_i64_spec(f[2]) {
            Some(v) => Some((f[0], f[1].subrange(1, f[1].len() - 1), v)),
            None => None,
        }
    }
}

/// Whether a signature line's value can be read: its parts are well formed
/// and its moment can be represented.
pub open spec fn user_ok(d: Seq<char>) -> bool {
    user_line_parts(d) matches Some((_, _, ts)) && timestamp_representable(ts as i64)
}

/// Whether a commit can be read from the text of its object: its header
/// reads, it names a tree that can be read from the store, an author and a
/// committer that can be read, and it has a message.
pub open spec fn commit_text_ok(text: Seq<char>, store: Map<Seq<char>, Seq<u8>>) -> bool {
    &&& header_walk(lines(text), 0, empty_header()) matches Ok(h)
    &&& h.tree matches Some(t) && valid_hash_text(t) && tree_ok(store, t, usize::MAX as nat)
    &&& h.author matches Some(a) && user_ok(a)
    &&& h.committer matches Some(c) && user_ok(c)
    &&& h.message is Some
}

/// Whether the commit object with this hash can be read from the store.
pub open spec fn commit_ok(store: Map<Seq<char>, Seq<u8>>, hash: Seq<char>) -> bool {
    object_parts(store, hash) matches Some((t, _, c)) && t == ObjectType::Commit && valid_utf8(c)
        && commit_text_ok(decode_utf8(c), store)
}

/// The error named for a commit that lacks a field.
pub open spec fn missing_field_text(hash: Seq<char>, field: Seq<char>) -> Seq<char> {
    "Commit object '"@ + hash + "' is missing a field '"@ + field + "'"@
}

impl Commit {
    fn missing_field(commit_hash: &GitHash, field: &str) -> (r: ErrorType)
        ensures
            r matches ErrorType::FormatError(s) && s@ == missing_field_text(commit_hash@, field@),
    {
        let mut msg = String::from_str("Commit object '");
        push_text(&mut msg, commit_hash.as_str());
        push_text(&mut msg, "' is missing a field '");
        push_text(&mut msg, field);
        push_text(&mut msg, "'");
        ErrorType::FormatError(msg)
    }

    /// Reads the value of a signature line: a user and a moment.
    pub fn parse_user_line(fields: &str) -> (r: Result<(User, CommitDate), ErrorType>)
        ensures
            r is Ok <==> user_ok(fields@),
            user_line_parts(fields@) is None ==> r is Err,
            r matches Ok((u, d)) ==> user_line_parts(fields@) matches Some((n, m, ts))
                && u.name_view() == n && u.mail_view() == m && d.timestamp == ts,
            split_on(fields@, ' ').len() != 4 ==> r matches Err(ErrorType::FormatError(_)),
    {
        let parts = split_char(fields, ' ');
        assert(views(parts@).len() == parts@.len());
        if parts.len() != 4 {
            return Err(ErrorType::FormatError(String::from_str("Invalid user format in commit file")));
        }
        assert(views(parts@)[0] == parts@[0]@);
        assert(views(parts@)[1] == parts@[1]@);
        assert(views(parts@)[2] == parts@[2]@);
        let m = str_to_chars(parts[1].as_str());
        if !(m.len() >= 2 && m[0] == '<' && m[m.len() - 1] == '>') {
            return Err(ErrorType::FormatError(String::from_str("User mail in commit must be between '<' '>'")));
        }
        let mail = chars_to_string(&m.as_slice()[1..m.len() - 1]);
        assert(mail@ =~= parts@[1]@.subrange(1, parts@[1]@.len() - 1));
        let user = User::new(parts[0].as_str(), mail.as_str());
        let seconds: i64 = match parse_i64(parts[2].as_str()) {
            Ok(v) => v,
            Err(e) => return Err(ErrorType::Parse(ParseError::Int(e))),
        };
        let time = match local_date_at(seconds) {
            Some(d) => d,
            None => return Err(ErrorType::FormatError(String::from_str("invalid date time in commit"))),
        };
        Ok((user, time))
    }

    /// Reads a commit from the text of its object; its tree is read from the
    /// store.
    pub fn from_object(hash: &GitHash, content: String, store: &ObjectStore) -> (r: Result<Self, ErrorType>)
        ensures
            r is Ok <==> commit_text_ok(content@, store@),
            header_walk(lines(content@), 0, empty_header()) matches Err(bad)
                ==> (r matches Err(ErrorType::InvalidHash(s)) && s@ == bad),
            header_walk(lines(content@), 0, empty_header()) matches Ok(h) ==> (h.tree is None
                ==> (r matches Err(ErrorType::FormatError(s)) && s@ == missing_field_text(hash@, "tree"@))),
            r matches Ok(c) ==> (header_walk(lines(content@), 0, empty_header()) matches Ok(h) && {
                &&& h.tree is Some && h.author is Some && h.committer is Some && h.message is Some
                &&& c.hash_view() == hash@
                &&& (tree_blobs_ok(store@, h.tree->0, usize::MAX as nat) ==> entries_blobs_ok(store@, c.tree_view().entries_view()))
                &&& files_of(c) == stored_tree_files(store@, h.tree->0, usize::MAX as nat, Seq::empty())
                &&& c.content_view() is Some
                &&& c.parent_view() == h.parent
                &&& c.second_parent_view() == h.second_parent
                &&& c.message_view() == h.message->0
                &&& user_line_parts(h.author->0) matches Some((n, m, ts))
                &&& c.author_view().name == n && c.author_view().mail == m && c.time_view() == ts
                &&& user_line_parts(h.committer->0) matches Some((n2, m2, ts2))
                &&& c.committer_view().name == n2 && c.committer_view().mail == m2
                    && c.committer_view().timestamp == ts2
            }),
    {
        let ls = lines_of(content.as_str());
        let ghost all = lines(content@);
        let mut tree_text: Option<String> = None;
        let mut author_text: Option<String> = None;
        let mut committer_text: Option<String> = None;
        let mut message: Option<String> = None;
        let mut parent_hash: Option<GitHash> = None;
        let mut second_parent_hash: Option<GitHash> = None;
        let mut i: usize = 0;
        proof {
            reveal_strlit("parent");
            reveal_strlit("tree");
            reveal_strlit("author");
            reveal_strlit("committer");
        }
        while i < ls.len()
            invariant_except_break
                header_walk(all, 0, empty_header()) == header_walk(all, i as nat, CommitHeader {
                    tree: crate::config::opt_view(tree_text),
                    parent: opt_hash(parent_hash),
                    second_parent: opt_hash(second_parent_hash),
                    author: crate::config::opt_view(author_text),
                    committer: crate::config::opt_view(committer_text),
                    message: crate::config::opt_view(message),
                }),
            invariant
                views(ls@) == all,
                all == lines(content@),
                i <= ls@.len(),
            ensures
                header_walk(all, 0, empty_header()) == Ok::<CommitHeader, Seq<char>>(CommitHeader {
                    tree: crate::config::opt_view(tree_text),
                    parent: opt_hash(parent_hash),
                    second_parent: opt_hash(second_parent_hash),
                    author: crate::config::opt_view(author_text),
                    committer: crate::config::opt_view(committer_text),
                    message: crate::config::opt_view(message),
                }),
            decreases ls.len() - i,
        {
            let line = &ls[i];
            assert(all[i as int] == line@);
            if line.unicode_len() == 0 {
                let mut k = i + 1;
                let mut rest: Vec<String> = Vec::new();
                while k < ls.len()
                    invariant
                        i < k <= ls@.len(),
                        views(rest@) == all.subrange(i + 1, k as int),
                        views(ls@) == all,
                    decreases ls.len() - k,
                {
                    let ghost prev = views(rest@);
                    rest.push(ls[k].clone());
                    assert(views(rest@) =~= prev.push(all[k as int]));
                    k = k + 1;
                    assert(all.subrange(i + 1, k as int) =~= prev.push(all[k - 1]));
                }
                message = Some(join_with_newlines(&rest));
                break;
            }
            match split_once_char(line.as_str(), ' ') {
                None => {},
                Some((category, data)) => {
                    if text_eq(category.as_str(), "parent") {
                        let h = match GitHash::new(data.as_str()) {
                            Ok(h) => h,
                            Err(e) => return Err(e),
                        };
                        if parent_hash.is_none() {
                            parent_hash = Some(h);
                        } else {
                            second_parent_hash = Some(h);
                        }
                    } else if text_eq(category.as_str(), "tree") {
                        tree_text = Some(data);
                    } else if text_eq(category.as_str(), "author") {
                        author_text = Some(data);
                    } else if text_eq(category.as_str(), "committer") {
                        committer_text = Some(data);
                    }
                },
            }
            i = i + 1;
        }
        let tree_hash = match &tree_text {
            None => return Err(Self::missing_field(hash, "tree")),
            Some(t) => match GitHash::new(t.as_str()) {
                Ok(h) => h,
                Err(e) => return Err(e),
            },
        };
        let tree = match GitObject::read_tree(&tree_hash, store) {
            Ok(t) => t,
            Err(e) => return Err(e),
        };
        let (author, author_date) = match &author_text {
            None => return Err(Self::missing_field(hash, "author")),
            Some(d) => match Self::parse_user_line(d.as_str()) {
                Ok(p) => p,
                Err(e) => return Err(e),
            },
        };
        let (committer, committer_date) = match &committer_text {
            None => return Err(Self::missing_field(hash, "committer")),
            Some(d) => match Self::parse_user_line(d.as_str()) {
                Ok(p) => p,
                Err(e) => return Err(e),
            },
        };
        let message = match message {
            None => return Err(Self::missing_field(hash, "message")),
            Some(m) => m,
        };
        Ok(Commit {
            hash: hash.clone(),
            tree,
            parent_hash,
            second_parent_hash,
            author,
            author_date,
            committer,
            committer_date,
            message,
        })
    }
}

/// The hashes of a list of commits.
pub open spec fn commit_hashes(v: Seq<Commit>) -> Seq<Seq<char>> {
    v.map_values(|c: Commit| c.hash_view())
}

/// Commits inserted one by one, newest first, each after those at least as
/// new (a stable sort from newest to oldest).
pub open spec fn sorted_newest_first(v: Seq<Commit>) -> Seq<Commit>
    decreases v.len(),
{
    if v.len() == 0 {
        Seq::empty()
    } else {
        insert_by_time(sorted_newest_first(v.drop_last()), v.last())
    }
}

/// A commit inserted into a list sorted newest first, after every commit at
/// least as new.
pub open spec fn insert_by_time(s: Seq<Commit>, c: Commit) -> Seq<Commit> {
    let k = count_newer(s, c.time_view());
    s.insert(k as int, c)
}

/// How many commits at the head of a list are at least as new as `t`.
pub open spec fn count_newer(s: Seq<Commit>, t: i64) -> nat
    decreases s.len(),
{
    if s.len() == 0 {
        0
    } else if s[0].time_view() >= t {
        1 + count_newer(s.drop_first(), t)
    } else {
        0
    }
}

proof fn lemma_count_newer_bound(s: Seq<Commit>, t: i64)
    ensures
        count_newer(s, t) <= s.len(),
    decreases s.len(),
{
    if s.len() > 0 {
        lemma_count_newer_bound(s.drop_first(), t);
    }
}

/// The first commit of `b` whose hash appears in `a`.
pub open spec fn first_common(a: Seq<Seq<char>>, b: Seq<Commit>) -> Option<Commit>
    decreases b.len(),
{
    if b.len() == 0 {
        None
    } else if a.contains(b[0].hash_view()) {
        Some(b[0])
    } else {
        first_common(a, b.drop_first())
    }
}

/// Whether two lists of commits are histories as `get_commits_history`
/// gives them: each starts at the given commit and holds each commit once.
pub open spec fn histories_of(h1: Seq<Commit>, h2: Seq<Commit>, first1: Seq<char>, first2: Seq<char>) -> bool {
    &&& h1.len() >= 1 && h1[0].hash_view() == first1 && commit_hashes(h1).no_duplicates()
    &&& h2.len() >= 1 && h2[0].hash_view() == first2 && commit_hashes(h2).no_duplicates()
}

/// The commits of a list without repeats: each commit after the first one
/// with its hash is dropped.
pub open spec fn without_repeats(v: Seq<Commit>) -> Seq<Commit>
    decreases v.len(),
{
    if v.len() == 0 {
        Seq::empty()
    } else {
        let r = without_repeats(v.drop_last());
        if commit_hashes(r).contains(v.last().hash_view()) { r } else { r.push(v.last()) }
    }
}

/// The header of the commit object stored under a hash, as its text reads
/// (an empty header where it cannot be read).
pub open spec fn stored_header(store: Map<Seq<char>, Seq<u8>>, hash: Seq<char>) -> CommitHeader {
    match object_parts(store, hash) {
        Some((_, _, c)) => match header_walk(lines(decode_utf8(c)), 0, empty_header()) {
            Ok(h) => h,
            Err(_) => empty_header(),
        },
        None => empty_header(),
    }
}

/// Whether the store holds a readable blob for every file of the tree of the
/// commit stored under a hash.
pub open spec fn commit_blobs_ok(store: Map<Seq<char>, Seq<u8>>, hash: Seq<char>) -> bool {
    match stored_header(store, hash).tree {
        Some(t) => tree_blobs_ok(store, t, usize::MAX as nat),
        None => false,
    }
}

/// The files, with their paths and hashes, of the tree of the commit stored
/// under a hash, as reading that commit lists them.
pub open spec fn stored_commit_files(store: Map<Seq<char>, Seq<u8>>, hash: Seq<char>) -> Seq<(Seq<char>, Seq<char>)> {
    match stored_header(store, hash).tree {
        Some(t) => stored_tree_files(store, t, usize::MAX as nat, Seq::empty()),
        None => Seq::empty(),
    }
}

/// The files of a commit's tree, with their paths and hashes.
pub open spec fn files_of(c: Commit) -> Seq<(Seq<char>, Seq<char>)> {
    entries_files(c.tree_view().entries_view(), Seq::empty())
}

/// Whether a commit's files are those of the commit the store holds under
/// its hash.
pub open spec fn files_stored(store: Map<Seq<char>, Seq<u8>>, c: Commit) -> bool {
    files_of(c) == stored_commit_files(store, c.hash_view())
}

/// Whether a commit's files are known: those stored under its hash, or,
/// for a copy of `c`, those of `c`.
pub open spec fn files_known(store: Map<Seq<char>, Seq<u8>>, e: Commit, c: Commit) -> bool {
    files_stored(store, e) || (e.hash_view() == c.hash_view() && files_of(e) == files_of(c))
}

/// The author's timestamp of the commit object stored under a hash.
pub open spec fn stored_time(store: Map<Seq<char>, Seq<u8>>, hash: Seq<char>) -> int {
    match stored_header(store, hash).author {
        Some(a) => match user_line_parts(a) {
            Some((_, _, ts)) => ts,
            None => 0,
        },
        None => 0,
    }
}

/// A commit's hash and author time: all that ordering a history looks at.
pub open spec fn stamp(c: Commit) -> (Seq<char>, int) {
    (c.hash_view(), c.time_view() as int)
}

/// The stamps of a list of commits.
pub open spec fn stamps(v: Seq<Commit>) -> Seq<(Seq<char>, int)> {
    v.map_values(|c: Commit| stamp(c))
}

/// The hashes of a list of stamps.
pub open spec fn stamp_hashes(v: Seq<(Seq<char>, int)>) -> Seq<Seq<char>> {
    v.map_values(|s: (Seq<char>, int)| s.0)
}

/// How many stamps at the head of a list are at least as new as `t`.
pub open spec fn count_newer_stamps(s: Seq<(Seq<char>, int)>, t: int) -> nat
    decreases s.len(),
{
    if s.len() == 0 {
        0
    } else if s[0].1 >= t {
        1 + count_newer_stamps(s.drop_first(), t)
    } else {
        0
    }
}

/// Stamps inserted one by one, newest first, each after those at least as new.
pub open spec fn sorted_stamps(v: Seq<(Seq<char>, int)>) -> Seq<(Seq<char>, int)>
    decreases v.len(),
{
    if v.len() == 0 {
        Seq::empty()
    } else {
        let s = sorted_stamps(v.drop_last());
        s.insert(count_newer_stamps(s, v.last().1) as int, v.last())
    }
}

/// The hash of the last stamp of `b` whose hash appears in `a`.
pub open spec fn last_common_stamp(a: Seq<Seq<char>>, b: Seq<(Seq<char>, int)>) -> Option<Seq<char>>
    decreases b.len(),
{
    if b.len() == 0 {
        None
    } else if a.contains(b.last().0) {
        Some(b.last().0)
    } else {
        last_common_stamp(a, b.drop_last())
    }
}

/// Whether interleaving two histories, given by their stamps, fails.
pub open spec fn interleave_fails_stamps(b1: Seq<(Seq<char>, int)>, b2: Seq<(Seq<char>, int)>) -> bool {
    let s = sorted_stamps(b1 + b2);
    s.len() == 0 || last_common_stamp(stamp_hashes(b1), b2) == Some(s[0].0)
}

/// Stamps without repeats: each after the first one with its hash is dropped.
pub open spec fn without_repeats_stamps(v: Seq<(Seq<char>, int)>) -> Seq<(Seq<char>, int)>
    decreases v.len(),
{
    if v.len() == 0 {
        Seq::empty()
    } else {
        let r = without_repeats_stamps(v.drop_last());
        if stamp_hashes(r).contains(v.last().0) { r } else { r.push(v.last()) }
    }
}

/// The stamps of the history that `get_commits_history_rec` gives for a
/// commit with this hash, time and parents, reading its ancestors from the
/// store at most `depth` levels deep: the commit, then its first parent's
/// history; for a merge, both parents' histories interleaved newest first
/// without the oldest. `None` where it fails: an ancestor that cannot be
/// read, a history too deep, or an interleaving that fails.
pub open spec fn rec_history(
    store: Map<Seq<char>, Seq<u8>>,
    hash: Seq<char>,
    time: int,
    parent: Option<Seq<char>>,
    second: Option<Seq<char>>,
    depth: nat,
) -> Option<Seq<(Seq<char>, int)>>
    decreases depth, 0nat,
{
    match parent {
        None => Some(seq![(hash, time)]),
        Some(p) => {
            if depth == 0 || !commit_ok(store, p) {
                None
            } else {
                match dedup_history(store, p, (depth - 1) as nat) {
                    None => None,
                    Some(h1) => match second {
                        None => Some(seq![(hash, time)] + h1),
                        Some(q) => {
                            if !commit_ok(store, q) {
                                None
                            } else {
                                match dedup_history(store, q, (depth - 1) as nat) {
                                    None => None,
                                    Some(h2) => {
                                        if interleave_fails_stamps(h1, h2) {
                                            None
                                        } else {
                                            let s = sorted_stamps(h1 + h2);
                                            Some(seq![(hash, time)] + s.subrange(0, s.len() - 1))
                                        }
                                    },
                                }
                            }
                        },
                    },
                }
            }
        },
    }
}

/// The stamps of the history that `get_commits_history` gives for the
/// commit stored under a hash: its ancestors each once.
pub open spec fn dedup_history(store: Map<Seq<char>, Seq<u8>>, hash: Seq<char>, depth: nat) -> Option<Seq<(Seq<char>, int)>>
    decreases depth, 1nat,
{
    let h = stored_header(store, hash);
    match rec_history(store, hash, stored_time(store, hash), h.parent, h.second_parent, depth) {
        Some(v) => Some(without_repeats_stamps(v)),
        None => None,
    }
}

/// The hash of the first stamp of `b` whose hash appears in `a`.
pub open spec fn first_common_stamp(a: Seq<Seq<char>>, b: Seq<(Seq<char>, int)>) -> Option<Seq<char>>
    decreases b.len(),
{
    if b.len() == 0 {
        None
    } else if a.contains(b[0].0) {
        Some(b[0].0)
    } else {
        first_common_stamp(a, b.drop_first())
    }
}

/// The hash of a commit, if there is one.
pub open spec fn opt_commit_hash(o: Option<Commit>) -> Option<Seq<char>> {
    match o {
        Some(c) => Some(c.hash_view()),
        None => None,
    }
}

/// The newest commit that the histories of two commits stored under these
/// hashes share, as `last_common_ancestor` finds it: the first of the second
/// history that the first holds. `None` inside where they share none; `None`
/// outside where a history cannot be read.
pub open spec fn stored_common_ancestor(store: Map<Seq<char>, Seq<u8>>, a: Seq<char>, b: Seq<char>) -> Option<Option<Seq<char>>> {
    match (dedup_history(store, a, usize::MAX as nat), dedup_history(store, b, usize::MAX as nat)) {
        (Some(h1), Some(h2)) => Some(first_common_stamp(stamp_hashes(h1), h2)),
        _ => None,
    }
}

proof fn lemma_stamps_first_common(a: Seq<Seq<char>>, b: Seq<Commit>)
    ensures
        opt_commit_hash(first_common(a, b)) == first_common_stamp(a, stamps(b)),
    decreases b.len(),
{
    if b.len() > 0 {
        assert(stamps(b).drop_first() =~= stamps(b.drop_first()));
        lemma_stamps_first_common(a, b.drop_first());
    }
}

/// The stamps of the history that `get_commits_history_rec` gives for the
/// commit stored under a hash.
pub open spec fn stored_rec_history(store: Map<Seq<char>, Seq<u8>>, hash: Seq<char>) -> Option<Seq<(Seq<char>, int)>> {
    rec_history(store, hash, stored_time(store, hash), stored_header(store, hash).parent,
        stored_header(store, hash).second_parent, usize::MAX as nat)
}

/// The stamps of a commit's history with its ancestors read from the store.
pub open spec fn commit_history(store: Map<Seq<char>, Seq<u8>>, c: Commit, depth: nat) -> Option<Seq<(Seq<char>, int)>> {
    rec_history(store, c.hash_view(), c.time_view() as int, c.parent_view(), c.second_parent_view(), depth)
}

pub proof fn lemma_stamps_append(a: Seq<Commit>, b: Seq<Commit>)
    ensures
        stamps(a + b) == stamps(a) + stamps(b),
{
    assert(stamps(a + b) =~= stamps(a) + stamps(b));
}

proof fn lemma_stamp_hashes(v: Seq<Commit>)
    ensures
        commit_hashes(v) == stamp_hashes(stamps(v)),
{
    assert(commit_hashes(v) =~= stamp_hashes(stamps(v)));
}

proof fn lemma_stamps_count_newer(s: Seq<Commit>, t: i64)
    ensures
        count_newer(s, t) == count_newer_stamps(stamps(s), t as int),
    decreases s.len(),
{
    if s.len() > 0 {
        assert(stamps(s).drop_first() =~= stamps(s.drop_first()));
        lemma_stamps_count_newer(s.drop_first(), t);
    }
}

proof fn lemma_stamps_sorted(v: Seq<Commit>)
    ensures
        stamps(sorted_newest_first(v)) == sorted_stamps(stamps(v)),
    decreases v.len(),
{
    if v.len() > 0 {
        assert(stamps(v).drop_last() =~= stamps(v.drop_last()));
        lemma_stamps_sorted(v.drop_last());
        let s = sorted_newest_first(v.drop_last());
        let c = v.last();
        lemma_stamps_count_newer(s, c.time_view());
        lemma_count_newer_bound(s, c.time_view());
        let k = count_newer(s, c.time_view()) as int;
        assert(stamps(s.insert(k, c)) =~= stamps(s).insert(k, stamp(c)));
    }
}

proof fn lemma_stamps_last_common(a: Seq<Seq<char>>, b: Seq<Commit>)
    ensures
        last_common(a, b) == last_common_stamp(a, stamps(b)),
    decreases b.len(),
{
    if b.len() > 0 {
        assert(stamps(b).drop_last() =~= stamps(b.drop_last()));
        lemma_stamps_last_common(a, b.drop_last());
    }
}

proof fn lemma_stamps_interleave(b1: Seq<Commit>, b2: Seq<Commit>)
    ensures
        interleave_fails(b1, b2) == interleave_fails_stamps(stamps(b1), stamps(b2)),
        stamps(sorted_newest_first(b1 + b2)) == sorted_stamps(stamps(b1) + stamps(b2)),
{
    lemma_stamps_append(b1, b2);
    lemma_stamps_sorted(b1 + b2);
    lemma_stamp_hashes(b1);
    lemma_stamps_last_common(commit_hashes(b1), b2);
    let s = sorted_newest_first(b1 + b2);
    if s.len() > 0 {
        assert(stamps(s)[0] == stamp(s[0]));
    }
}

proof fn lemma_first_common_in(a: Seq<Seq<char>>, b: Seq<Commit>)
    ensures
        first_common(a, b) matches Some(c) ==> b.contains(c),
    decreases b.len(),
{
    if b.len() > 0 && !a.contains(b[0].hash_view()) {
        lemma_first_common_in(a, b.drop_first());
        if first_common(a, b.drop_first()) is Some {
            let c = first_common(a, b.drop_first())->Some_0;
            let j = choose|j: int| 0 <= j < b.drop_first().len() && b.drop_first()[j] == c;
            assert(b[j + 1] == c);
        }
    }
    if b.len() > 0 && a.contains(b[0].hash_view()) {
        assert(b[0] == b[0]);
    }
}

proof fn lemma_sorted_contains(v: Seq<Commit>, x: Commit)
    requires
        sorted_newest_first(v).contains(x),
    ensures
        v.contains(x),
    decreases v.len(),
{
    if v.len() > 0 {
        let s = sorted_newest_first(v.drop_last());
        let c = v.last();
        lemma_count_newer_bound(s, c.time_view());
        let k = count_newer(s, c.time_view()) as int;
        let t = s.insert(k, c);
        let i = choose|i: int| 0 <= i < t.len() && t[i] == x;
        if x != c {
            if i < k { assert(s[i] == x); } else { assert(s[i - 1] == x); }
            lemma_sorted_contains(v.drop_last(), x);
            let j = choose|j: int| 0 <= j < v.drop_last().len() && v.drop_last()[j] == x;
            assert(v[j] == x);
        } else {
            assert(v[v.len() - 1] == x);
        }
    }
}

proof fn lemma_without_repeats_contains(v: Seq<Commit>, x: Commit)
    requires
        without_repeats(v).contains(x),
    ensures
        v.contains(x),
    decreases v.len(),
{
    if v.len() > 0 {
        let r = without_repeats(v.drop_last());
        if r.contains(x) {
            lemma_without_repeats_contains(v.drop_last(), x);
            let j = choose|j: int| 0 <= j < v.drop_last().len() && v.drop_last()[j] == x;
            assert(v[j] == x);
        } else {
            let i = choose|i: int| 0 <= i < r.push(v.last()).len() && r.push(v.last())[i] == x;
            assert(x == v.last());
            assert(v[v.len() - 1] == x);
        }
    }
}

proof fn lemma_stamps_without_repeats(v: Seq<Commit>)
    ensures
        stamps(without_repeats(v)) == without_repeats_stamps(stamps(v)),
    decreases v.len(),
{
    if v.len() > 0 {
        assert(stamps(v).drop_last() =~= stamps(v.drop_last()));
        lemma_stamps_without_repeats(v.drop_last());
        let r = without_repeats(v.drop_last());
        lemma_stamp_hashes(r);
        assert(stamps(r.push(v.last())) =~= stamps(r).push(stamp(v.last())));
    }
}

impl Clone for Commit {
    fn clone(&self) -> (r: Self)
        ensures
            r.hash_view() == self.hash_view(),
            r.parent_view() == self.parent_view(),
            r.second_parent_view() == self.second_parent_view(),
            r.author_view() == self.author_view(),
            r.committer_view() == self.committer_view(),
            r.message_view() == self.message_view(),
            r.time_view() == self.time_view(),
            files_of(r) == files_of(*self),
            r.content_view() == self.content_view(),
            entries_content(r.tree_view().entries_view()) == entries_content(self.tree_view().entries_view()),
    {
        Commit {
            hash: self.hash.clone(),
            tree: self.tree.clone_tree(),
            parent_hash: match &self.parent_hash { Some(h) => Some(h.clone()), None => None },
            second_parent_hash: match &self.second_parent_hash { Some(h) => Some(h.clone()), None => None },
            author: self.author.clone(),
            author_date: self.author_date.clone(),
            committer: self.committer.clone(),
            committer_date: self.committer_date.clone(),
            message: self.message.clone(),
        }
    }
}

impl GitObject {
    /// Reads a commit object from the store: its content must be UTF-8 text
    /// and its type a commit.
    pub fn read_commit(hash: &GitHash, store: &ObjectStore) -> (r: Result<Commit, ErrorType>)
        ensures
            r is Ok <==> commit_ok(store@, hash@),
            object_parts(store@, hash@) is None ==> r is Err,
            object_parts(store@, hash@) matches Some((t, _, c)) ==> {
                &&& (!valid_utf8(c) ==> r matches Err(ErrorType::FormatError(_)))
                &&& ((valid_utf8(c) && t != ObjectType::Commit) ==> (r matches Err(ErrorType::ObjectType(a, b))
                    && a@ == "commit"@ && b@ == object_kind_name(t)))
            },
            r matches Ok(c) ==> c.hash_view() == hash@,
            r matches Ok(c) ==> c.parent_view() == stored_header(store@, hash@).parent
                && c.second_parent_view() == stored_header(store@, hash@).second_parent
                && c.time_view() as int == stored_time(store@, hash@),
            r matches Ok(c) ==> (commit_blobs_ok(store@, hash@) ==> entries_blobs_ok(store@, c.tree_view().entries_view())),
            r matches Ok(c) ==> files_stored(store@, c),
            r matches Ok(c) ==> c.content_view() is Some,
    {
        let (obj_type, _, content) = match Self::parse_object(hash, store) {
            Ok(p) => p,
            Err(e) => return Err(e),
        };
        let text = match string_from_utf8(content) {
            Ok(t) => t,
            Err(_) => {
                let mut msg = String::from_str("invalid_content in commit object ");
                push_text(&mut msg, hash.as_str());
                return Err(ErrorType::FormatError(msg));
            },
        };
        match obj_type {
            ObjectType::Commit => Commit::from_object(hash, text, store),
            _ => Err(ErrorType::ObjectType(String::from_str("commit"), obj_type.to_string())),
        }
    }
}

impl Commit {
    /// The commits reachable from this one, itself first, each once.
    pub fn get_commits_history(&self, store: &ObjectStore) -> (r: Result<Vec<Commit>, ErrorType>)
        ensures
            r matches Ok(v) ==> (self.content_view() is Some ==> forall|i: int| 0 <= i < v@.len() ==> (#[trigger] v@[i]).content_view() is Some),
            r matches Ok(v) ==> forall|i: int| 0 <= i < v@.len() ==> #[trigger] files_known(store@, v@[i], *self),
            r is Ok <==> commit_history(store@, *self, usize::MAX as nat) is Some,
            r matches Ok(v) ==> commit_history(store@, *self, usize::MAX as nat) matches Some(h)
                && stamps(v@) == without_repeats_stamps(h),
            r matches Ok(v) ==> v@.len() >= 1 && v@[0].hash_view() == self.hash_view()
                && commit_hashes(v@).no_duplicates(),
    {
        self.history_within(store, usize::MAX)
    }

    fn history_within(&self, store: &ObjectStore, depth: usize) -> (r: Result<Vec<Commit>, ErrorType>)
        ensures
            r matches Ok(v) ==> (self.content_view() is Some ==> forall|i: int| 0 <= i < v@.len() ==> (#[trigger] v@[i]).content_view() is Some),
            r matches Ok(v) ==> forall|i: int| 0 <= i < v@.len() ==> #[trigger] files_known(store@, v@[i], *self),
            r is Ok <==> commit_history(store@, *self, depth as nat) is Some,
            r matches Ok(v) ==> commit_history(store@, *self, depth as nat) matches Some(h)
                && stamps(v@) == without_repeats_stamps(h),
            r matches Ok(v) ==> v@.len() >= 1 && v@[0].hash_view() == self.hash_view()
                && commit_hashes(v@).no_duplicates(),
        decreases depth, 1nat,
    {
        let history = match self.history_rec_within(store, depth) {
            Ok(h) => h,
            Err(e) => return Err(e),
        };
        let ghost h = history@;
        let r = Self::drop_repeats(history);
        proof {
            lemma_stamps_without_repeats(h);
            assert forall|i: int| 0 <= i < r@.len() implies #[trigger] files_known(store@, r@[i], *self) by {
                assert(without_repeats(h).contains(r@[i]));
                lemma_without_repeats_contains(h, r@[i]);
                let j = choose|j: int| 0 <= j < h.len() && h[j] == r@[i];
                assert(files_known(store@, h[j], *self));
            }
            if self.content_view() is Some {
                assert forall|i: int| 0 <= i < r@.len() implies (#[trigger] r@[i]).content_view() is Some by {
                    assert(without_repeats(h).contains(r@[i]));
                    lemma_without_repeats_contains(h, r@[i]);
                    let j = choose|j: int| 0 <= j < h.len() && h[j] == r@[i];
                    assert(h[j].content_view() is Some);
                }
            }
        }
        Ok(r)
    }

    /// The commits of a list, each after the first with its hash dropped.
    pub fn drop_repeats(history: Vec<Commit>) -> (r: Vec<Commit>)
        ensures
            r@ == without_repeats(history@),
            commit_hashes(r@).no_duplicates(),
            history@.len() >= 1 ==> r@.len() >= 1 && r@[0] == history@[0],
    {
        let ghost h = history@;
        let n = history.len();
        let mut pending = history;
        let mut out: Vec<Commit> = Vec::new();
        let mut i: usize = 0;
        assert(h.subrange(0, 0) =~= Seq::<Commit>::empty());
        assert(h.subrange(0, n as int) =~= h);
        while i < n
            invariant
                n == h.len(),
                i <= n,
                pending@ == h.subrange(i as int, n as int),
                out@ == without_repeats(h.subrange(0, i as int)),
                commit_hashes(out@).no_duplicates(),
                i >= 1 ==> out@.len() >= 1 && out@[0] == h[0],
            decreases n - i,
        {
            let ghost prev = h.subrange(0, i as int);
            let ghost next = h.subrange(0, i + 1);
            assert(next.drop_last() =~= prev);
            let c = pending.remove(0);
            assert(c == h[i as int]);
            assert(pending@ =~= h.subrange(i + 1, n as int));
            let mut seen = false;
            let mut k: usize = 0;
            while k < out.len()
                invariant
                    k <= out@.len(),
                    seen == commit_hashes(out@).subrange(0, k as int).contains(c.hash_view()),
                decreases out.len() - k,
            {
                let same = out[k].hash.same_as(&c.hash);
                proof {
                    let a = commit_hashes(out@).subrange(0, k as int);
                    let b = commit_hashes(out@).subrange(0, k + 1);
                    assert(b =~= a.push(out@[k as int].hash_view()));
                    crate::index::lemma_push_contains_pub(a, out@[k as int].hash_view(), c.hash_view());
                }
                seen = seen || same;
                k = k + 1;
            }
            assert(commit_hashes(out@).subrange(0, out@.len() as int) =~= commit_hashes(out@));
            if !seen {
                let ghost before = out@;
                out.push(c);
                proof {
                    assert(commit_hashes(out@) =~= commit_hashes(before).push(h[i as int].hash_view()));
                    assert(commit_hashes(out@).no_duplicates()) by {
                        let hs = commit_hashes(out@);
                        assert forall|a: int, b: int| 0 <= a < hs.len() && 0 <= b < hs.len() && a != b implies hs[a] != hs[b] by {
                            if b == hs.len() - 1 && a < b {
                                assert(commit_hashes(before)[a] == hs[a]);
                            } else if a == hs.len() - 1 && b < a {
                                assert(commit_hashes(before)[b] == hs[b]);
                            } else {
                                assert(commit_hashes(before)[a] == hs[a]);
                                assert(commit_hashes(before)[b] == hs[b]);
                            }
                        }
                    }
                    if i == 0 {
                        assert(out@[0] == h[0]);
                    }
                }
            } else {
                proof {
                    if i == 0 {
                        assert(commit_hashes(out@).len() == 0);
                    }
                }
            }
            i = i + 1;
        }
        out
    }

    /// The commit and its ancestors, each parent's history after its child,
    /// first parents before second ones; a commit reached along two paths
    /// comes twice.
    pub fn get_commits_history_rec(&self, store: &ObjectStore) -> (r: Result<Vec<Commit>, ErrorType>)
        ensures
            r matches Ok(v) ==> (self.content_view() is Some ==> forall|i: int| 0 <= i < v@.len() ==> (#[trigger] v@[i]).content_view() is Some),
            r matches Ok(v) ==> forall|i: int| 0 <= i < v@.len() ==> #[trigger] files_known(store@, v@[i], *self),
            r is Ok <==> commit_history(store@, *self, usize::MAX as nat) is Some,
            r matches Ok(v) ==> commit_history(store@, *self, usize::MAX as nat) == Some(stamps(v@)),
            r matches Ok(v) ==> v@.len() >= 1 && v@[0].hash_view() == self.hash_view(),
    {
        self.history_rec_within(store, usize::MAX)
    }

    #[verifier::rlimit(60)]
    fn history_rec_within(&self, store: &ObjectStore, depth: usize) -> (r: Result<Vec<Commit>, ErrorType>)
        ensures
            r matches Ok(v) ==> (self.content_view() is Some ==> forall|i: int| 0 <= i < v@.len() ==> (#[trigger] v@[i]).content_view() is Some),
            r matches Ok(v) ==> forall|i: int| 0 <= i < v@.len() ==> #[trigger] files_known(store@, v@[i], *self),
            r is Ok <==> commit_history(store@, *self, depth as nat) is Some,
            r matches Ok(v) ==> commit_history(store@, *self, depth as nat) == Some(stamps(v@)),
            r matches Ok(v) ==> v@.len() >= 1 && v@[0].hash_view() == self.hash_view(),
        decreases depth, 0nat,
    {
        let mut history: Vec<Commit> = Vec::new();
        history.push(self.clone_commit());
        let ghost top = seq![stamp(*self)];
        assert(stamps(history@) =~= top);
        if let Some(parent1_hash) = &self.parent_hash {
            if depth == 0 {
                return Err(ErrorType::RepositoryError(String::from_str("commit history too deep")));
            }
            let ghost d = (depth - 1) as nat;
            let parent1_commit = match GitObject::read_commit(parent1_hash, store) {
                Ok(c) => c,
                Err(e) => return Err(e),
            };
            let mut sub_history = match parent1_commit.history_within(store, depth - 1) {
                Ok(h) => h,
                Err(e) => return Err(e),
            };
            assert(dedup_history(store@, parent1_hash@, d) == Some(stamps(sub_history@)));
            assert forall|i: int| 0 <= i < sub_history@.len() implies #[trigger] files_stored(store@, sub_history@[i]) by {
                assert(files_known(store@, sub_history@[i], parent1_commit));
            }
            assert(forall|i: int| 0 <= i < sub_history@.len() ==> (#[trigger] sub_history@[i]).content_view() is Some);
            if let Some(parent2_hash) = &self.second_parent_hash {
                let parent2_commit = match GitObject::read_commit(parent2_hash, store) {
                    Ok(c) => c,
                    Err(e) => return Err(e),
                };
                let parent2_sub_history = match parent2_commit.history_within(store, depth - 1) {
                    Ok(h) => h,
                    Err(e) => return Err(e),
                };
                assert(dedup_history(store@, parent2_hash@, d) == Some(stamps(parent2_sub_history@)));
                assert forall|i: int| 0 <= i < parent2_sub_history@.len() implies #[trigger] files_stored(store@, parent2_sub_history@[i]) by {
                    assert(files_known(store@, parent2_sub_history@[i], parent2_commit));
                }
                assert(forall|i: int| 0 <= i < parent2_sub_history@.len() ==> (#[trigger] parent2_sub_history@[i]).content_view() is Some);
                let ghost b1 = sub_history@;
                let ghost b2 = parent2_sub_history@;
                proof {
                    lemma_stamps_interleave(sub_history@, parent2_sub_history@);
                }
                let ghost both = sorted_newest_first(sub_history@ + parent2_sub_history@);
                sub_history = match Self::commits_ordered_by_date(sub_history, parent2_sub_history) {
                    Ok(h) => h,
                    Err(e) => return Err(e),
                };
                assert(stamps(sub_history@) =~= stamps(both).subrange(0, stamps(both).len() - 1));
                assert forall|i: int| 0 <= i < sub_history@.len() implies #[trigger] files_stored(store@, sub_history@[i]) by {
                    assert(sub_history@[i] == both[i]);
                    assert(both.contains(both[i]));
                    lemma_sorted_contains(b1 + b2, both[i]);
                    let j = choose|j: int| 0 <= j < (b1 + b2).len() && (b1 + b2)[j] == both[i];
                    if j < b1.len() { assert(files_stored(store@, b1[j])); } else { assert(files_stored(store@, b2[j - b1.len()])); }
                }
                assert forall|i: int| 0 <= i < sub_history@.len() implies (#[trigger] sub_history@[i]).content_view() is Some by {
                    assert(sub_history@[i] == both[i]);
                    assert(both.contains(both[i]));
                    lemma_sorted_contains(b1 + b2, both[i]);
                    let j = choose|j: int| 0 <= j < (b1 + b2).len() && (b1 + b2)[j] == both[i];
                    if j < b1.len() { assert(b1[j].content_view() is Some); } else { assert(b2[j - b1.len()].content_view() is Some); }
                }
            }
            assert(commit_history(store@, *self, depth as nat) == Some(top + stamps(sub_history@)));
            let mut k: usize = 0;
            while k < sub_history.len()
                invariant
                    k <= sub_history@.len(),
                    history@.len() >= 1,
                    history@[0].hash_view() == self.hash_view(),
                    stamps(history@) == top + stamps(sub_history@).subrange(0, k as int),
                    forall|i: int| 0 <= i < sub_history@.len() ==> #[trigger] files_stored(store@, sub_history@[i]),
                    forall|i: int| 0 <= i < history@.len() ==> #[trigger] files_known(store@, history@[i], *self),
                    forall|i: int| 0 <= i < sub_history@.len() ==> (#[trigger] sub_history@[i]).content_view() is Some,
                    self.content_view() is Some ==> forall|i: int| 0 <= i < history@.len() ==> (#[trigger] history@[i]).content_view() is Some,
                decreases sub_history.len() - k,
            {
                let c = sub_history[k].clone_commit();
                assert(files_stored(store@, sub_history@[k as int]));
                let ghost before = history@;
                history.push(c);
                assert(files_known(store@, history@[history@.len() - 1], *self));
                assert(stamps(history@) =~= stamps(before).push(stamp(sub_history@[k as int])));
                assert(stamps(sub_history@).subrange(0, k + 1) =~= stamps(sub_history@).subrange(0, k as int).push(stamp(sub_history@[k as int])));
                k = k + 1;
            }
            assert(stamps(sub_history@).subrange(0, k as int) =~= stamps(sub_history@));
        }
        Ok(history)
    }

    /// A copy of the commit.
    pub fn clone_commit(&self) -> (r: Self)
        ensures
            r.hash_view() == self.hash_view(),
            r.parent_view() == self.parent_view(),
            r.second_parent_view() == self.second_parent_view(),
            r.author_view() == self.author_view(),
            r.committer_view() == self.committer_view(),
            r.message_view() == self.message_view(),
            r.time_view() == self.time_view(),
            files_of(r) == files_of(*self),
            r.content_view() == self.content_view(),
            entries_content(r.tree_view().entries_view()) == entries_content(self.tree_view().entries_view()),
    {
        self.clone()
    }
}

/// The hash of the last commit of `b` whose hash appears in `a`.
pub open spec fn last_common(a: Seq<Seq<char>>, b: Seq<Commit>) -> Option<Seq<char>>
    decreases b.len(),
{
    if b.len() == 0 {
        None
    } else if a.contains(b.last().hash_view()) {
        Some(b.last().hash_view())
    } else {
        last_common(a, b.drop_last())
    }
}

/// Whether interleaving two histories leaves nothing to keep: the newest
/// commit is the one they last share, or there is no commit at all.
pub open spec fn interleave_fails(b1: Seq<Commit>, b2: Seq<Commit>) -> bool {
    let s = sorted_newest_first(b1 + b2);
    s.len() == 0 || last_common(commit_hashes(b1), b2) == Some(s[0].hash_view())
}

impl Commit {
    /// Position at which a commit of time `t` goes in a list sorted newest
    /// first: after every commit at least as new.
    fn newer_count(s: &Vec<Commit>, t: i64) -> (k: usize)
        ensures
            k == count_newer(s@, t),
    {
        let mut k: usize = 0;
        assert(s@.subrange(0, s@.len() as int) =~= s@);
        while k < s.len() && s[k].author_date.timestamp >= t
            invariant
                k <= s@.len(),
                count_newer(s@, t) == k + count_newer(s@.subrange(k as int, s@.len() as int), t),
            decreases s.len() - k,
        {
            proof {
                let r = s@.subrange(k as int, s@.len() as int);
                assert(r.drop_first() =~= s@.subrange(k + 1, s@.len() as int));
            }
            k = k + 1;
        }
        k
    }

    /// Two histories interleaved newest first, without the oldest commit.
    /// Where the newest commit is the last one of the second history that
    /// the first also holds, or where there is none, nothing can be kept
    /// and the result is an error.
    pub fn commits_ordered_by_date(branch1_history: Vec<Commit>, branch2_history: Vec<Commit>) -> (r: Result<Vec<Commit>, ErrorType>)
        ensures
            interleave_fails(branch1_history@, branch2_history@) ==> r is Err,
            !interleave_fails(branch1_history@, branch2_history@) ==> (r matches Ok(v) && v@ ==
                sorted_newest_first(branch1_history@ + branch2_history@).subrange(
                    0, sorted_newest_first(branch1_history@ + branch2_history@).len() - 1)),
    {
        let ghost b1 = branch1_history@;
        let ghost b2 = branch2_history@;
        let mut last_common_ancestor: Option<GitHash> = None;
        let mut j: usize = 0;
        assert(b2.subrange(0, 0) =~= Seq::<Commit>::empty());
        while j < branch2_history.len()
            invariant
                j <= b2.len(),
                b2 == branch2_history@,
                b1 == branch1_history@,
                opt_hash(last_common_ancestor) == last_common(commit_hashes(b1), b2.subrange(0, j as int)),
            decreases branch2_history.len() - j,
        {
            let c = &branch2_history[j];
            let mut found = false;
            let mut k: usize = 0;
            while k < branch1_history.len()
                invariant
                    k <= b1.len(),
                    b1 == branch1_history@,
                    found == commit_hashes(b1).subrange(0, k as int).contains(c.hash_view()),
                decreases branch1_history.len() - k,
            {
                let same = branch1_history[k].hash.same_as(&c.hash);
                proof {
                    let a = commit_hashes(b1).subrange(0, k as int);
                    assert(commit_hashes(b1).subrange(0, k + 1) =~= a.push(b1[k as int].hash_view()));
                    crate::index::lemma_push_contains_pub(a, b1[k as int].hash_view(), c.hash_view());
                }
                found = found || same;
                k = k + 1;
            }
            assert(commit_hashes(b1).subrange(0, b1.len() as int) =~= commit_hashes(b1));
            proof {
                let next = b2.subrange(0, j + 1);
                assert(next.drop_last() =~= b2.subrange(0, j as int));
                assert(next.last() == *c);
            }
            if found {
                last_common_ancestor = Some(c.get_hash());
            }
            j = j + 1;
        }
        assert(b2.subrange(0, b2.len() as int) =~= b2);
        let ghost all = b1 + b2;
        let mut pending = branch1_history;
        let mut rest = branch2_history;
        pending.append(&mut rest);
        assert(pending@ =~= all);
        let n = pending.len();
        let mut sorted: Vec<Commit> = Vec::new();
        let mut i: usize = 0;
        assert(all.subrange(0, 0) =~= Seq::<Commit>::empty());
        assert(all.subrange(0, n as int) =~= all);
        while i < n
            invariant
                n == all.len(),
                i <= n,
                pending@ == all.subrange(i as int, n as int),
                sorted@ == sorted_newest_first(all.subrange(0, i as int)),
            decreases n - i,
        {
            let c = pending.remove(0);
            assert(c == all[i as int]);
            let k = Self::newer_count(&sorted, c.author_date.timestamp);
            proof {
                let next = all.subrange(0, i + 1);
                assert(next.drop_last() =~= all.subrange(0, i as int));
                assert(next.last() == c);
                assert(pending@ =~= all.subrange(i + 1, n as int));
            }
            proof { lemma_count_newer_bound(sorted@, c.time_view()); }
            sorted.insert(k, c);
            i = i + 1;
        }
        let fails = if sorted.len() == 0 {
            true
        } else {
            match &last_common_ancestor {
                Some(h) => sorted[0].hash.same_as(h),
                None => false,
            }
        };
        if fails {
            return Err(ErrorType::RepositoryError(String::from_str(
                "the newest commit of a merged history is the commit both sides share",
            )));
        }
        let len = sorted.len();
        sorted.truncate(len - 1);
        Ok(sorted)
    }
}

impl Commit {
    /// The first commit of the second history that the first one also holds.
    pub fn common_ancestor(history1: &Vec<Commit>, history2: Vec<Commit>) -> (r: Option<Commit>)
        ensures
            r == first_common(commit_hashes(history1@), history2@),
    {
        let ghost a = commit_hashes(history1@);
        let ghost b = history2@;
        let mut pending = history2;
        let n = pending.len();
        let mut i: usize = 0;
        assert(b.subrange(0, n as int) =~= b);
        while i < n
            invariant
                n == b.len(),
                i <= n,
                pending@ == b.subrange(i as int, n as int),
                a == commit_hashes(history1@),
                b == history2@,
                first_common(a, b) == first_common(a, b.subrange(i as int, n as int)),
            decreases n - i,
        {
            let c = pending.remove(0);
            proof {
                let rest = b.subrange(i as int, n as int);
                assert(rest[0] == c);
                assert(rest.drop_first() =~= b.subrange(i + 1, n as int));
                assert(pending@ =~= b.subrange(i + 1, n as int));
            }
            let mut found = false;
            let mut k: usize = 0;
            while k < history1.len()
                invariant
                    k <= history1@.len(),
                    a == commit_hashes(history1@),
                    found == a.subrange(0, k as int).contains(c.hash_view()),
                decreases history1.len() - k,
            {
                let same = history1[k].hash.same_as(&c.hash);
                proof {
                    let x = a.subrange(0, k as int);
                    assert(a.subrange(0, k + 1) =~= x.push(history1@[k as int].hash_view()));
                    crate::index::lemma_push_contains_pub(x, history1@[k as int].hash_view(), c.hash_view());
                }
                found = found || same;
                k = k + 1;
            }
            assert(a.subrange(0, a.len() as int) =~= a);
            if found {
                proof {
                    let rest = b.subrange(i as int, n as int);
                    assert(rest.len() > 0 && rest[0] == c);
                    assert(first_common(a, rest) == Some(c));
                }
                return Some(c);
            }
            i = i + 1;
        }
        None
    }

    /// The newest commit that both histories hold: the first of the other's
    /// history that this one's history holds. The histories are read from
    /// the store; an error where either cannot be read.
    pub fn last_common_ancestor(&self, other: &Commit, store: &ObjectStore) -> (r: Result<Option<Commit>, ErrorType>)
        ensures
            r is Ok <==> commit_history(store@, *self, usize::MAX as nat) is Some
                && commit_history(store@, *other, usize::MAX as nat) is Some,
            r matches Ok(o) ==> (commit_history(store@, *self, usize::MAX as nat) matches Some(a)
                && commit_history(store@, *other, usize::MAX as nat) matches Some(b)
                && opt_commit_hash(o) == first_common_stamp(stamp_hashes(without_repeats_stamps(a)), without_repeats_stamps(b))),
            r matches Ok(o) ==> exists|h1: Seq<Commit>, h2: Seq<Commit>| #[trigger] first_common(commit_hashes(h1), h2) == o
                && histories_of(h1, h2, self.hash_view(), other.hash_view()),
            r matches Ok(Some(a)) ==> files_known(store@, a, *other),
    {
        let history1 = match self.get_commits_history(store) {
            Ok(h) => h,
            Err(e) => return Err(e),
        };
        let history2 = match other.get_commits_history(store) {
            Ok(h) => h,
            Err(e) => return Err(e),
        };
        let ghost h2 = history2@;
        let r = Self::common_ancestor(&history1, history2);
        assert(histories_of(history1@, h2, self.hash_view(), other.hash_view()));
        proof {
            lemma_stamp_hashes(history1@);
            lemma_stamps_first_common(commit_hashes(history1@), h2);
            lemma_first_common_in(commit_hashes(history1@), h2);
            if r is Some {
                let a = r->Some_0;
                let j = choose|j: int| 0 <= j < h2.len() && h2[j] == a;
                assert(files_known(store@, h2[j], *other));
            }
        }
        Ok(r)
    }

    /// What `log` shows of the commit: its hash and the references that
    /// point to it, its author, its date and its message.
    pub fn log_display(&self, refs: &Vec<String>) -> (r: String)
        ensures
            r@ == log_text(self.hash_view(), views(refs@), self.author_view().name, self.author_view().mail,
                self.date_text_view(), self.message_view()),
    {
        let mut text = String::from_str("commit: ");
        push_text(&mut text, self.hash.as_str());
        if refs.len() > 0 {
            let joined = join_strings(refs, ", ");
            push_text(&mut text, " (");
            push_text(&mut text, joined.as_str());
            push_text(&mut text, ")");
        }
        push_text(&mut text, "\nAuthor: ");
        let name = self.author.get_name();
        push_text(&mut text, name.as_str());
        push_text(&mut text, " <");
        let mail = self.author.get_mail();
        push_text(&mut text, mail.as_str());
        push_text(&mut text, ">\nDate: ");
        push_text(&mut text, self.author_date.display.as_str());
        push_text(&mut text, "\n\n\t");
        push_text(&mut text, self.message.as_str());
        push_text(&mut text, "\n");
        proof {
            reveal_strlit(" (");
            reveal_strlit(")");
        }
        assert(text@ =~= log_text(self.hash_view(), views(refs@), self.author_view().name, self.author_view().mail,
            self.author_date.display@, self.message_view()));
        text
    }

    /// The `commit` command on an index: the user must be configured and the
    /// message given as the one argument. The index's files become the
    /// commit's tree; the commit and its tree are stored, and the index's
    /// changes are marked as committed. With a user and one argument the
    /// only failure left is a hash in the index that is not hexadecimal, so
    /// that the tree's object cannot be written.
    pub fn commit_command(
        index: &mut Index,
        parent_hash: Option<GitHash>,
        second_parent_hash: Option<GitHash>,
        user: Option<User>,
        args: Vec<String>,
        store: &mut ObjectStore,
    ) -> (r: Result<Commit, ErrorType>)
        ensures
            user is None ==> (r matches Err(ErrorType::ConfigError(_)) && final(index)@ == old(index)@
                && final(store)@ == old(store)@ && final(store).written_view() == old(store).written_view()),
            user is Some && args@.len() != 1 ==> (r matches Err(ErrorType::CommandError(_)) && final(index)@ == old(index)@
                && final(store)@ == old(store)@ && final(store).written_view() == old(store).written_view()),
            user is Some && args@.len() == 1 ==> (r is Ok || r matches Err(ErrorType::Parse(_))),
            user is Some && args@.len() == 1 && (forall|p: Seq<char>| #[trigger] old(index)@.contains_key(p)
                ==> hash_binary(old(index)@[p].current) is Some) ==> r is Ok,
            r matches Ok(c) ==> {
                &&& args@.len() == 1 && c.message_view() == args@[0]@
                &&& c.parent_view() == opt_hash(parent_hash)
                &&& c.second_parent_view() == opt_hash(second_parent_hash)
                &&& exists|s: Seq<IndexEntry>| #![trigger entries_map(s)] distinct_paths(s) && entries_map(s) == old(index)@
                    && forall|p: Seq<Seq<char>>| #[trigger] c.tree_view().lookup(p) == index_lookup(s, p)
                &&& final(index)@ == old(index)@.map_values(|e: IndexEntry| IndexEntry { previous: None, ..e })
                &&& c.content_view() matches Some(t) && c.hash_view() == object_hash(encode_utf8(t), ObjectType::Commit)
                    && object_parts(final(store)@, c.hash_view()) == Some((ObjectType::Commit, encode_utf8(t).len(), encode_utf8(t)))
                &&& final(store)@ == stored_after(old(store)@, commit_saves(c))
                &&& final(store).written_view() == old(store).written_view() + commit_saves(c)
            },
    {
        let user = match user {
            Some(u) => u,
            None => return Err(ErrorType::ConfigError(String::from_str(
                "User name and mail should be set before commiting (use 'git-rustico config --user-name <name> --user-mail <mail>')",
            ))),
        };
        let message = match Self::parse_args(args) {
            Ok(m) => m,
            Err(e) => return Err(e),
        };
        let files = index.as_files_vector();
        let ghost s = info_views(files@);
        proof {
            crate::index::lemma_entries_map_distinct(s);
            if forall|p: Seq<char>| #[trigger] old(index)@.contains_key(p) ==> hash_binary(old(index)@[p].current) is Some {
                assert forall|i: int| 0 <= i < files@.len() implies hash_binary(#[trigger] info_views(files@)[i].current) is Some by {
                    assert(entries_map(s).contains_key(s[i].path));
                }
            }
        }
        let index_tree = match Tree::from_index(files) {
            Ok(t) => t,
            Err(e) => return Err(e),
        };
        let commit = match Self::new(index_tree, parent_hash, second_parent_hash, message.as_str(), user) {
            Ok(c) => c,
            Err(e) => return Err(e),
        };
        match commit.save(store) {
            Ok(()) => {},
            Err(e) => return Err(e),
        }
        index.reset_previous_blob_hash();
        assert(entries_map(s) == old(index)@);
        Ok(commit)
    }
}

/// What `log` shows of a commit.
pub open spec fn log_text(hash: Seq<char>, refs: Seq<Seq<char>>, name: Seq<char>, mail: Seq<char>, date: Seq<char>, message: Seq<char>) -> Seq<char> {
    "commit: "@ + hash + (if refs.len() > 0 { " ("@ + join_with(refs, ", "@) + ")"@ } else { Seq::empty() })
        + "\nAuthor: "@ + name + " <"@ + mail + ">\nDate: "@ + date + "\n\n\t"@ + message + "\n"@
}

} // verus!