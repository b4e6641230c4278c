use vstd::prelude::*;
use crate::errors::ErrorType;
use crate::config::RepoConfig;
use crate::refs::BranchRef;
use crate::git_object::ObjectStore;
use crate::assoc::{assoc_map, distinct_keys, find_key, lemma_assoc_update, lemma_assoc_push, lemma_assoc_absent,
    lemma_assoc_distinct, lemma_assoc_remove, lemma_assoc_len};
use crate::utils::{get_current_date_time, date_time_shape};
use crate::config::config_lines;
use crate::commit::commit_ok;
use crate::text::{lines, lines_of, views, split_on, split_char, join_with, join_strings, push_text, text_eq,
    usize_to_decimal, decimal, sort_strings, sorted_texts, not_found, plain_line, lemma_lines_join, lemma_split_on_cons,
    lemma_split_on_none};
use crate::http_protocol::{contains_text, contains_str};

verus! {

/// A tag: a name given to a commit, with who made it, when, and an optional
/// message.
pub struct Tag {
    name: String,
    creator: String,
    hash_commit: String,
    message: Option<String>,
    date_time: String,
}

/// What a tag records besides its name: creator, commit, date and message.
pub type TagData = (Seq<char>, Seq<char>, Seq<char>, Option<Seq<char>>);

/// A line of the tags file: `name;creator;commit;date;message`, the
/// message empty where there is none.
pub open spec fn tag_line(name: Seq<char>, d: TagData) -> Seq<char> {
    name + ";"@ + d.0 + ";"@ + d.1 + ";"@ + d.2 + ";"@ + match d.3 { Some(m) => m, None => Seq::empty() }
}

/// The tag a line of the tags file holds, if it has five fields.
pub open spec fn parse_tag_line(line: Seq<char>) -> Option<(Seq<char>, TagData)> {
    let parts = split_on(line, ';');
    if parts.len() != 5 {
        None
    } else {
        Some((parts[0], (parts[1], parts[2], parts[3], if parts[4].len() == 0 { None } else { Some(parts[4]) })))
    }
}

/// The tags of the first `n` lines of the tags file, in order.
pub open spec fn tag_entries(ls: Seq<Seq<char>>, n: nat) -> Option<Seq<(Seq<char>, TagData)>>
    decreases n,
{
    if n == 0 {
        Some(Seq::empty())
    } else {
        match tag_entries(ls, (n - 1) as nat) {
            Some(es) => match parse_tag_line(ls[n - 1]) {
                Some(e) => Some(es.push(e)),
                None => None,
            },
            None => None,
        }
    }
}

/// The tags a tags file's text holds, by name (a later line for a name
/// replacing an earlier one); `None` where a line is not a tag.
pub open spec fn tags_of_text(text: Seq<char>) -> Option<Map<Seq<char>, TagData>> {
    match tag_entries(lines(text), lines(text).len()) {
        Some(es) => Some(assoc_map(es)),
        None => None,
    }
}

/// A list of tags as names and data.
pub open spec fn tag_pairs(v: Seq<Tag>) -> Seq<(Seq<char>, TagData)> {
    v.map_values(|t: Tag| (t.name_view(), t.data_view()))
}

/// The lines of the tags file for a list of tags.
pub open spec fn tag_lines(v: Seq<Tag>) -> Seq<Seq<char>> {
    v.map_values(|t: Tag| tag_line(t.name_view(), t.data_view()))
}

/// How `show-ref` shows a tag: its name (followed by the message, where
/// there is one) and its commit.
pub open spec fn shown_tag(m: Map<Seq<char>, TagData>, n: Seq<char>) -> (Seq<char>, Seq<char>) {
    (match m[n].3 { Some(msg) => n + " "@ + msg, None => n }, m[n].1)
}

/// Whether a line of `show-ref`'s tag listing shows one of the tags.
pub open spec fn shows_tag(m: Map<Seq<char>, TagData>, shown: Seq<char>, hash: Seq<char>) -> bool {
    exists|n: Seq<char>| #[trigger] m.contains_key(n) && (shown, hash) == shown_tag(m, n)
}

/// A field of the tags file: no `;` and no line break in it.
pub open spec fn plain_field(f: Seq<char>) -> bool {
    !f.contains(';') && !f.contains('\n')
}

/// Whether a tag can be written to the tags file and read back: its fields
/// are plain, and a message is not empty and does not end in a carriage
/// return.
pub open spec fn plain_tag(name: Seq<char>, d: TagData) -> bool {
    &&& plain_field(name) && plain_field(d.0) && plain_field(d.1) && plain_field(d.2)
    &&& match d.3 {
        Some(m) => plain_field(m) && m.len() > 0 && m.last() != '\r',
        None => true,
    }
}

/// Two texts without a character, one after the other, have none either.
proof fn lemma_concat_lacks(a: Seq<char>, b: Seq<char>, c: char)
    requires
        !a.contains(c),
        !b.contains(c),
    ensures
        !(a + b).contains(c),
{
    if (a + b).contains(c) {
        let i = choose|i: int| 0 <= i < (a + b).len() && (a + b)[i] == c;
        if i < a.len() {
            assert(a[i] == c);
        } else {
            assert(b[i - a.len()] == c);
        }
    }
}

/// A plain tag's line reads back as the tag.
proof fn lemma_tag_line_roundtrip(name: Seq<char>, d: TagData)
    requires
        plain_tag(name, d),
    ensures
        parse_tag_line(tag_line(name, d)) == Some((name, d)),
        plain_line(tag_line(name, d)),
        tag_line(name, d).len() > 0,
{
    reveal_strlit(";");
    let sc = seq![';'];
    let m = match d.3 { Some(x) => x, None => Seq::empty() };
    let line = name + sc + d.0 + sc + d.1 + sc + d.2 + sc + m;
    assert(tag_line(name, d) =~= line);
    assert(!m.contains(';') && !m.contains('\n')) by {
        if d.3 is None {
            assert(m =~= Seq::<char>::empty());
        }
    }
    lemma_split_on_none(m, ';');
    lemma_split_on_cons(d.2, ';', m);
    lemma_split_on_cons(d.1, ';', d.2 + sc + m);
    lemma_split_on_cons(d.0, ';', d.1 + sc + d.2 + sc + m);
    lemma_split_on_cons(name, ';', d.0 + sc + d.1 + sc + d.2 + sc + m);
    assert(line =~= name + sc + (d.0 + sc + (d.1 + sc + (d.2 + sc + m))));
    assert(d.0 + sc + d.1 + sc + d.2 + sc + m =~= d.0 + sc + (d.1 + sc + (d.2 + sc + m)));
    assert(d.1 + sc + d.2 + sc + m =~= d.1 + sc + (d.2 + sc + m));
    let parts = split_on(line, ';');
    assert(parts =~= seq![name, d.0, d.1, d.2, m]);
    assert(d.3 == (if m.len() == 0 { None } else { Some(m) }));
    assert(!sc.contains('\n'));
    lemma_concat_lacks(name, sc, '\n');
    lemma_concat_lacks(name + sc, d.0, '\n');
    lemma_concat_lacks(name + sc + d.0, sc, '\n');
    lemma_concat_lacks(name + sc + d.0 + sc, d.1, '\n');
    lemma_concat_lacks(name + sc + d.0 + sc + d.1, sc, '\n');
    lemma_concat_lacks(name + sc + d.0 + sc + d.1 + sc, d.2, '\n');
    lemma_concat_lacks(name + sc + d.0 + sc + d.1 + sc + d.2, sc, '\n');
    lemma_concat_lacks(name + sc + d.0 + sc + d.1 + sc + d.2 + sc, m, '\n');
    if m.len() > 0 {
        assert(line.last() == m.last());
    } else {
        assert(line.last() == ';');
    }
}

/// The tags file that `write_file_tags` writes reads back, with
/// `read_file_tags`, as the same tags by name, where every tag is plain.
pub proof fn law_tags_file_roundtrip(tags: Seq<Tag>)
    requires
        forall|i: int| 0 <= i < tags.len() ==> plain_tag(#[trigger] tags[i].name_view(), tags[i].data_view()),
    ensures
        tags_of_text(join_with(tag_lines(tags), "\n"@)) == Some(assoc_map(tag_pairs(tags))),
{
    reveal_strlit("\n");
    assert("\n"@ =~= seq!['\n']);
    let ls = tag_lines(tags);
    assert forall|i: int| 0 <= i < ls.len() implies plain_line(#[trigger] ls[i]) && ls[i].len() > 0 by {
        lemma_tag_line_roundtrip(tags[i].name_view(), tags[i].data_view());
    }
    lemma_lines_join(ls);
    lemma_tag_entries_all(tags, tags.len());
    assert(tag_pairs(tags).subrange(0, tags.len() as int) =~= tag_pairs(tags));
}

/// The first `n` lines of plain tags read back as the first `n` tags.
proof fn lemma_tag_entries_all(tags: Seq<Tag>, n: nat)
    requires
        n <= tags.len(),
        forall|i: int| 0 <= i < tags.len() ==> plain_tag(#[trigger] tags[i].name_view(), tags[i].data_view()),
    ensures
        tag_entries(tag_lines(tags), n) == Some(tag_pairs(tags).subrange(0, n as int)),
    decreases n,
{
    if n == 0 {
        assert(tag_pairs(tags).subrange(0, 0) =~= Seq::<(Seq<char>, TagData)>::empty());
    } else {
        lemma_tag_entries_all(tags, (n - 1) as nat);
        let t = tags[n - 1];
        lemma_tag_line_roundtrip(t.name_view(), t.data_view());
        assert(tag_lines(tags)[n - 1] == tag_line(t.name_view(), t.data_view()));
        assert(tag_pairs(tags).subrange(0, n as int) =~= tag_pairs(tags).subrange(0, n - 1).push((t.name_view(), t.data_view())));
    }
}

/// What `tag` does: what it prints, the new text of the tags file where it
/// rewrites it, and its result.
pub struct TagOutput {
    pub printed: String,
    pub file_text: Option<String>,
    pub result: Result<String, ErrorType>,
}

/// Once a line fails, reading fails for longer prefixes.
proof fn lemma_tag_entries_none(ls: Seq<Seq<char>>, n: nat, m: nat)
    requires
        tag_entries(ls, n) is None,
        n <= m,
    ensures
        tag_entries(ls, m) is None,
    decreases m - n,
{
    if n < m {
        lemma_tag_entries_none(ls, n, (m - 1) as nat);
    }
}

impl Tag {
    /// The tag's name.
    pub closed spec fn name_view(&self) -> Seq<char> {
        self.name@
    }

    /// The tag's creator, commit, date and message.
    pub closed spec fn data_view(&self) -> TagData {
        (self.creator@, self.hash_commit@, self.date_time@, match self.message { Some(m) => Some(m@), None => None })
    }

    /// The tags of the tags file's text (`None` where there is no file), each
    /// name once, a later line for a name replacing an earlier one; an error
    /// where a line does not have five fields.
    pub fn read_file_tags(tags_text: Option<&str>) -> (r: Result<Vec<Tag>, ErrorType>)
        ensures
            tags_text is None ==> r matches Err(ErrorType::IOError(_)),
            tags_text matches Some(t) ==> match tags_of_text(t@) {
                Some(m) => r matches Ok(v) && distinct_keys(tag_pairs(v@)) && assoc_map(tag_pairs(v@)) == m,
                None => r matches Err(ErrorType::FormatError(e)) && e@ == "Error, in read file tags, format of file unkown."@,
            },
            r matches Ok(v) ==> distinct_keys(tag_pairs(v@)) && (tags_text matches Some(t)
                && tags_of_text(t@) == Some(assoc_map(tag_pairs(v@)))),
    {
        let text = match tags_text {
            Some(t) => t,
            None => return Err(ErrorType::IOError(not_found())),
        };
        let ls = lines_of(text);
        let ghost lv = views(ls@);
        let mut tags: Vec<Tag> = Vec::new();
        let mut k: usize = 0;
        assert(tag_pairs(tags@) =~= Seq::<(Seq<char>, TagData)>::empty());
        while k < ls.len()
            invariant
                k <= ls@.len(),
                lv == views(ls@),
                lv == lines(text@),
                tags_text == Some(text),
                distinct_keys(tag_pairs(tags@)),
                tag_entries(lv, k as nat) matches Some(es) && assoc_map(tag_pairs(tags@)) == assoc_map(es),
            decreases ls.len() - k,
        {
            assert(lv[k as int] == ls@[k as int]@);
            let parts = split_char(ls[k].as_str(), ';');
            if parts.len() != 5 {
                proof { lemma_tag_entries_none(lv, (k + 1) as nat, lv.len()); }
                return Err(ErrorType::FormatError(String::from_str("Error, in read file tags, format of file unkown.")));
            }
            let message = if parts[4].as_str().is_empty() { None } else { Some(parts[4].clone()) };
            proof {
                assert(views(parts@)[4] == parts@[4]@);
                if parts[4]@.len() == 0 {
                    assert(parts@[4]@.len() == 0);
                }
            }
            let tag = Tag {
                name: parts[0].clone(),
                creator: parts[1].clone(),
                hash_commit: parts[2].clone(),
                message,
                date_time: parts[3].clone(),
            };
            proof {
                assert(views(parts@)[0] == parts@[0]@ && views(parts@)[1] == parts@[1]@ && views(parts@)[2] == parts@[2]@
                    && views(parts@)[3] == parts@[3]@);
            }
            let ghost entry = (tag.name@, tag.data_view());
            assert(parse_tag_line(lv[k as int]) == Some(entry));
            let ghost s = tag_pairs(tags@);
            match find_key_tag(&tags, tag.name.as_str()) {
                Some(i) => {
                    proof { lemma_assoc_update(s, i as int, entry.1); }
                    tags.set(i, tag);
                    assert(tag_pairs(tags@) =~= s.update(i as int, (s[i as int].0, entry.1)));
                },
                None => {
                    proof {
                        lemma_assoc_absent(s, entry.0);
                        lemma_assoc_push(s, entry.0, entry.1);
                    }
                    tags.push(tag);
                    assert(tag_pairs(tags@) =~= s.push(entry));
                },
            }
            proof {
                let es = tag_entries(lv, k as nat)->0;
                assert(es.push(entry).drop_last() =~= es);
            }
            k = k + 1;
        }
        Ok(tags)
    }

    /// The tag's line in the tags file.
    pub fn parse_to_string(&self) -> (r: String)
        ensures
            r@ == tag_line(self.name_view(), self.data_view()),
    {
        let mut r = self.name.clone();
        push_text(&mut r, ";");
        push_text(&mut r, self.creator.as_str());
        push_text(&mut r, ";");
        push_text(&mut r, self.hash_commit.as_str());
        push_text(&mut r, ";");
        push_text(&mut r, self.date_time.as_str());
        push_text(&mut r, ";");
        match &self.message {
            Some(m) => push_text(&mut r, m.as_str()),
            None => {},
        }
        r
    }

    /// The text of a tags file holding these tags, a line each.
    pub fn write_file_tags(tags: &Vec<Tag>) -> (r: String)
        ensures
            r@ == join_with(tag_lines(tags@), "\n"@),
    {
        let mut lines: Vec<String> = Vec::new();
        let mut k: usize = 0;
        while k < tags.len()
            invariant
                k <= tags@.len(),
                views(lines@) == tag_lines(tags@).subrange(0, k as int),
            decreases tags.len() - k,
        {
            let ghost before = views(lines@);
            lines.push(tags[k].parse_to_string());
            assert(tag_lines(tags@)[k as int] == tag_line(tags@[k as int].name_view(), tags@[k as int].data_view()));
            assert(views(lines@) =~= before.push(views(lines@).last()));
            assert(views(lines@) =~= tag_lines(tags@).subrange(0, k + 1));
            k = k + 1;
        }
        assert(tag_lines(tags@).subrange(0, k as int)
            =~= tag_lines(tags@));
        join_strings(&lines, "\n")
    }

    /// The tags as `show-ref` lists them: the name (followed by the message,
    /// where there is one) and the commit.
    pub fn get_tags_for_show_refs(tags_text: Option<&str>) -> (r: Result<Vec<(String, String)>, ErrorType>)
        ensures
            tags_text is None ==> r is Err,
            tags_text matches Some(t) ==> (tags_of_text(t@) is None <==> r is Err),
            r matches Ok(v) ==> tags_text matches Some(t) && (tags_of_text(t@) matches Some(m)
                && v@.len() == m.dom().len()
                && (forall|i: int| 0 <= i < v@.len() ==> #[trigger] shows_tag(m, v@[i].0@, v@[i].1@))
                && (forall|n: Seq<char>| #[trigger] m.contains_key(n) ==> exists|i: int| 0 <= i < v@.len()
                    && (v@[i].0@, v@[i].1@) == shown_tag(m, n))),
    {
        let tags = match Self::read_file_tags(tags_text) {
            Ok(t) => t,
            Err(e) => return Err(e),
        };
        let ghost s = tag_pairs(tags@);
        proof { lemma_assoc_distinct(s); }
        let mut result: Vec<(String, String)> = Vec::new();
        let mut k: usize = 0;
        while k < tags.len()
            invariant
                k <= tags@.len(),
                s == tag_pairs(tags@),
                distinct_keys(s),
                result@.len() == k,
                forall|i: int| 0 <= i < k ==> (#[trigger] result@[i].0@, result@[i].1@) == shown_tag(assoc_map(s), s[i].0),
            decreases tags.len() - k,
        {
            let t = &tags[k];
            let shown = match &t.message {
                None => t.name.clone(),
                Some(m) => {
                    let mut x = t.name.clone();
                    push_text(&mut x, " ");
                    push_text(&mut x, m.as_str());
                    x
                },
            };
            proof { lemma_assoc_distinct(s); }
            assert(s[k as int].0 == t.name@);
            assert(assoc_map(s).contains_key(s[k as int].0));
            result.push((shown, t.hash_commit.clone()));
            k = k + 1;
        }
        proof {
            let m = assoc_map(s);
            lemma_assoc_distinct(s);
            lemma_assoc_len(s);
            assert forall|i: int| 0 <= i < result@.len() implies #[trigger] shows_tag(m, result@[i].0@, result@[i].1@) by {
                assert(m.contains_key(s[i].0));
            }
            assert forall|n: Seq<char>| #[trigger] m.contains_key(n) implies exists|i: int| 0 <= i < result@.len()
                && (result@[i].0@, result@[i].1@) == shown_tag(m, n) by {
                let i = choose|i: int| 0 <= i < s.len() && s[i].0 == n;
                assert((result@[i].0@, result@[i].1@) == shown_tag(m, s[i].0));
            }
        }
        Ok(result)
    }

    /// The commit a tag names; an error where there is no such tag.
    pub fn get_hash_of_tag(tags_text: Option<&str>, name_tag: &str) -> (r: Result<String, ErrorType>)
        ensures
            tags_text matches Some(t) ==> match tags_of_text(t@) {
                Some(m) => if m.contains_key(name_tag@) {
                    r matches Ok(h) && h@ == m[name_tag@].1
                } else {
                    r matches Err(ErrorType::RepositoryError(e)) && e@ == "Error, Not exist tag "@ + name_tag@ + "."@
                },
                None => r is Err,
            },
            tags_text is None ==> r is Err,
    {
        let tags = match Self::read_file_tags(tags_text) {
            Ok(t) => t,
            Err(e) => return Err(e),
        };
        let ghost s = tag_pairs(tags@);
        proof { lemma_assoc_distinct(s); }
        match find_key_tag(&tags, name_tag) {
            Some(i) => {
                assert(assoc_map(s).contains_key(s[i as int].0));
                Ok(tags[i].hash_commit.clone())
            },
            None => {
                proof { lemma_assoc_absent(s, name_tag@); }
                let mut e = String::from_str("Error, Not exist tag ");
                push_text(&mut e, name_tag);
                push_text(&mut e, ".");
                Err(ErrorType::RepositoryError(e))
            },
        }
    }
}

/// Position of the tag with this name, if any.
fn find_key_tag(tags: &Vec<Tag>, name: &str) -> (r: Option<usize>)
    ensures
        match r {
            Some(k) => k < tags@.len() && tag_pairs(tags@)[k as int].0 == name@,
            None => forall|i: int| 0 <= i < tags@.len() ==> tag_pairs(tags@)[i].0 != name@,
        },
{
    let mut k: usize = 0;
    while k < tags.len()
        invariant
            k <= tags@.len(),
            forall|i: int| 0 <= i < k ==> tag_pairs(tags@)[i].0 != name@,
        decreases tags.len() - k,
    {
        if text_eq(tags[k].name.as_str(), name) {
            return Some(k);
        }
        k = k + 1;
    }
    None
}


/// The arguments without any equal to `option`.
pub open spec fn without_option(args: Seq<Seq<char>>, option: Seq<char>) -> Seq<Seq<char>> {
    args.filter(|a: Seq<char>| a != option)
}

/// The arguments without any equal to an option.
fn delete_option(args: &Vec<String>, option: &str) -> (r: Vec<String>)
    ensures
        views(r@) == without_option(views(args@), option@),
{
    let ghost f = |a: Seq<char>| a != option@;
    let ghost all = views(args@);
    let mut out: Vec<String> = Vec::new();
    let mut k: usize = 0;
    while k < args.len()
        invariant
            k <= args@.len(),
            all == views(args@),
            f == (|a: Seq<char>| a != option@),
            views(out@) == all.subrange(0, k as int).filter(f),
        decreases args.len() - k,
    {
        let ghost before = views(out@);
        let ghost cur = all.subrange(0, k + 1);
        proof {
            reveal(Seq::filter);
            assert(cur.drop_last() =~= all.subrange(0, k as int));
            assert(cur.last() == args@[k as int]@);
        }
        if !text_eq(args[k].as_str(), option) {
            out.push(args[k].clone());
            assert(views(out@) =~= before.push(args@[k as int]@));
        }
        k = k + 1;
    }
    assert(all.subrange(0, k as int) =~= all);
    out
}

/// Whether an argument equals an option.
fn has_arg(args: &Vec<String>, option: &str) -> (r: bool)
    ensures
        r == views(args@).contains(option@),
{
    let mut k: usize = 0;
    while k < args.len()
        invariant
            k <= args@.len(),
            forall|i: int| 0 <= i < k ==> args@[i]@ != option@,
        decreases args.len() - k,
    {
        if text_eq(args[k].as_str(), option) {
            assert(views(args@)[k as int] == option@);
            return true;
        }
        k = k + 1;
    }
    proof {
        if views(args@).contains(option@) {
            let i = choose|i: int| 0 <= i < views(args@).len() && views(args@)[i] == option@;
            assert(args@[i]@ == option@);
        }
    }
    false
}

/// Whether a text is the name of one of the tags.
pub open spec fn is_tag_name(tags: Seq<Tag>, n: Seq<char>) -> bool {
    exists|j: int| 0 <= j < tags.len() && #[trigger] tags[j].name_view() == n
}

/// Whether `tag` lists a tag of this name: every tag without a pattern or
/// with an empty one, else those whose name holds the pattern.
pub open spec fn name_kept(n: Seq<char>, pattern: Option<Seq<char>>) -> bool {
    match pattern {
        Some(p) => p.len() == 0 || contains_text(n, p),
        None => true,
    }
}

/// The text of a pattern, where there is one.
pub open spec fn opt_text(p: Option<&str>) -> Option<Seq<char>> {
    match p {
        Some(t) => Some(t@),
        None => None,
    }
}

/// Whether `ns` is the listing of the tags of `m` that a pattern keeps:
/// those names, each once, in ascending order.
pub open spec fn tag_listing(ns: Seq<Seq<char>>, m: Map<Seq<char>, TagData>, pattern: Option<Seq<char>>) -> bool {
    &&& sorted_texts(ns)
    &&& ns.no_duplicates()
    &&& forall|n: Seq<char>| #[trigger] ns.contains(n) <==> (m.contains_key(n) && name_kept(n, pattern))
}

/// The names a listing of tags holds are those of the map the tags make.
proof fn lemma_listing_of(tags: Seq<Tag>, ns: Seq<Seq<char>>, pattern: Option<Seq<char>>)
    requires
        distinct_keys(tag_pairs(tags)),
        sorted_texts(ns),
        ns.no_duplicates(),
        forall|n: Seq<char>| #[trigger] ns.contains(n) <==> (is_tag_name(tags, n) && name_kept(n, pattern)),
    ensures
        tag_listing(ns, assoc_map(tag_pairs(tags)), pattern),
{
    let s = tag_pairs(tags);
    crate::assoc::lemma_assoc_distinct(s);
    assert forall|n: Seq<char>| #[trigger] ns.contains(n) <==> (assoc_map(s).contains_key(n) && name_kept(n, pattern)) by {
        if is_tag_name(tags, n) {
            let j = choose|j: int| 0 <= j < tags.len() && #[trigger] tags[j].name_view() == n;
            assert(s[j].0 == n);
        }
        if assoc_map(s).contains_key(n) {
            let i = choose|i: int| 0 <= i < s.len() && s[i].0 == n;
            assert(tags[i].name_view() == n);
        }
    }
}

/// The names of the tags, those that hold `pattern` where one is given,
/// in ascending order, each once.
fn sorted_names(tags: &Vec<Tag>, pattern: Option<&str>) -> (r: Vec<String>)
    requires
        distinct_keys(tag_pairs(tags@)),
    ensures
        sorted_texts(views(r@)),
        views(r@).no_duplicates(),
        forall|n: Seq<char>| #[trigger] views(r@).contains(n) <==> (is_tag_name(tags@, n) && name_kept(n, opt_text(pattern))),
{
    broadcast use vstd::seq_lib::group_to_multiset_ensures;
    let mut names: Vec<String> = Vec::new();
    let mut k: usize = 0;
    while k < tags.len()
        invariant
            k <= tags@.len(),
            distinct_keys(tag_pairs(tags@)),
            views(names@).no_duplicates(),
            forall|n: Seq<char>| #[trigger] views(names@).contains(n) <==> (exists|j: int| 0 <= j < k
                && #[trigger] tags@[j].name_view() == n && name_kept(n, opt_text(pattern))),
        decreases tags.len() - k,
    {
        let keep = match pattern {
            Some(p) => {
                if p.unicode_len() == 0 {
                    true
                } else {
                    contains_str(tags[k].name.as_str(), p)
                }
            },
            None => true,
        };
        let ghost nk = tags@[k as int].name_view();
        assert(keep == name_kept(nk, opt_text(pattern)));
        if keep {
            let ghost before = views(names@);
            proof {
                if before.contains(nk) {
                    let j = choose|j: int| 0 <= j < k && #[trigger] tags@[j].name_view() == nk && name_kept(nk, opt_text(pattern));
                    assert(tag_pairs(tags@)[j].0 == tag_pairs(tags@)[k as int].0);
                }
            }
            names.push(tags[k].name.clone());
            assert(views(names@) =~= before.push(nk));
            assert forall|n: Seq<char>| #[trigger] views(names@).contains(n) <==> (exists|j: int| 0 <= j < k + 1
                && #[trigger] tags@[j].name_view() == n && name_kept(n, opt_text(pattern))) by {
                if views(names@).contains(n) && n != nk {
                    assert(before.contains(n)) by {
                        let q = choose|q: int| 0 <= q < views(names@).len() && views(names@)[q] == n;
                        assert(before[q] == n);
                    }
                }
                if n == nk {
                    assert(views(names@)[before.len() as int] == nk);
                }
                if !views(names@).contains(n) && n != nk {
                    assert(!before.contains(n)) by {
                        if before.contains(n) {
                            let q = choose|q: int| 0 <= q < before.len() && before[q] == n;
                            assert(views(names@)[q] == n);
                        }
                    }
                }
            }
        } else {
            assert forall|n: Seq<char>| #[trigger] views(names@).contains(n) <==> (exists|j: int| 0 <= j < k + 1
                && #[trigger] tags@[j].name_view() == n && name_kept(n, opt_text(pattern))) by {
                if exists|j: int| 0 <= j < k + 1 && #[trigger] tags@[j].name_view() == n && name_kept(n, opt_text(pattern)) {
                    let j = choose|j: int| 0 <= j < k + 1 && #[trigger] tags@[j].name_view() == n && name_kept(n, opt_text(pattern));
                    if j == k {
                        assert(false);
                    }
                }
            }
        }
        k = k + 1;
    }
    let sorted = sort_strings(&names);
    proof {
        views(names@).lemma_multiset_has_no_duplicates();
        assert forall|x: Seq<char>| views(sorted@).to_multiset().contains(x) implies views(sorted@).to_multiset().count(x) == 1 by {
            assert(views(names@).to_multiset().contains(x));
        }
        views(sorted@).lemma_multiset_has_no_duplicates_conv();
        assert forall|n: Seq<char>| #[trigger] views(sorted@).contains(n) <==> (is_tag_name(tags@, n) && name_kept(n, opt_text(pattern))) by {
            vstd::seq_lib::to_multiset_contains(views(sorted@), n);
            vstd::seq_lib::to_multiset_contains(views(names@), n);
            if views(names@).contains(n) {
                let j = choose|j: int| 0 <= j < tags@.len() && #[trigger] tags@[j].name_view() == n && name_kept(n, opt_text(pattern));
                assert(is_tag_name(tags@, n));
            }
            if is_tag_name(tags@, n) && name_kept(n, opt_text(pattern)) {
                let j = choose|j: int| 0 <= j < tags@.len() && #[trigger] tags@[j].name_view() == n;
                assert(views(names@).contains(n));
            }
        }
    }
    sorted
}

impl Tag {
    /// The `tag` command. With no argument it lists the tags' names in
    /// order; `-l <pattern>` lists those that hold the pattern; `-v <name>`
    /// tells whether a tag exists; `-d <name>` deletes one (the file is
    /// rewritten either way); otherwise it creates a tag `<name>` (with
    /// `-m <message>`) at the head's commit, by the configured user, now.
    pub fn command_tag(
        args: &Vec<String>,
        tags_text: &str,
        path_config: &str,
        config_text: Option<&str>,
        head: &BranchRef,
        store: &ObjectStore,
    ) -> (r: TagOutput)
        ensures
            tags_of_text(tags_text@) is None ==> r.result is Err,
            args@.len() == 0 ==> (tags_of_text(tags_text@) matches Some(m) ==> exists|ns: Seq<Seq<char>>|
                #[trigger] tag_listing(ns, m, None) && r.printed@ == join_with(ns, "\n"@) + "\n"@
                && r.file_text is None && (r.result matches Ok(x) && x@ == decimal(ns.len()) + " tags were listed"@)),
            views(args@).contains("-l"@) && without_option(views(args@), "-l"@).len() == 1 ==>
                (tags_of_text(tags_text@) matches Some(m) ==> exists|ns: Seq<Seq<char>>|
                #[trigger] tag_listing(ns, m, Some(without_option(views(args@), "-l"@)[0]))
                && r.printed@ == join_with(ns, "\n"@) + "\n"@ && r.file_text is None
                && (r.result matches Ok(x) && x@ == decimal(ns.len()) + " tags were listed, whit contain "@
                    + without_option(views(args@), "-l"@)[0])),
            views(args@).contains("-l"@) && without_option(views(args@), "-l"@).len() != 1 ==>
                (r.result matches Err(ErrorType::RepositoryError(e)) && e@ == "Error, in argument to list tags."@),
            !views(args@).contains("-l"@) && views(args@).contains("-v"@)
                && without_option(views(args@), "-v"@).len() == 1 ==> (tags_of_text(tags_text@) matches Some(m) ==> {
                    let t = without_option(views(args@), "-v"@)[0];
                    r.result matches Ok(x) && x@ == (if m.contains_key(t) { "Exist tag: "@ } else { "Not exist tag: "@ }) + t + "."@
                }),
            !views(args@).contains("-l"@) && !views(args@).contains("-v"@) && views(args@).contains("-d"@)
                && without_option(views(args@), "-d"@).len() == 1 ==> (tags_of_text(tags_text@) matches Some(m) ==> {
                    let t = without_option(views(args@), "-d"@)[0];
                    &&& r.file_text is Some
                    &&& m.contains_key(t) ==> (r.result matches Ok(x) && x@ == "Tag "@ + t + " successfully removed."@)
                    &&& !m.contains_key(t) ==> (r.result matches Err(ErrorType::RepositoryError(e))
                        && e@ == "Error, Not exist tag: "@ + t + " to delete."@)
                }),
            args@.len() > 0 && !views(args@).contains("-l"@) && !views(args@).contains("-v"@) && !views(args@).contains("-d"@) ==>
                (r.result matches Ok(x) ==> (x@ == "Tag: "@ + args@[0]@ + ", created successfully."@
                    && (r.file_text matches Some(f) && tags_of_text(tags_text@) matches Some(m) && !m.contains_key(args@[0]@)
                    && exists|d: TagData| #[trigger] f@ == tags_text@ + tag_line(args@[0]@, d) + "\n"@
                        && d.3 == (if args@.len() > 2 && args@[1]@ == "-m"@ { Some(args@[2]@) } else { None })))),
            ({
                &&& args@.len() > 0 && !views(args@).contains("-l"@) && !views(args@).contains("-v"@)
                    && !views(args@).contains("-d"@)
                &&& config_text is Some
                &&& config_lines(lines(config_text->0@), 0, None, None) matches Some((Some(_), Some(_)))
                &&& head.branch_view() is Some
                &&& commit_ok(store@, head.branch_view()->0.hash_view())
                &&& tags_of_text(tags_text@) is Some
                &&& !tags_of_text(tags_text@)->0.contains_key(args@[0]@)
            }) ==> ({
                &&& r.result is Ok
                &&& r.file_text is Some
                &&& exists|d: TagData| #[trigger] r.file_text->0@ == tags_text@ + tag_line(args@[0]@, d) + "\n"@
                && d.0 == (config_lines(lines(config_text->0@), 0, None, None)->0).0->0 + " "@
                    + (config_lines(lines(config_text->0@), 0, None, None)->0).1->0
                && d.1 == head.branch_view()->0.hash_view()
                && date_time_shape(d.2)
                && d.3 == (if args@.len() > 2 && args@[1]@ == "-m"@ { Some(args@[2]@) } else { None })
            }),
            r.result is Err ==> (r.file_text is Some ==> views(args@).contains("-d"@)),
    {
        if args.len() == 0 {
            return match Self::read_file_tags(Some(tags_text)) {
                Err(e) => TagOutput { printed: String::new(), file_text: None, result: Err(e) },
                Ok(tags) => {
                    let names = sorted_names(&tags, None);
                    proof { lemma_listing_of(tags@, views(names@), None); }
                    let mut printed = join_strings(&names, "\n");
                    push_text(&mut printed, "\n");
                    let mut m = usize_to_decimal(names.len());
                    push_text(&mut m, " tags were listed");
                    TagOutput { printed, file_text: None, result: Ok(m) }
                },
            };
        }
        if has_arg(args, "-l") {
            let arg = delete_option(args, "-l");
            if arg.len() != 1 {
                return TagOutput { printed: String::new(), file_text: None,
                    result: Err(ErrorType::RepositoryError(String::from_str("Error, in argument to list tags."))) };
            }
            return match Self::read_file_tags(Some(tags_text)) {
                Err(e) => TagOutput { printed: String::new(), file_text: None, result: Err(e) },
                Ok(tags) => {
                    let names = sorted_names(&tags, Some(arg[0].as_str()));
                    proof { lemma_listing_of(tags@, views(names@), Some(arg@[0]@)); }
                    let mut printed = join_strings(&names, "\n");
                    push_text(&mut printed, "\n");
                    let mut m = usize_to_decimal(names.len());
                    push_text(&mut m, " tags were listed, whit contain ");
                    push_text(&mut m, arg[0].as_str());
                    assert(views(arg@)[0] == arg@[0]@);
                    assert(views(names@).len() == names@.len());
                    assert(tag_listing(views(names@), tags_of_text(tags_text@)->0, Some(without_option(views(args@), "-l"@)[0])));
                    TagOutput { printed, file_text: None, result: Ok(m) }
                },
            };
        }
        if has_arg(args, "-v") {
            let arg = delete_option(args, "-v");
            if arg.len() != 1 {
                return TagOutput { printed: String::new(), file_text: None,
                    result: Err(ErrorType::RepositoryError(String::from_str("Error, in argument to Verify tags."))) };
            }
            return match Self::read_file_tags(Some(tags_text)) {
                Err(e) => TagOutput { printed: String::new(), file_text: None, result: Err(e) },
                Ok(tags) => {
                    let ghost s = tag_pairs(tags@);
                    proof { lemma_assoc_distinct(s); }
                    let exists = match find_key_tag(&tags, arg[0].as_str()) {
                        Some(i) => {
                            assert(assoc_map(s).contains_key(s[i as int].0));
                            true
                        },
                        None => {
                            proof { lemma_assoc_absent(s, arg@[0]@); }
                            false
                        },
                    };
                    let mut m = if exists { String::from_str("Exist tag: ") } else { String::from_str("Not exist tag: ") };
                    push_text(&mut m, arg[0].as_str());
                    push_text(&mut m, ".");
                    let mut printed = m.clone();
                    push_text(&mut printed, "\n");
                    TagOutput { printed, file_text: None, result: Ok(m) }
                },
            };
        }
        if has_arg(args, "-d") {
            let arg = delete_option(args, "-d");
            if arg.len() != 1 {
                return TagOutput { printed: String::new(), file_text: None,
                    result: Err(ErrorType::RepositoryError(String::from_str("Error, in argument to Delete tags."))) };
            }
            return match Self::read_file_tags(Some(tags_text)) {
                Err(e) => TagOutput { printed: String::new(), file_text: None, result: Err(e) },
                Ok(tags) => {
                    let mut tags = tags;
                    let ghost s = tag_pairs(tags@);
                    proof { lemma_assoc_distinct(s); }
                    let name = arg[0].as_str();
                    let result = match find_key_tag(&tags, name) {
                        Some(i) => {
                            assert(assoc_map(s).contains_key(s[i as int].0));
                            tags.remove(i);
                            let mut m = String::from_str("Tag ");
                            push_text(&mut m, name);
                            push_text(&mut m, " successfully removed.");
                            Ok(m)
                        },
                        None => {
                            proof { lemma_assoc_absent(s, name@); }
                            let mut e = String::from_str("Error, Not exist tag: ");
                            push_text(&mut e, name);
                            push_text(&mut e, " to delete.");
                            Err(ErrorType::RepositoryError(e))
                        },
                    };
                    let file_text = Self::write_file_tags(&tags);
                    let mut printed = String::from_str("Tag ");
                    push_text(&mut printed, name);
                    push_text(&mut printed, " successfully removed.\n");
                    TagOutput { printed, file_text: Some(file_text), result }
                },
            };
        }
        let config = match RepoConfig::open(path_config, config_text) {
            Ok(c) => c,
            Err(e) => return TagOutput { printed: String::new(), file_text: None, result: Err(e) },
        };
        let creator = match config.get_user() {
            None => return TagOutput { printed: String::new(), file_text: None,
                result: Err(ErrorType::ConfigError(String::from_str("Error not data user yet."))) },
            Some(u) => {
                let mut c = u.get_name();
                push_text(&mut c, " ");
                push_text(&mut c, u.get_mail().as_str());
                c
            },
        };
        let hash_commit = match head.get_last_commit(store) {
            Ok(Some(c)) => c.get_hash().to_string(),
            Ok(None) => return TagOutput { printed: String::new(), file_text: None,
                result: Err(ErrorType::RepositoryError(String::from_str("Error in get last commit HEAD, for tag."))) },
            Err(e) => return TagOutput { printed: String::new(), file_text: None, result: Err(e) },
        };
        let tags = match Self::read_file_tags(Some(tags_text)) {
            Ok(t) => t,
            Err(e) => return TagOutput { printed: String::new(), file_text: None, result: Err(e) },
        };
        let name = args[0].clone();
        let ghost s = tag_pairs(tags@);
        proof { lemma_assoc_distinct(s); }
        match find_key_tag(&tags, name.as_str()) {
            Some(i) => {
                assert(assoc_map(s).contains_key(s[i as int].0));
                let mut e = String::from_str("Error, in name to create tag, tag ");
                push_text(&mut e, name.as_str());
                push_text(&mut e, " already exist.");
                return TagOutput { printed: String::new(), file_text: None, result: Err(ErrorType::RepositoryError(e)) };
            },
            None => {
                proof { lemma_assoc_absent(s, name@); }
            },
        }
        let message = if args.len() > 2 && text_eq(args[1].as_str(), "-m") { Some(args[2].clone()) } else { None };
        let date_time = match get_current_date_time() {
            Ok(d) => d,
            Err(e) => return TagOutput { printed: String::new(), file_text: None, result: Err(e) },
        };
        let tag = Tag { name: name.clone(), creator, hash_commit, message, date_time };
        let line = tag.parse_to_string();
        let mut file_text = String::from_str(tags_text);
        push_text(&mut file_text, line.as_str());
        push_text(&mut file_text, "\n");
        assert(file_text@ == tags_text@ + tag_line(args@[0]@, tag.data_view()) + "\n"@);
        assert(date_time_shape(tag.data_view().2));
        let mut text = String::from_str("Tag: ");
        push_text(&mut text, name.as_str());
        push_text(&mut text, ", created successfully.");
        let mut printed = text.clone();
        push_text(&mut printed, "\n");
        TagOutput { printed, file_text: Some(file_text), result: Ok(text) }
    }
}

} // verus!
