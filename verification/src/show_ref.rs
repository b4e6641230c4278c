use vstd::prelude::*;
use crate::errors::ErrorType;
use crate::hash::GitHash;
use crate::branch::Branch;
use crate::tag::{Tag, TagData, tags_of_text, shown_tag, shows_tag};
use crate::hash::valid_hash_text;
use crate::text::{push_text, text_eq, views, join_strings, join_with, str_to_chars};

verus! {

/// What `show-ref` shows: the head references, the tags, only hashes, and
/// whether a reference named `head` is left out.
pub struct ShowRef {
    pub head: bool,
    pub heads: bool,
    pub tags: bool,
    pub hash: bool,
}

/// Whether a name is `head` in any case (what `to_lowercase` turns into
/// `head`).
pub open spec fn is_head_name(n: Seq<char>) -> bool {
    &&& n.len() == 4
    &&& (n[0] == 'h' || n[0] == 'H')
    &&& (n[1] == 'e' || n[1] == 'E')
    &&& (n[2] == 'a' || n[2] == 'A')
    &&& (n[3] == 'd' || n[3] == 'D')
}

/// The line of a reference: its hash, followed by its name unless only
/// hashes are shown.
pub open spec fn ref_line(only_hash: bool, hash: Seq<char>, name: Seq<char>) -> Seq<char> {
    if only_hash { hash + "\n"@ } else { hash + " "@ + name + "\n"@ }
}

/// The lines of a list of references, `head` left out where asked.
pub open spec fn ref_lines_text(refs: Seq<(Seq<char>, Seq<char>)>, only_hash: bool, skip_head: bool) -> Seq<char>
    decreases refs.len(),
{
    if refs.len() == 0 {
        Seq::empty()
    } else {
        ref_lines_text(refs.drop_last(), only_hash, skip_head)
            + if skip_head && is_head_name(refs.last().0) { Seq::empty() } else { ref_line(only_hash, refs.last().1, refs.last().0) }
    }
}

/// The texts of a list of names and hashes.
pub open spec fn name_hashes(v: Seq<(String, GitHash)>) -> Seq<(Seq<char>, Seq<char>)> {
    v.map_values(|p: (String, GitHash)| (p.0@, p.1@))
}

/// The names and texts of files, as texts.
pub open spec fn entry_texts(v: Seq<(String, String)>) -> Seq<(Seq<char>, Seq<char>)> {
    v.map_values(|p: (String, String)| (p.0@, p.1@))
}

/// Whether each file's text is a hash.
pub open spec fn all_hashes(v: Seq<(String, String)>) -> bool {
    forall|i: int| 0 <= i < v.len() ==> valid_hash_text(#[trigger] v[i].1@)
}

/// The line `show-ref` gives a tag shown as `(name, commit)`: the commit,
/// followed by the name unless only hashes are shown.
pub open spec fn tag_ref_line(only_hash: bool, shown: (Seq<char>, Seq<char>)) -> Seq<char> {
    if only_hash { shown.1 } else { shown.1 + " "@ + shown.0 }
}

/// Whether a text lists the tags of `m`, a line each, in some order (the
/// tags are held by name, in no order).
pub open spec fn lists_tags(only_hash: bool, m: Map<Seq<char>, TagData>, text: Seq<char>) -> bool {
    exists|ls: Seq<Seq<char>>| #[trigger] join_with(ls, "\n"@) == text && ls.len() == m.dom().len()
        && (forall|i: int| #![trigger ls[i]] 0 <= i < ls.len() ==> exists|n: Seq<char>| #[trigger] m.contains_key(n)
            && ls[i] == tag_ref_line(only_hash, shown_tag(m, n)))
        && (forall|n: Seq<char>| #[trigger] m.contains_key(n) ==> exists|i: int| 0 <= i < ls.len()
            && #[trigger] ls[i] == tag_ref_line(only_hash, shown_tag(m, n)))
}

/// Whether a text is what `show-ref` lists of the tags file's text: nothing
/// where it holds no tag, else each tag on a line.
pub open spec fn tag_part(only_hash: bool, tags_text: Option<&str>, text: Seq<char>) -> bool {
    &&& tags_text matches Some(t)
    &&& tags_of_text(t@) matches Some(m)
    &&& if m.dom().len() == 0 { text.len() == 0 } else { lists_tags(only_hash, m, text) }
}

/// Whether the tags file's text can be read.
pub open spec fn tags_readable(tags_text: Option<&str>) -> bool {
    tags_text matches Some(t) && tags_of_text(t@) is Some
}

/// Whether an argument is given.
pub open spec fn given(args: Seq<String>, option: Seq<char>) -> bool {
    views(args).contains(option)
}

/// Whether `show-ref` shows only hashes, given its arguments.
pub open spec fn hash_only(args: Seq<String>) -> bool {
    given(args, "--hash"@) || given(args, "-s"@)
}

/// Whether `show-ref` lists the local branches, given its arguments.
pub open spec fn shows_local(args: Seq<String>) -> bool {
    given(args, "--heads"@) || !given(args, "--tags"@)
}

/// Whether `show-ref` lists the tags, given its arguments.
pub open spec fn shows_tags(args: Seq<String>) -> bool {
    given(args, "--tags"@) || !given(args, "--heads"@)
}

/// Whether `show-ref` lists the remote branches, given its arguments.
pub open spec fn shows_remote(args: Seq<String>) -> bool {
    !given(args, "--tags"@) && !given(args, "--heads"@)
}

/// What `show-ref` lists, the tags listed as given: the local branches, the
/// tags and the remote branches, each where the arguments ask for it.
pub open spec fn show_ref_text(args: Seq<String>, local: Seq<(String, String)>, remote: Seq<(String, String)>,
    tags_listed: Seq<char>) -> Seq<char> {
    (if shows_local(args) { ref_lines_text(entry_texts(local), hash_only(args), given(args, "--head"@)) } else { Seq::empty() })
        + (if shows_tags(args) { tags_listed } else { Seq::empty() })
        + (if shows_remote(args) { ref_lines_text(entry_texts(remote), hash_only(args), given(args, "--head"@)) } else { Seq::empty() })
}

/// Whether a name is `head` in any case.
fn head_name(n: &str) -> (r: bool)
    ensures
        r == is_head_name(n@),
{
    let v = str_to_chars(n);
    v.len() == 4 && (v[0] == 'h' || v[0] == 'H') && (v[1] == 'e' || v[1] == 'E') && (v[2] == 'a' || v[2] == 'A')
        && (v[3] == 'd' || v[3] == 'D')
}

impl ShowRef {
    /// The options of `show-ref`: `--head`, `--heads`, `--tags`, and
    /// `--hash` or `-s`.
    pub fn options(args: &Vec<String>) -> (r: Result<Self, ErrorType>)
        ensures
            r matches Ok(s) && s.head == views(args@).contains("--head"@) && s.heads == views(args@).contains("--heads"@)
                && s.tags == views(args@).contains("--tags"@)
                && s.hash == (views(args@).contains("--hash"@) || views(args@).contains("-s"@)),
    {
        Ok(ShowRef {
            head: has(args, "--head"),
            heads: has(args, "--heads"),
            tags: has(args, "--tags"),
            hash: has(args, "--hash") || has(args, "-s"),
        })
    }

    /// The line of one reference.
    pub fn hashes_references(&self, hash: &str, reference: &str) -> (r: String)
        ensures
            r@ == ref_line(self.hash, hash@, reference@),
    {
        let mut r = String::from_str(hash);
        if !self.hash {
            push_text(&mut r, " ");
            push_text(&mut r, reference);
        }
        push_text(&mut r, "\n");
        r
    }

    /// The lines of the branches of a directory (read from their files'
    /// names and texts); `None` where there are none to show, an error where
    /// a file does not hold a hash.
    pub fn references_branches(&self, files: &Vec<(String, String)>) -> (r: Result<Option<String>, ErrorType>)
        ensures
            r is Ok <==> all_hashes(files@),
            r matches Ok(o) ==> match o {
                Some(t) => t@ == ref_lines_text(entry_texts(files@), self.hash, self.head) && t@.len() > 0,
                None => ref_lines_text(entry_texts(files@), self.hash, self.head).len() == 0,
            },
    {
        let list = match Branch::list_branches(files) {
            Ok(l) => l,
            Err(e) => return Err(e),
        };
        assert(name_hashes(list@) =~= entry_texts(files@));
        let mut result = String::new();
        let mut k: usize = 0;
        assert(name_hashes(list@).subrange(0, 0) =~= Seq::<(Seq<char>, Seq<char>)>::empty());
        while k < list.len()
            invariant
                k <= list@.len(),
                result@ == ref_lines_text(name_hashes(list@).subrange(0, k as int), self.hash, self.head),
            decreases list.len() - k,
        {
            let ghost sub = name_hashes(list@).subrange(0, k + 1);
            assert(sub.drop_last() =~= name_hashes(list@).subrange(0, k as int));
            assert(sub.last() == (list@[k as int].0@, list@[k as int].1@));
            if !(self.head && head_name(list[k].0.as_str())) {
                let line = self.hashes_references(list[k].1.to_string().as_str(), list[k].0.as_str());
                push_text(&mut result, line.as_str());
            }
            k = k + 1;
        }
        assert(name_hashes(list@).subrange(0, k as int) =~= name_hashes(list@));
        if result.as_str().is_empty() {
            Ok(None)
        } else {
            Ok(Some(result))
        }
    }

    /// The lines of the tags: their commits only, or each commit with the
    /// tag's name (and message); `None` where there are no tags, an error
    /// where the tags file is missing or malformed.
    pub fn references_tags(&self, tags_text: Option<&str>) -> (r: Result<Option<String>, ErrorType>)
        ensures
            r is Ok <==> tags_readable(tags_text),
            r matches Ok(o) ==> tags_text matches Some(t) && tags_of_text(t@) matches Some(m) && match o {
                Some(x) => m.dom().len() > 0 && lists_tags(self.hash, m, x@),
                None => m.dom().len() == 0,
            },
    {
        let tags = match Tag::get_tags_for_show_refs(tags_text) {
            Ok(t) => t,
            Err(e) => return Err(e),
        };
        if tags.len() == 0 {
            return Ok(None);
        }
        let mut lines: Vec<String> = Vec::new();
        let mut k: usize = 0;
        while k < tags.len()
            invariant
                k <= tags@.len(),
                lines@.len() == k,
                forall|j: int| 0 <= j < k ==> (#[trigger] lines@[j])@ == tag_ref_line(self.hash, (tags@[j].0@, tags@[j].1@)),
            decreases tags.len() - k,
        {
            if self.hash {
                lines.push(tags[k].1.clone());
            } else {
                let mut l = tags[k].1.clone();
                push_text(&mut l, " ");
                push_text(&mut l, tags[k].0.as_str());
                lines.push(l);
            }
            k = k + 1;
        }
        let joined = join_strings(&lines, "\n");
        proof {
            let t = tags_text->0;
            let m = tags_of_text(t@)->0;
            let ls = views(lines@);
            assert forall|i: int| #![trigger ls[i]] 0 <= i < ls.len() implies exists|n: Seq<char>| #[trigger] m.contains_key(n)
                && ls[i] == tag_ref_line(self.hash, shown_tag(m, n)) by {
                assert(shows_tag(m, tags@[i].0@, tags@[i].1@));
                let n = choose|n: Seq<char>| #[trigger] m.contains_key(n) && (tags@[i].0@, tags@[i].1@) == shown_tag(m, n);
                assert(lines@[i]@ == tag_ref_line(self.hash, (tags@[i].0@, tags@[i].1@)));
            }
            assert forall|n: Seq<char>| #[trigger] m.contains_key(n) implies exists|i: int| 0 <= i < ls.len()
                && #[trigger] ls[i] == tag_ref_line(self.hash, shown_tag(m, n)) by {
                let i = choose|i: int| 0 <= i < tags@.len() && (tags@[i].0@, tags@[i].1@) == shown_tag(m, n);
                assert(lines@[i]@ == tag_ref_line(self.hash, (tags@[i].0@, tags@[i].1@)));
                assert(ls[i] == lines@[i]@);
            }
            assert(join_with(ls, "\n"@) == joined@);
        }
        Ok(Some(joined))
    }

    /// The references `show-ref` lists: by default the local branches, the
    /// tags and the remote branches; with `--heads` or `--tags`, those.
    /// The branches come from their files' names and texts, the tags from
    /// the tags file's text.
    pub fn show_ref(args: &Vec<String>, local_files: &Vec<(String, String)>, remote_files: &Vec<(String, String)>,
        tags_text: Option<&str>) -> (r: Result<String, ErrorType>)
        ensures
            r is Ok <==> (shows_local(args@) ==> all_hashes(local_files@)) && (shows_tags(args@) ==> tags_readable(tags_text))
                && (shows_remote(args@) ==> all_hashes(remote_files@)),
            r matches Ok(t) ==> exists|tags_listed: Seq<char>|
                (shows_tags(args@) ==> tag_part(hash_only(args@), tags_text, tags_listed))
                && t@ == #[trigger] show_ref_text(args@, local_files@, remote_files@, tags_listed),
    {
        let refs = match Self::options(args) {
            Ok(r) => r,
            Err(e) => return Err(e),
        };
        let ghost only_hash = refs.hash;
        let ghost local_part = if shows_local(args@) {
            ref_lines_text(entry_texts(local_files@), hash_only(args@), given(args@, "--head"@))
        } else {
            Seq::<char>::empty()
        };
        let ghost remote_part = if shows_remote(args@) {
            ref_lines_text(entry_texts(remote_files@), hash_only(args@), given(args@, "--head"@))
        } else {
            Seq::<char>::empty()
        };
        let mut result = String::new();
        let ghost mut tags_listed: Seq<char> = Seq::empty();
        if refs.heads || !refs.tags {
            match refs.references_branches(local_files) {
                Ok(Some(t)) => push_text(&mut result, t.as_str()),
                Ok(None) => {},
                Err(e) => return Err(e),
            }
        }
        assert(result@ =~= local_part);
        let ghost first = result@;
        if refs.tags || !refs.heads {
            match refs.references_tags(tags_text) {
                Ok(Some(t)) => {
                    proof { tags_listed = t@; }
                    push_text(&mut result, t.as_str())
                },
                Ok(None) => {},
                Err(e) => return Err(e),
            }
        }
        let ghost tag_text = if shows_tags(args@) { tags_listed } else { Seq::<char>::empty() };
        assert(result@ =~= first + tag_text);
        assert(shows_tags(args@) ==> tag_part(hash_only(args@), tags_text, tags_listed));
        if !refs.tags && !refs.heads {
            match refs.references_branches(remote_files) {
                Ok(Some(t)) => push_text(&mut result, t.as_str()),
                Ok(None) => {},
                Err(e) => return Err(e),
            }
        }
        assert(result@ =~= local_part + tag_text + remote_part);
        assert(result@ == show_ref_text(args@, local_files@, remote_files@, tags_listed));
        Ok(result)
    }
}

/// Whether an argument equals an option.
fn has(args: &Vec<String>, option: &str) -> (r: bool)
    ensures
        r == views(args@).contains(option@),
{
    let mut k: usize = 0;
    while k < args.len()
        invariant
            k <= args@.len(),
            forall|i: int| 0 <= i < k ==> args@[i]@ != option@,
        decreases args.len() - k,
    {
        if text_eq(args[k].as_str(), option) {
            assert(views(args@)[k as int] == option@);
            return true;
        }
        k = k + 1;
    }
    proof {
        if views(args@).contains(option@) {
            let i = choose|i: int| 0 <= i < views(args@).len() && views(args@)[i] == option@;
            assert(args@[i]@ == option@);
        }
    }
    false
}

} // verus!
