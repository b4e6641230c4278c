use vstd::prelude::*;
use crate::errors::ErrorType;
use crate::hash::GitHash;
use crate::branch::Branch;
use crate::refs::BranchRef;
use crate::tag::Tag;
use crate::tree::{Tree, entries_files};
use crate::git_object::{GitObject, ObjectStore};
use crate::cat_file::{cat_file, object_file_text, type_of, size_of};
use crate::hash::valid_hash_text;
use vstd::utf8::encode_utf8;
use crate::network::{branch_file, file_of};
use crate::refs::branch_hash_of;
use crate::tag::tags_of_text;
use crate::commit::{commit_ok, stored_commit_files};
use crate::http_protocol::{contains_text, contains_str};
use crate::text::{push_text, text_eq, views, join_strings, join_with, replace_str, replace_text, find_text,
    lemma_find_text_bound};

verus! {

/// What `ls-tree` shows: the files of a commit's tree, under a path where
/// one is given, with their sizes (`-l`) or in a format (`--format=`).
pub struct LsTree {
    pub tree: Tree,
    pub ref_path: String,
    pub option_size: bool,
    pub format: String,
}

/// The arguments of `ls-tree` read so far: the reference, the path, `-l`
/// and the format.
pub open spec fn ls_args(args: Seq<Seq<char>>, n: nat) -> (Seq<char>, Seq<char>, bool, Seq<char>)
    decreases n,
{
    if n == 0 {
        (Seq::empty(), Seq::empty(), false, Seq::empty())
    } else {
        let (r, p, l, f) = ls_args(args, (n - 1) as nat);
        let a = args[n - 1];
        if contains_text(a, "--format="@) {
            (r, p, l, a)
        } else if a == "-l"@ {
            (r, p, true, f)
        } else if r.len() == 0 {
            (a, p, l, f)
        } else if p.len() == 0 {
            (r, a, l, f)
        } else {
            (r, p, l, f)
        }
    }
}

/// A line of the listing in a given format: `%(objectmode)`,
/// `%(objecttype)`, `%(objectname)`, `%(objectsize)` and `%(path)` replaced.
pub open spec fn formatted_line(format: Seq<char>, mode: Seq<char>, file_type: Seq<char>, name: Seq<char>, size: Seq<char>, path: Seq<char>) -> Seq<char> {
    replace_text(replace_text(replace_text(replace_text(replace_text(replace_text(format, "--format="@, Seq::empty()),
        "%(objectmode)"@, mode), "%(objecttype)"@, file_type), "%(objectname)"@, name), "%(objectsize)"@, size),
        "%(path)"@, path)
}

/// A line of the default listing: mode, type, hash, the size with `-l`, and
/// the path after two spaces.
pub open spec fn default_line(with_size: bool, mode: Seq<char>, file_type: Seq<char>, name: Seq<char>, size: Seq<char>, path: Seq<char>) -> Seq<char> {
    if with_size {
        mode + " "@ + file_type + " "@ + name + " "@ + size + "  "@ + path
    } else {
        mode + " "@ + file_type + " "@ + name + "  "@ + path
    }
}

/// The type and mode `ls-tree` shows for an object of the store; `None`
/// where the object cannot be read or is of no known type.
pub open spec fn type_mode(store: Map<Seq<char>, Seq<u8>>, hash: Seq<char>) -> Option<(Seq<char>, Seq<char>)> {
    if !valid_hash_text(hash) || !store.contains_key(hash) {
        None
    } else {
        match object_file_text(store[hash]) {
            Some(t) => match type_of(t) {
                Some(w) => if w == "blob"@ {
                    Some((w, "100644"@))
                } else if w == "tree"@ {
                    Some((w, "040000"@))
                } else if w == "commit"@ {
                    Some((w, "160000"@))
                } else {
                    None
                },
                None => None,
            },
            None => None,
        }
    }
}

/// The size `ls-tree` shows for a blob of the store.
pub open spec fn size_shown(store: Map<Seq<char>, Seq<u8>>, hash: Seq<char>) -> Option<Seq<char>> {
    if !store.contains_key(hash) {
        None
    } else {
        match object_file_text(store[hash]) {
            Some(t) => size_of(t),
            None => None,
        }
    }
}

/// The line of one file of the listing; `None` where its object cannot be
/// read.
pub open spec fn file_line(with_size: bool, format: Seq<char>, store: Map<Seq<char>, Seq<u8>>, path: Seq<char>,
    hash: Seq<char>) -> Option<Seq<char>> {
    match type_mode(store, hash) {
        None => None,
        Some((t, m)) => match (if m == "100644"@ { size_shown(store, hash) } else { Some("-"@) }) {
            None => None,
            Some(sz) => Some(if format.len() == 0 {
                default_line(with_size, m, t, hash, sz, path)
            } else {
                formatted_line(format, m, t, hash, sz, path)
            }),
        },
    }
}

/// The lines of the listing for the first `n` files (those whose path holds
/// `ref_path`, where it is given); `None` where one cannot be read.
pub open spec fn listing_lines(files: Seq<(Seq<char>, Seq<char>)>, n: nat, ref_path: Seq<char>, with_size: bool,
    format: Seq<char>, store: Map<Seq<char>, Seq<u8>>) -> Option<Seq<Seq<char>>>
    decreases n,
{
    if n == 0 {
        Some(Seq::empty())
    } else {
        match listing_lines(files, (n - 1) as nat, ref_path, with_size, format, store) {
            None => None,
            Some(ls) => if ref_path.len() > 0 && !contains_text(files[n - 1].0, ref_path) {
                Some(ls)
            } else {
                match file_line(with_size, format, store, files[n - 1].0, files[n - 1].1) {
                    Some(l) => Some(ls.push(l)),
                    None => None,
                }
            },
        }
    }
}

/// Once a file cannot be read, the listing of longer prefixes fails too.
proof fn lemma_listing_none(files: Seq<(Seq<char>, Seq<char>)>, n: nat, m: nat, ref_path: Seq<char>, with_size: bool,
    format: Seq<char>, store: Map<Seq<char>, Seq<u8>>)
    requires
        listing_lines(files, n, ref_path, with_size, format, store) is None,
        n <= m,
    ensures
        listing_lines(files, m, ref_path, with_size, format, store) is None,
    decreases m - n,
{
    if n < m {
        lemma_listing_none(files, n, (m - 1) as nat, ref_path, with_size, format, store);
    }
}

/// The options of `cat-file` differ from each other.
proof fn lemma_options_differ()
    ensures
        "-t"@ != "-s"@,
        "-t"@ != "-p"@,
        "-s"@ != "-p"@,
{
    reveal_strlit("-t");
    reveal_strlit("-s");
    reveal_strlit("-p");
    assert("-t"@[1] != "-s"@[1] && "-t"@[1] != "-p"@[1] && "-s"@[1] != "-p"@[1]);
}

/// The object types, and the modes, differ from each other.
proof fn lemma_types_differ()
    ensures
        "blob"@ != "tree"@,
        "blob"@ != "commit"@,
        "tree"@ != "commit"@,
        "100644"@ != "040000"@,
        "100644"@ != "160000"@,
        "100644"@ != "-"@,
        "040000"@ != "160000"@,
{
    reveal_strlit("blob");
    reveal_strlit("tree");
    reveal_strlit("commit");
    reveal_strlit("100644");
    reveal_strlit("040000");
    reveal_strlit("160000");
    reveal_strlit("-");
    assert("blob"@[0] != "tree"@[0] && "blob"@[0] != "commit"@[0] && "tree"@[0] != "commit"@[0]);
    assert("100644"@[0] != "040000"@[0] && "100644"@[1] != "160000"@[1] && "040000"@[0] != "160000"@[0]);
    assert("100644"@.len() != "-"@.len());
}

/// The hash of the commit that a reference names for `ls-tree`: for `HEAD`
/// the head branch's commit; a reference shaped as a hash names itself;
/// else the text of the branch file of that name, where it is a hash; else
/// the hash recorded for the tag of that name, where it is one. `None`
/// where it names nothing.
pub open spec fn ref_target(reference: Seq<char>, head: Option<Seq<char>>, files: Seq<(String, String)>,
    tags_text: Option<&str>) -> Option<Seq<char>>
{
    if reference == "HEAD"@ {
        head
    } else if valid_hash_text(reference) {
        Some(reference)
    } else if file_of(files, reference) matches Some(t) && valid_hash_text(t) {
        file_of(files, reference)
    } else {
        match tags_text {
            Some(t) => match tags_of_text(t@) {
                Some(m) => if m.contains_key(reference) && valid_hash_text(m[reference].1) {
                    Some(m[reference].1)
                } else {
                    None
                },
                None => None,
            },
            None => None,
        }
    }
}

impl LsTree {
    /// Reads the arguments: `--format=...` sets the format, `-l` asks for
    /// sizes, the first other argument is the reference and the second the
    /// path.
    pub fn process_arguments(args: &Vec<String>) -> (r: (String, String, bool, String))
        ensures
            (r.0@, r.1@, r.2, r.3@) == ls_args(views(args@), args@.len()),
    {
        let mut option_size = false;
        let mut reference = String::new();
        let mut ref_path = String::new();
        let mut format = String::new();
        let mut k: usize = 0;
        proof { reveal_strlit("--format="); }
        while k < args.len()
            invariant
                k <= args@.len(),
                (reference@, ref_path@, option_size, format@) == ls_args(views(args@), k as nat),
            decreases args.len() - k,
        {
            proof { reveal_strlit("--format="); }
            assert(views(args@)[k as int] == args@[k as int]@);
            let arg = args[k].as_str();
            if contains_str(arg, "--format=") {
                format = args[k].clone();
            } else if text_eq(arg, "-l") {
                option_size = true;
            } else if reference.as_str().is_empty() {
                reference = args[k].clone();
            } else if ref_path.as_str().is_empty() {
                ref_path = args[k].clone();
            }
            k = k + 1;
        }
        (reference, ref_path, option_size, format)
    }

    /// The tree of what a reference names: `HEAD`, a commit's hash, a
    /// branch (from the branch files' names and texts) or a tag (from the
    /// tags file's text). It succeeds exactly where the reference names a
    /// commit that the store holds.
    pub fn get_commit_tree(reference: &str, head: &BranchRef, branch_files: &Vec<(String, String)>, path_heads: &str,
        tags_text: Option<&str>, store: &ObjectStore) -> (r: Result<Tree, ErrorType>)
        ensures
            reference@.len() == 0 ==> (r matches Err(ErrorType::FormatError(m))
                && m@ == "ERROR, ls-tree requier one argument (Branch/Hash commit/HEAD)"@),
            reference@.len() > 0 ==> match ref_target(reference@, branch_hash_of(head.branch_view()), branch_files@, tags_text) {
                Some(h) => r is Ok <==> commit_ok(store@, h),
                None => r is Err,
            },
            r matches Ok(t) ==> (ref_target(reference@, branch_hash_of(head.branch_view()), branch_files@, tags_text) matches Some(h)
                && entries_files(t.entries_view(), Seq::empty()) == stored_commit_files(store@, h)),
    {
        proof { reveal_strlit("HEAD"); }
        if reference.is_empty() {
            return Err(ErrorType::FormatError(String::from_str("ERROR, ls-tree requier one argument (Branch/Hash commit/HEAD)")));
        }
        if text_eq(reference, "HEAD") {
            return match head.get_last_commit(store) {
                Ok(Some(c)) => Ok(c.get_tree().clone_tree()),
                Ok(None) => Err(ErrorType::RepositoryError(String::from_str("Error in get commit HEAD"))),
                Err(e) => Err(e),
            };
        }
        match GitHash::new(reference) {
            Ok(hash) => {
                return match GitObject::read_commit(&hash, store) {
                    Ok(c) => Ok(c.get_tree().clone_tree()),
                    Err(e) => Err(e),
                };
            },
            Err(_) => {},
        }
        match Branch::open(path_heads, reference, branch_file(branch_files, reference)) {
            Ok(b) => {
                return match b.get_last_commit(store) {
                    Ok(c) => Ok(c.get_tree().clone_tree()),
                    Err(e) => Err(e),
                };
            },
            Err(_) => {},
        }
        let hash_tag = match Tag::get_hash_of_tag(tags_text, reference) {
            Ok(h) => h,
            Err(e) => return Err(e),
        };
        let hash = match GitHash::new(hash_tag.as_str()) {
            Ok(h) => h,
            Err(e) => return Err(e),
        };
        match GitObject::read_commit(&hash, store) {
            Ok(c) => Ok(c.get_tree().clone_tree()),
            Err(e) => Err(e),
        }
    }

    /// The line of a file in the default listing.
    pub fn line_default(&self, mode: &str, file_type: &str, name: &str, file_size: &str, path_file: &str) -> (r: String)
        ensures
            r@ == default_line(self.option_size, mode@, file_type@, name@, file_size@, path_file@),
    {
        let mut line = String::from_str(mode);
        push_text(&mut line, " ");
        push_text(&mut line, file_type);
        push_text(&mut line, " ");
        push_text(&mut line, name);
        if self.option_size {
            push_text(&mut line, " ");
            push_text(&mut line, file_size);
        }
        push_text(&mut line, "  ");
        push_text(&mut line, path_file);
        line
    }

    /// The line of a file in the listing's format.
    pub fn line_format(&self, mode: &str, file_type: &str, name: &str, file_size: &str, path_file: &str) -> (r: String)
        ensures
            r@ == formatted_line(self.format@, mode@, file_type@, name@, file_size@, path_file@),
    {
        proof {
            reveal_strlit("--format=");
            reveal_strlit("%(objectmode)");
            reveal_strlit("%(objecttype)");
            reveal_strlit("%(objectname)");
            reveal_strlit("%(objectsize)");
            reveal_strlit("%(path)");
            reveal_strlit("");
        }
        assert(""@ =~= Seq::<char>::empty());
        let line = replace_str(self.format.as_str(), "--format=", "");
        let line = replace_str(line.as_str(), "%(objectmode)", mode);
        let line = replace_str(line.as_str(), "%(objecttype)", file_type);
        let line = replace_str(line.as_str(), "%(objectname)", name);
        let line = replace_str(line.as_str(), "%(objectsize)", file_size);
        replace_str(line.as_str(), "%(path)", path_file)
    }

    /// The type of an object (as `cat-file -t` gives it) and its mode.
    pub fn get_type_mode(hash: &GitHash, store: &ObjectStore) -> (r: Result<(String, String), ErrorType>)
        ensures
            r is Ok <==> type_mode(store@, hash@) is Some,
            r matches Ok((t, m)) ==> type_mode(store@, hash@) == Some((t@, m@)),
    {
        proof {
            reveal_strlit("-t");
            reveal_strlit("-p");
            reveal_strlit("-s");
            reveal_strlit("blob");
            reveal_strlit("tree");
            reveal_strlit("commit");
        }
        let file = store.get(hash.as_str());
        let file_type = match &file {
            Some(f) => {
                proof { lemma_options_differ(); }
                cat_file("-t", hash.as_str(), Some(f.as_slice()))
            },
            None => {
                proof { lemma_options_differ(); }
                cat_file("-t", hash.as_str(), None)
            },
        };
        let file_type = match file_type {
            Ok(t) => t,
            Err(e) => return Err(e),
        };
        proof { lemma_types_differ(); }
        let mode = if text_eq(file_type.as_str(), "blob") {
            "100644"
        } else if text_eq(file_type.as_str(), "tree") {
            "040000"
        } else if text_eq(file_type.as_str(), "commit") {
            "160000"
        } else {
            return Err(ErrorType::ObjectType(String::from_str("blob/tree/commit"), file_type));
        };
        Ok((file_type, String::from_str(mode)))
    }

    /// The listing: a line per file of the tree (those whose path holds the
    /// path asked for, where one is), joined by newlines.
    pub fn output_info(&self, store: &ObjectStore) -> (r: Result<String, ErrorType>)
        ensures
            r is Ok <==> listing_lines(entries_files(self.tree.entries_view(), Seq::empty()),
                entries_files(self.tree.entries_view(), Seq::empty()).len(), self.ref_path@, self.option_size,
                self.format@, store@) is Some,
            r matches Ok(t) ==> listing_lines(entries_files(self.tree.entries_view(), Seq::empty()),
                entries_files(self.tree.entries_view(), Seq::empty()).len(), self.ref_path@, self.option_size,
                self.format@, store@) matches Some(ls) && t@ == join_with(ls, "\n"@),
    {
        let files = self.tree.get_files_vec();
        let ghost fv = files@.map_values(|p: (String, GitHash)| (p.0@, p.1@));
        let mut lines: Vec<String> = Vec::new();
        let mut k: usize = 0;
        proof {
            reveal_strlit("100644");
            reveal_strlit("-s");
            reveal_strlit("-t");
            reveal_strlit("-p");
            reveal_strlit("-");
        }
        while k < files.len()
            invariant
                k <= files@.len(),
                fv == files@.map_values(|p: (String, GitHash)| (p.0@, p.1@)),
                fv == entries_files(self.tree.entries_view(), Seq::empty()),
                listing_lines(fv, k as nat, self.ref_path@, self.option_size, self.format@, store@) == Some(views(lines@)),
            decreases files.len() - k,
        {
            proof { lemma_options_differ(); lemma_types_differ(); }
            let path = files[k].0.as_str();
            let hash = &files[k].1;
            assert(fv[k as int] == (path@, hash@));
            if !self.ref_path.as_str().is_empty() && self.ref_path.as_str().unicode_len() > 0
                && !contains_str(path, self.ref_path.as_str()) {
                k = k + 1;
                continue;
            }
            let (file_type, mode) = match Self::get_type_mode(hash, store) {
                Ok(p) => p,
                Err(e) => {
                    proof {
                        assert(file_line(self.option_size, self.format@, store@, path@, hash@) is None);
                        lemma_listing_none(fv, (k + 1) as nat, fv.len(), self.ref_path@, self.option_size, self.format@, store@);
                    }
                    return Err(e);
                },
            };
            let name = hash.to_string();
            let file_size = if text_eq(mode.as_str(), "100644") {
                let file = store.get(hash.as_str());
                let size = match &file {
                    Some(f) => cat_file("-s", hash.as_str(), Some(f.as_slice())),
                    None => cat_file("-s", hash.as_str(), None),
                };
                match size {
                    Ok(s) => s,
                    Err(e) => {
                        proof {
                            assert(size_shown(store@, hash@) is None);
                            assert(file_line(self.option_size, self.format@, store@, path@, hash@) is None);
                            lemma_listing_none(fv, (k + 1) as nat, fv.len(), self.ref_path@, self.option_size, self.format@, store@);
                        }
                        return Err(e);
                    },
                }
            } else {
                String::from_str("-")
            };
            let line = if self.format.as_str().is_empty() {
                self.line_default(mode.as_str(), file_type.as_str(), name.as_str(), file_size.as_str(), path)
            } else {
                self.line_format(mode.as_str(), file_type.as_str(), name.as_str(), file_size.as_str(), path)
            };
            let ghost before = views(lines@);
            proof {
                assert(type_mode(store@, hash@) == Some((file_type@, mode@)));
                assert(file_line(self.option_size, self.format@, store@, path@, hash@) == Some(line@));
            }
            lines.push(line);
            assert(views(lines@) =~= before.push(line@));
            k = k + 1;
        }
        Ok(join_strings(&lines, "\n"))
    }

    /// `ls-tree`: the listing of the tree of what the arguments name.
    pub fn show_tree(args: &Vec<String>, head: &BranchRef, branch_files: &Vec<(String, String)>, path_heads: &str,
        tags_text: Option<&str>, store: &ObjectStore) -> (r: Result<String, ErrorType>)
        ensures
            ls_args(views(args@), args@.len()).0.len() == 0 ==> (r matches Err(ErrorType::FormatError(m))
                && m@ == "ERROR, ls-tree requier one argument (Branch/Hash commit/HEAD)"@),
            ls_args(views(args@), args@.len()).0.len() > 0 ==> match ref_target(ls_args(views(args@), args@.len()).0,
                branch_hash_of(head.branch_view()), branch_files@, tags_text) {
                Some(h) => !commit_ok(store@, h) ==> r is Err,
                None => r is Err,
            },
            ls_args(views(args@), args@.len()).0.len() > 0 ==> match ref_target(ls_args(views(args@), args@.len()).0,
                branch_hash_of(head.branch_view()), branch_files@, tags_text) {
                Some(h) => commit_ok(store@, h) ==> match listing_lines(stored_commit_files(store@, h),
                    stored_commit_files(store@, h).len(), ls_args(views(args@), args@.len()).1,
                    ls_args(views(args@), args@.len()).2, ls_args(views(args@), args@.len()).3, store@) {
                    Some(ls) => r matches Ok(t) && t@ == join_with(ls, "\n"@),
                    None => r is Err,
                },
                None => true,
            },
    {
        let (reference, ref_path, option_size, format) = Self::process_arguments(args);
        let tree = match Self::get_commit_tree(reference.as_str(), head, branch_files, path_heads, tags_text, store) {
            Ok(t) => t,
            Err(e) => return Err(e),
        };
        let ls = LsTree { tree, ref_path, option_size, format };
        ls.output_info(store)
    }
}

/// Whether `part` occurs in `path` (always, for an empty `part`).
pub open spec fn path_has(path: Seq<char>, part: Seq<char>) -> bool {
    exists|k: int| 0 <= k && k + part.len() <= path.len() && #[trigger] path.subrange(k, k + part.len()) == part
}

/// A pattern that occurs at `k` is found no later than `k`.
proof fn lemma_find_text_first(s: Seq<char>, p: Seq<char>, k: int)
    requires
        0 <= k,
        k + p.len() <= s.len(),
        s.subrange(k, k + p.len()) == p,
    ensures
        find_text(s, p) <= k,
    decreases s.len(),
{
    if s.subrange(0, p.len() as int) != p {
        assert(k > 0) by {
            if k == 0 {
                assert(s.subrange(0, p.len() as int) == s.subrange(k, k + p.len()));
            }
        }
        assert(s.drop_first().subrange(k - 1, k - 1 + p.len()) =~= s.subrange(k, k + p.len()));
        lemma_find_text_first(s.drop_first(), p, k - 1);
    }
}

/// For a non-empty pattern, `contains_text` is occurrence.
proof fn lemma_contains_text_occurs(s: Seq<char>, p: Seq<char>)
    requires
        p.len() > 0,
    ensures
        contains_text(s, p) <==> path_has(s, p),
{
    lemma_find_text_bound(s, p);
    if contains_text(s, p) {
        let k = find_text(s, p) as int;
        assert(s.subrange(k, k + p.len()) == p);
    }
    if path_has(s, p) {
        let k = choose|k: int| 0 <= k && k + p.len() <= s.len() && #[trigger] s.subrange(k, k + p.len()) == p;
        lemma_find_text_first(s, p, k);
    }
}

/// The files of a listing whose path holds `ref_path`.
pub open spec fn holds_path(ref_path: Seq<char>) -> spec_fn((Seq<char>, Seq<char>)) -> bool {
    |f: (Seq<char>, Seq<char>)| path_has(f.0, ref_path)
}

/// Whether every file of a list has a line.
pub open spec fn all_lines(kept: Seq<(Seq<char>, Seq<char>)>, with_size: bool, format: Seq<char>,
    store: Map<Seq<char>, Seq<u8>>) -> bool {
    forall|i: int| 0 <= i < kept.len() ==> #[trigger] file_line(with_size, format, store, kept[i].0, kept[i].1) is Some
}

/// Whether lines are those of a list of files, one each, in order.
pub open spec fn lines_of_files(ls: Seq<Seq<char>>, kept: Seq<(Seq<char>, Seq<char>)>, with_size: bool,
    format: Seq<char>, store: Map<Seq<char>, Seq<u8>>) -> bool {
    ls.len() == kept.len()
        && forall|i: int| 0 <= i < ls.len() ==> #[trigger] file_line(with_size, format, store, kept[i].0, kept[i].1) == Some(ls[i])
}

/// The listing of the first `n` files is that of those among them whose path
/// holds `ref_path`, in order, one line each; it fails exactly when the line
/// of one of them cannot be made.
proof fn lemma_listing_filter(files: Seq<(Seq<char>, Seq<char>)>, n: nat, ref_path: Seq<char>, with_size: bool,
    format: Seq<char>, store: Map<Seq<char>, Seq<u8>>)
    requires
        n <= files.len(),
    ensures
        listing_lines(files, n, ref_path, with_size, format, store) is Some
            <==> all_lines(files.subrange(0, n as int).filter(holds_path(ref_path)), with_size, format, store),
        listing_lines(files, n, ref_path, with_size, format, store) matches Some(ls)
            ==> lines_of_files(ls, files.subrange(0, n as int).filter(holds_path(ref_path)), with_size, format, store),
    decreases n,
{
    let pred = holds_path(ref_path);
    if n == 0 {
        assert(files.subrange(0, 0) =~= Seq::<(Seq<char>, Seq<char>)>::empty());
        files.subrange(0, 0).lemma_filter_len(pred);
    } else {
        lemma_listing_filter(files, (n - 1) as nat, ref_path, with_size, format, store);
        let prev = files.subrange(0, n - 1);
        let f = files[n - 1];
        assert(files.subrange(0, n as int) =~= prev.push(f));
        prev.lemma_filter_push(f, pred);
        let kp = prev.filter(pred);
        let kept = files.subrange(0, n as int).filter(pred);
        if ref_path.len() > 0 {
            lemma_contains_text_occurs(f.0, ref_path);
        } else {
            assert(f.0.subrange(0, 0) =~= ref_path);
        }
        let line = file_line(with_size, format, store, f.0, f.1);
        if pred(f) {
            assert(kept == kp.push(f));
            assert(kept[kp.len() as int] == f);
            assert forall|i: int| 0 <= i < kp.len() implies kept[i] == kp[i] by {}
            if all_lines(kept, with_size, format, store) {
                assert forall|i: int| 0 <= i < kp.len() implies
                    #[trigger] file_line(with_size, format, store, kp[i].0, kp[i].1) is Some by {
                    assert(kept[i] == kp[i]);
                    assert(file_line(with_size, format, store, kept[i].0, kept[i].1) is Some);
                }
                assert(file_line(with_size, format, store, kept[kp.len() as int].0, kept[kp.len() as int].1) is Some);
            }
            if all_lines(kp, with_size, format, store) && line is Some {
                assert forall|i: int| 0 <= i < kept.len() implies
                    #[trigger] file_line(with_size, format, store, kept[i].0, kept[i].1) is Some by {
                    if i < kp.len() {
                        assert(kept[i] == kp[i]);
                        assert(file_line(with_size, format, store, kp[i].0, kp[i].1) is Some);
                    }
                }
            }
            if let Some(ls) = listing_lines(files, n, ref_path, with_size, format, store) {
                let lp = listing_lines(files, (n - 1) as nat, ref_path, with_size, format, store)->0;
                assert(ls == lp.push(line->0));
                assert forall|i: int| 0 <= i < ls.len() implies
                    #[trigger] file_line(with_size, format, store, kept[i].0, kept[i].1) == Some(ls[i]) by {
                    if i < lp.len() {
                        assert(ls[i] == lp[i]);
                        assert(kept[i] == kp[i]);
                        assert(file_line(with_size, format, store, kp[i].0, kp[i].1) == Some(lp[i]));
                    }
                }
            }
        } else {
            assert(kept == kp);
        }
    }
}

/// `ls-tree` with a path lists exactly the files whose path holds it, in the
/// tree's order, a line each; without a path, every file. The listing fails
/// exactly when the line of one of those files cannot be made.
pub proof fn law_listing_keeps_matching_files(files: Seq<(Seq<char>, Seq<char>)>, ref_path: Seq<char>, with_size: bool,
    format: Seq<char>, store: Map<Seq<char>, Seq<u8>>)
    ensures
        listing_lines(files, files.len(), ref_path, with_size, format, store) is Some
            <==> all_lines(files.filter(holds_path(ref_path)), with_size, format, store),
        listing_lines(files, files.len(), ref_path, with_size, format, store) matches Some(ls)
            ==> lines_of_files(ls, files.filter(holds_path(ref_path)), with_size, format, store),
{
    lemma_listing_filter(files, files.len(), ref_path, with_size, format, store);
    assert(files.subrange(0, files.len() as int) =~= files);
}

} // verus!
