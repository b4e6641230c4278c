use vstd::prelude::*;
use crate::errors::ErrorType;
use crate::hash::{GitHash, hex_pairs_value, hex_bytes, sha1_digest};
use crate::object_type::{ObjectType, with_header};
use crate::git_object::{GitObject, ObjectStore, object_hash, object_parts, stored_after, lemma_stored_after_concat,
    lemma_stored_after_push};
use crate::compressor::zlib_deflate;
use crate::index_file_info::{IndexFileInfo, IndexEntry};
use crate::index::info_views;
use crate::paths::{path_join, join_path};
use crate::text::{push_text, text_bytes, bytes_before, bytes_after, latin1, find_byte, find_byte_exec,
    lemma_find_byte_bound, latin1_string, slice_range};
use crate::git_object::kind_of_name;
use crate::object_type::object_kind_name;
use vstd::utf8::encode_utf8;
use crate::text::{text_lt, text_less, text_eq, split_on, split_once_spec, split_once_char,
    lemma_text_lt_irreflexive, lemma_text_lt_trichotomy, lemma_text_lt_transitive,
    lemma_split_on_none, lemma_split_on_cons, lemma_find_char_bound, find_char};

verus! {

/// An entry of a directory: a subdirectory with its tree, or a file with the
/// hash of its blob.
pub enum TreeEntry {
    Dir(String, Tree),
    File(String, GitHash),
}

/// The name of an entry.
pub open spec fn entry_name(e: TreeEntry) -> Seq<char> {
    match e {
        TreeEntry::Dir(n, _) => n@,
        TreeEntry::File(n, _) => n@,
    }
}

/// Directories sort before files of the same name.
pub open spec fn entry_rank(e: TreeEntry) -> nat {
    match e {
        TreeEntry::Dir(_, _) => 0,
        TreeEntry::File(_, _) => 1,
    }
}

/// The order of entries in a tree object: by name, and a directory before a
/// file of the same name.
pub open spec fn key_lt(n1: Seq<char>, r1: nat, n2: Seq<char>, r2: nat) -> bool {
    text_lt(n1, n2) || (n1 == n2 && r1 < r2)
}

pub open spec fn entry_lt(a: TreeEntry, b: TreeEntry) -> bool {
    key_lt(entry_name(a), entry_rank(a), entry_name(b), entry_rank(b))
}

/// Whether entries are in strictly increasing order.
pub open spec fn sorted_entries(s: Seq<TreeEntry>) -> bool {
    forall|i: int, j: int| 0 <= i < j < s.len() ==> entry_lt(s[i], s[j])
}

proof fn lemma_key_lt_facts(n1: Seq<char>, r1: nat, n2: Seq<char>, r2: nat, n3: Seq<char>, r3: nat)
    ensures
        !key_lt(n1, r1, n1, r1),
        key_lt(n1, r1, n2, r2) || key_lt(n2, r2, n1, r1) || (n1 == n2 && r1 == r2),
        key_lt(n1, r1, n2, r2) && key_lt(n2, r2, n3, r3) ==> key_lt(n1, r1, n3, r3),
        !(key_lt(n1, r1, n2, r2) && key_lt(n2, r2, n1, r1)),
{
    lemma_text_lt_irreflexive(n1);
    lemma_text_lt_trichotomy(n1, n2);
    if text_lt(n1, n2) && text_lt(n2, n3) {
        lemma_text_lt_transitive(n1, n2, n3);
    }
    if n1 == n2 {
        lemma_text_lt_trichotomy(n2, n3);
    }
}

/// The directory listing of a repository's content, as stored in tree
/// objects: its entries sorted by name.
pub struct Tree {
    entries: Vec<TreeEntry>,
}

/// The hash of the file with this name among the entries, if there is one.
pub open spec fn find_file(es: Seq<TreeEntry>, name: Seq<char>) -> Option<Seq<char>> {
    if exists|i: int| 0 <= i < es.len() && (#[trigger] es[i]) is File && entry_name(es[i]) == name {
        let i = choose|i: int| 0 <= i < es.len() && (#[trigger] es[i]) is File && entry_name(es[i]) == name;
        Some(es[i]->File_1@)
    } else {
        None
    }
}

/// The subtree of the directory with this name among the entries, if there
/// is one.
pub open spec fn find_dir(es: Seq<TreeEntry>, name: Seq<char>) -> Option<Tree> {
    if exists|i: int| 0 <= i < es.len() && (#[trigger] es[i]) is Dir && entry_name(es[i]) == name {
        let i = choose|i: int| 0 <= i < es.len() && (#[trigger] es[i]) is Dir && entry_name(es[i]) == name;
        Some(es[i]->Dir_1)
    } else {
        None
    }
}

proof fn lemma_find_file_at(es: Seq<TreeEntry>, i: int)
    requires
        sorted_entries(es),
        0 <= i < es.len(),
        es[i] is File,
    ensures
        find_file(es, entry_name(es[i])) == Some(es[i]->File_1@),
{
    let name = entry_name(es[i]);
    assert(es[i] is File && entry_name(es[i]) == name);
    let j = choose|j: int| 0 <= j < es.len() && (#[trigger] es[j]) is File && entry_name(es[j]) == name;
    if j != i {
        lemma_key_lt_facts(name, 1, name, 1, name, 1);
        if j < i {
            assert(entry_lt(es[j], es[i]));
        } else {
            assert(entry_lt(es[i], es[j]));
        }
    }
}

proof fn lemma_find_dir_at(es: Seq<TreeEntry>, i: int)
    requires
        sorted_entries(es),
        0 <= i < es.len(),
        es[i] is Dir,
    ensures
        find_dir(es, entry_name(es[i])) == Some(es[i]->Dir_1),
{
    let name = entry_name(es[i]);
    assert(es[i] is Dir && entry_name(es[i]) == name);
    let j = choose|j: int| 0 <= j < es.len() && (#[trigger] es[j]) is Dir && entry_name(es[j]) == name;
    if j != i {
        lemma_key_lt_facts(name, 0, name, 0, name, 0);
        if j < i {
            assert(entry_lt(es[j], es[i]));
        } else {
            assert(entry_lt(es[i], es[j]));
        }
    }
}


proof fn lemma_sorted_insert(s: Seq<TreeEntry>, p: int, e: TreeEntry)
    requires
        sorted_entries(s),
        0 <= p <= s.len(),
        forall|i: int| 0 <= i < p ==> entry_lt(s[i], e),
        forall|i: int| p <= i < s.len() ==> entry_lt(e, s[i]),
    ensures
        sorted_entries(s.insert(p, e)),
{
    let t = s.insert(p, e);
    assert forall|i: int, j: int| 0 <= i < j < t.len() implies entry_lt(t[i], t[j]) by {
        if j < p {
            assert(t[i] == s[i] && t[j] == s[j]);
        } else if j == p {
            assert(t[i] == s[i] && t[j] == e);
        } else if i < p {
            assert(t[i] == s[i] && t[j] == s[j - 1]);
            assert(entry_lt(s[i], e) && entry_lt(e, s[j - 1]));
            lemma_key_lt_facts(entry_name(s[i]), entry_rank(s[i]), entry_name(e), entry_rank(e),
                entry_name(s[j - 1]), entry_rank(s[j - 1]));
        } else if i == p {
            assert(t[i] == e && t[j] == s[j - 1]);
        } else {
            assert(t[i] == s[i - 1] && t[j] == s[j - 1]);
        }
    }
}

proof fn lemma_sorted_remove(s: Seq<TreeEntry>, p: int)
    requires
        sorted_entries(s),
        0 <= p < s.len(),
    ensures
        sorted_entries(s.remove(p)),
{
    let t = s.remove(p);
    assert forall|i: int, j: int| 0 <= i < j < t.len() implies entry_lt(t[i], t[j]) by {
        let i2 = if i < p { i } else { i + 1 };
        let j2 = if j < p { j } else { j + 1 };
        assert(t[i] == s[i2] && t[j] == s[j2]);
    }
}

proof fn lemma_find_remove(s: Seq<TreeEntry>, p: int)
    requires
        sorted_entries(s),
        0 <= p < s.len(),
    ensures
        forall|c: Seq<char>| #[trigger] find_file(s.remove(p), c)
            == (if s[p] is File && entry_name(s[p]) == c { None } else { find_file(s, c) }),
        forall|c: Seq<char>| #[trigger] find_dir(s.remove(p), c)
            == (if s[p] is Dir && entry_name(s[p]) == c { None } else { find_dir(s, c) }),
{
    let t = s.remove(p);
    lemma_sorted_remove(s, p);
    assert forall|c: Seq<char>| #[trigger] find_file(t, c)
        == (if s[p] is File && entry_name(s[p]) == c { None } else { find_file(s, c) }) by {
        if exists|i: int| 0 <= i < t.len() && (#[trigger] t[i]) is File && entry_name(t[i]) == c {
            let i = choose|i: int| 0 <= i < t.len() && (#[trigger] t[i]) is File && entry_name(t[i]) == c;
            let i2 = if i < p { i } else { i + 1 };
            assert(t[i] == s[i2]);
            lemma_find_file_at(t, i);
            lemma_find_file_at(s, i2);
            if s[p] is File && entry_name(s[p]) == c {
                lemma_key_lt_facts(c, 1, c, 1, c, 1);
                if i2 < p { assert(entry_lt(s[i2], s[p])); } else { assert(entry_lt(s[p], s[i2])); }
            }
        } else {
            if !(s[p] is File && entry_name(s[p]) == c) {
                if exists|i: int| 0 <= i < s.len() && (#[trigger] s[i]) is File && entry_name(s[i]) == c {
                    let i = choose|i: int| 0 <= i < s.len() && (#[trigger] s[i]) is File && entry_name(s[i]) == c;
                    assert(i != p);
                    let i1 = if i < p { i } else { i - 1 };
                    assert(t[i1] == s[i]);
                }
            }
        }
    }
    assert forall|c: Seq<char>| #[trigger] find_dir(t, c)
        == (if s[p] is Dir && entry_name(s[p]) == c { None } else { find_dir(s, c) }) by {
        if exists|i: int| 0 <= i < t.len() && (#[trigger] t[i]) is Dir && entry_name(t[i]) == c {
            let i = choose|i: int| 0 <= i < t.len() && (#[trigger] t[i]) is Dir && entry_name(t[i]) == c;
            let i2 = if i < p { i } else { i + 1 };
            assert(t[i] == s[i2]);
            lemma_find_dir_at(t, i);
            lemma_find_dir_at(s, i2);
            if s[p] is Dir && entry_name(s[p]) == c {
                lemma_key_lt_facts(c, 0, c, 0, c, 0);
                if i2 < p { assert(entry_lt(s[i2], s[p])); } else { assert(entry_lt(s[p], s[i2])); }
            }
        } else {
            if !(s[p] is Dir && entry_name(s[p]) == c) {
                if exists|i: int| 0 <= i < s.len() && (#[trigger] s[i]) is Dir && entry_name(s[i]) == c {
                    let i = choose|i: int| 0 <= i < s.len() && (#[trigger] s[i]) is Dir && entry_name(s[i]) == c;
                    assert(i != p);
                    let i1 = if i < p { i } else { i - 1 };
                    assert(t[i1] == s[i]);
                }
            }
        }
    }
}

proof fn lemma_find_insert(s: Seq<TreeEntry>, p: int, e: TreeEntry)
    requires
        sorted_entries(s.insert(p, e)),
        0 <= p <= s.len(),
    ensures
        forall|c: Seq<char>| #[trigger] find_file(s.insert(p, e), c)
            == (if e is File && entry_name(e) == c { Some(e->File_1@) } else { find_file(s, c) }),
        forall|c: Seq<char>| #[trigger] find_dir(s.insert(p, e), c)
            == (if e is Dir && entry_name(e) == c { Some(e->Dir_1) } else { find_dir(s, c) }),
{
    let t = s.insert(p, e);
    assert(s =~= t.remove(p));
    assert(t[p] == e);
    lemma_find_remove(t, p);
    assert forall|c: Seq<char>| #[trigger] find_file(t, c)
        == (if e is File && entry_name(e) == c { Some(e->File_1@) } else { find_file(s, c) }) by {
        assert(find_file(t.remove(p), c) == find_file(s, c));
        if e is File && entry_name(e) == c {
            lemma_find_file_at(t, p);
        }
    }
    assert forall|c: Seq<char>| #[trigger] find_dir(t, c)
        == (if e is Dir && entry_name(e) == c { Some(e->Dir_1) } else { find_dir(s, c) }) by {
        assert(find_dir(t.remove(p), c) == find_dir(s, c));
        if e is Dir && entry_name(e) == c {
            lemma_find_dir_at(t, p);
        }
    }
}


/// The 20 bytes a hash text stands for, two hexadecimal digits each, where
/// it is hexadecimal.
pub open spec fn hash_binary(h: Seq<char>) -> Option<Seq<u8>> {
    hex_pairs_value(encode_utf8(h), 20)
}

/// The bytes of one entry in a tree object: `<mode> <name>\0` and the
/// entry's hash in binary.
pub open spec fn entry_line(mode: Seq<char>, name: Seq<char>, hash_bin: Seq<u8>) -> Seq<u8> {
    encode_utf8(mode + seq![' '] + name + seq!['\0']) + hash_bin
}

/// The mode of files in tree objects.
pub open spec fn file_mode() -> Seq<char> {
    "100644"@
}

/// The mode of directories in tree objects.
pub open spec fn dir_mode() -> Seq<char> {
    "040000"@
}

/// The content of the tree object of these entries, in order, where every
/// hash converts to binary.
pub open spec fn entries_content(es: Seq<TreeEntry>) -> Option<Seq<u8>>
    decreases es,
{
    if es.len() == 0 {
        Some(Seq::empty())
    } else {
        match entries_content(es.drop_last()) {
            None => None,
            Some(prefix) => match es.last() {
                TreeEntry::File(n, h) => match hash_binary(h@) {
                    Some(b) => Some(prefix + entry_line(file_mode(), n@, b)),
                    None => None,
                },
                TreeEntry::Dir(n, sub) => match entries_content(sub.entries_view()) {
                    None => None,
                    Some(c) => match hash_binary(object_hash(c, ObjectType::Tree)) {
                        Some(b) => Some(prefix + entry_line(dir_mode(), n@, b)),
                        None => None,
                    },
                },
            },
        }
    }
}

/// The files of a listing of entries under a directory, with their paths
/// and hashes, subdirectories listed in place.
pub open spec fn entries_files(es: Seq<TreeEntry>, prefix: Seq<char>) -> Seq<(Seq<char>, Seq<char>)>
    decreases es,
{
    if es.len() == 0 {
        Seq::empty()
    } else {
        entries_files(es.drop_last(), prefix) + match es.last() {
            TreeEntry::File(n, h) => seq![(path_join(prefix, n@), h@)],
            TreeEntry::Dir(n, sub) => entries_files(sub.entries_view(), path_join(prefix, n@)),
        }
    }
}

impl Tree {
    #[verifier::type_invariant]
    spec fn well_formed(&self) -> bool {
        sorted_entries(self.entries@)
    }

    /// The entries of the tree, in order.
    pub closed spec fn entries_view(&self) -> Seq<TreeEntry> {
        self.entries@
    }

    /// The hash recorded for the file at the path made of these components:
    /// each component but the last names a directory, the last a file.
    pub closed spec fn lookup(&self, comps: Seq<Seq<char>>) -> Option<Seq<char>>
        decreases comps.len(),
    {
        if comps.len() == 0 {
            None
        } else if comps.len() == 1 {
            find_file(self.entries@, comps[0])
        } else {
            match find_dir(self.entries@, comps[0]) {
                Some(sub) => sub.lookup(comps.drop_first()),
                None => None,
            }
        }
    }

    /// An empty tree.
    pub fn new() -> (r: Self)
        ensures
            forall|c: Seq<Seq<char>>| #[trigger] r.lookup(c) is None,
            r.entries_view().len() == 0,
    {
        let r = Tree { entries: Vec::new() };
        assert forall|c: Seq<Seq<char>>| #[trigger] r.lookup(c) is None by {
            if c.len() == 1 {
                assert(find_file(r.entries@, c[0]) is None);
            } else if c.len() > 1 {
                assert(find_dir(r.entries@, c[0]) is None);
            }
        }
        r
    }

    /// Position where an entry with this key is or belongs.
    fn position(entries: &Vec<TreeEntry>, name: &str, rank: u8) -> (r: usize)
        requires
            sorted_entries(entries@),
        ensures
            r <= entries@.len(),
            forall|i: int| 0 <= i < r ==> key_lt(entry_name(entries@[i]), entry_rank(entries@[i]), name@, rank as nat),
            forall|i: int| r <= i < entries@.len() ==> !key_lt(entry_name(entries@[i]), entry_rank(entries@[i]), name@, rank as nat),
    {
        let mut i: usize = 0;
        while i < entries.len()
            invariant
                i <= entries@.len(),
                sorted_entries(entries@),
                forall|j: int| 0 <= j < i ==> key_lt(entry_name(entries@[j]), entry_rank(entries@[j]), name@, rank as nat),
            decreases entries.len() - i,
        {
            let (ename, erank): (&String, u8) = match &entries[i] {
                TreeEntry::Dir(n, _) => (n, 0),
                TreeEntry::File(n, _) => (n, 1),
            };
            let less = text_less(ename.as_str(), name) || (text_eq(ename.as_str(), name) && erank < rank);
            if !less {
                proof {
                    assert forall|j: int| i <= j < entries@.len() implies
                        !key_lt(entry_name(entries@[j]), entry_rank(entries@[j]), name@, rank as nat) by {
                        if j > i {
                            assert(entry_lt(entries@[i as int], entries@[j]));
                            lemma_key_lt_facts(entry_name(entries@[i as int]), entry_rank(entries@[i as int]),
                                entry_name(entries@[j]), entry_rank(entries@[j]), name@, rank as nat);
                            lemma_key_lt_facts(name@, rank as nat, entry_name(entries@[i as int]), entry_rank(entries@[i as int]),
                                entry_name(entries@[j]), entry_rank(entries@[j]));
                        }
                    }
                }
                return i;
            }
            i = i + 1;
        }
        i
    }
    /// Records a file at a path: each component before a `/` names a
    /// directory, created where missing, and the last one names the file,
    /// whose hash is set.
    pub fn add(&mut self, path: &str, hash: GitHash)
        ensures
            forall|c: Seq<Seq<char>>| #[trigger] final(self).lookup(c)
                == (if c == split_on(path@, '/') { Some(hash@) } else { old(self).lookup(c) }),
            entries_content(old(self).entries_view()) is Some && hash_binary(hash@) is Some
                ==> entries_content(final(self).entries_view()) is Some,
        decreases path@.len(),
    {
        proof { use_type_invariant(&*self); }
        let ghost old_self = *self;
        let ghost cond = entries_content(self.entries@) is Some && hash_binary(hash@) is Some;
        proof { lemma_content_each(self.entries@); }
        let mut entries: Vec<TreeEntry> = Vec::new();
        std::mem::swap(&mut entries, &mut self.entries);
        let ghost s = entries@;
        assert(s == old_self.entries@);
        match split_once_char(path, '/') {
            Some((dir, rest)) => {
                proof {
                    lemma_find_char_bound(path@, '/');
                    let k = find_char(path@, '/');
                    assert(path@ =~= dir@ + seq!['/'] + rest@);
                    assert(!dir@.contains('/')) by {
                        if dir@.contains('/') {
                            let w = choose|w: int| 0 <= w < dir@.len() && dir@[w] == '/';
                            assert(path@[w] == '/');
                        }
                    }
                    lemma_split_on_cons(dir@, '/', rest@);
                }
                let p = Self::position(&entries, dir.as_str(), 0);
                let found = if p < entries.len() {
                    match &entries[p] {
                        TreeEntry::Dir(n, _) => text_eq(n.as_str(), dir.as_str()),
                        TreeEntry::File(_, _) => false,
                    }
                } else {
                    false
                };
                if found {
                    let ghost sp = entries@[p as int];
                    proof {
                        lemma_find_dir_at(s, p as int);
                        lemma_find_remove(s, p as int);
                        lemma_sorted_remove(s, p as int);
                    }
                    let e = entries.remove(p);
                    match e {
                        TreeEntry::Dir(n, mut sub) => {
                            let ghost old_sub = sub;
                            proof { use_type_invariant(&sub); }
                            sub.add(rest.as_str(), hash);
                            let ne = TreeEntry::Dir(n, sub);
                            proof {
                                let r = s.remove(p as int);
                                assert forall|i: int| 0 <= i < p implies entry_lt(r[i], ne) by {
                                    assert(r[i] == s[i]);
                                    assert(entry_lt(s[i], sp));
                                }
                                assert forall|i: int| p <= i < r.len() implies entry_lt(ne, r[i]) by {
                                    assert(r[i] == s[i + 1]);
                                    assert(entry_lt(sp, s[i + 1]));
                                }
                                lemma_sorted_insert(r, p as int, ne);
                                lemma_find_insert(r, p as int, ne);
                                assert(entries@ == r);
                            }
                            entries.insert(p, ne);
                            proof {
                                if cond {
                                    assert(entry_content_ok(s[p as int]));
                                    assert(entries@ =~= s.update(p as int, ne));
                                    lemma_update_content(s, p as int, ne);
                                }
                            }
                            proof {
                                let t = entries@;
                                let new_self = Tree { entries: entries };
                                assert forall|c: Seq<Seq<char>>| #[trigger] new_self.lookup(c)
                                    == (if c == split_on(path@, '/') { Some(hash@) } else { old_self.lookup(c) }) by {
                                    if c.len() > 1 {
                                        if c[0] == dir@ {
                                            assert(find_dir(t, c[0]) == Some(sub));
                                            assert(find_dir(s, c[0]) == Some(old_sub));
                                            assert(new_self.lookup(c) == sub.lookup(c.drop_first()));
                                            assert(old_self.lookup(c) == old_sub.lookup(c.drop_first()));
                                            assert(c == split_on(path@, '/') <==> c.drop_first() == split_on(rest@, '/')) by {
                                                assert(split_on(path@, '/') == seq![dir@] + split_on(rest@, '/'));
                                                if c == split_on(path@, '/') {
                                                    assert(c.drop_first() =~= split_on(rest@, '/'));
                                                }
                                                if c.drop_first() == split_on(rest@, '/') {
                                                    assert(c =~= seq![c[0]] + c.drop_first());
                                                }
                                            }
                                        } else {
                                            assert(c != split_on(path@, '/')) by {
                                                if c == split_on(path@, '/') { assert(c[0] == dir@); }
                                            }
                                            assert(find_dir(t, c[0]) == find_dir(s, c[0]));
                                        }
                                    } else if c.len() == 1 {
                                        assert(c != split_on(path@, '/')) by {
                                            if c == split_on(path@, '/') { assert(split_on(rest@, '/').len() >= 1) by { crate::text::lemma_find_char_bound(rest@, '/'); } }
                                        }
                                        assert(find_file(t, c[0]) == find_file(s, c[0]));
                                    } else {
                                        assert(split_on(path@, '/').len() >= 1);
                                    }
                                }
                            }
                        },
                        TreeEntry::File(_, _) => {
                            proof { assert(false); }
                        },
                    }
                } else {
                    let mut sub = Tree::new();
                    proof { use_type_invariant(&sub); }
                    sub.add(rest.as_str(), hash);
                    let ne = TreeEntry::Dir(dir, sub);
                    proof {
                        assert forall|i: int| 0 <= i < p implies entry_lt(s[i], ne) by {}
                        assert forall|i: int| p <= i < s.len() implies entry_lt(ne, s[i]) by {
                            lemma_key_lt_facts(entry_name(s[i]), entry_rank(s[i]), dir@, 0, dir@, 0);
                            if i == p && entry_name(s[i]) == dir@ && entry_rank(s[i]) == 0 {
                                assert(false);
                            }
                            if i > p {
                                assert(entry_lt(s[p as int], s[i]));
                                lemma_key_lt_facts(dir@, 0, entry_name(s[p as int]), entry_rank(s[p as int]), entry_name(s[i]), entry_rank(s[i]));
                                lemma_key_lt_facts(entry_name(s[p as int]), entry_rank(s[p as int]), dir@, 0, dir@, 0);
                            }
                        }
                        lemma_sorted_insert(s, p as int, ne);
                        lemma_find_insert(s, p as int, ne);
                        assert(find_dir(s, dir@) is None) by {
                            if exists|i: int| 0 <= i < s.len() && (#[trigger] s[i]) is Dir && entry_name(s[i]) == dir@ {
                                let i = choose|i: int| 0 <= i < s.len() && (#[trigger] s[i]) is Dir && entry_name(s[i]) == dir@;
                                lemma_key_lt_facts(dir@, 0, dir@, 0, dir@, 0);
                                if i < p {
                                } else if i == p {
                                } else {
                                    assert(entry_lt(s[p as int], s[i]));
                                    lemma_key_lt_facts(entry_name(s[p as int]), entry_rank(s[p as int]), dir@, 0, dir@, 0);
                                }
                            }
                        }
                    }
                    entries.insert(p, ne);
                    proof {
                        if cond {
                            lemma_insert_content(s, p as int, ne);
                        }
                    }
                    proof {
                        let t = entries@;
                        let new_self = Tree { entries: entries };
                        assert forall|c: Seq<Seq<char>>| #[trigger] new_self.lookup(c)
                            == (if c == split_on(path@, '/') { Some(hash@) } else { old_self.lookup(c) }) by {
                            if c.len() > 1 {
                                if c[0] == dir@ {
                                    assert(find_dir(t, c[0]) == Some(sub));
                                    assert(find_dir(s, c[0]) is None);
                                    assert(new_self.lookup(c) == sub.lookup(c.drop_first()));
                                    assert(old_self.lookup(c) is None);
                                    assert(c == split_on(path@, '/') <==> c.drop_first() == split_on(rest@, '/')) by {
                                                assert(split_on(path@, '/') == seq![dir@] + split_on(rest@, '/'));
                                                if c == split_on(path@, '/') {
                                                    assert(c.drop_first() =~= split_on(rest@, '/'));
                                                }
                                        if c.drop_first() == split_on(rest@, '/') {
                                            assert(c =~= seq![c[0]] + c.drop_first());
                                        }
                                    }
                                } else {
                                    assert(c != split_on(path@, '/')) by {
                                        if c == split_on(path@, '/') { assert(c[0] == dir@); }
                                    }
                                    assert(find_dir(t, c[0]) == find_dir(s, c[0]));
                                }
                            } else if c.len() == 1 {
                                assert(c != split_on(path@, '/')) by {
                                    if c == split_on(path@, '/') { assert(split_on(rest@, '/').len() >= 1) by { crate::text::lemma_find_char_bound(rest@, '/'); } }
                                }
                                assert(find_file(t, c[0]) == find_file(s, c[0]));
                            } else {
                                assert(split_on(path@, '/').len() >= 1);
                            }
                        }
                    }
                }
            },
            None => {
                proof {
                    lemma_find_char_bound(path@, '/');
                    assert(!path@.contains('/')) by {
                        if path@.contains('/') {
                            let w = choose|w: int| 0 <= w < path@.len() && path@[w] == '/';
                            assert(find_char(path@, '/') <= w);
                        }
                    }
                    lemma_split_on_none(path@, '/');
                }
                let p = Self::position(&entries, path, 1);
                let found = if p < entries.len() {
                    match &entries[p] {
                        TreeEntry::File(n, _) => text_eq(n.as_str(), path),
                        TreeEntry::Dir(_, _) => false,
                    }
                } else {
                    false
                };
                let ne = TreeEntry::File(String::from_str(path), hash);
                if found {
                    proof {
                        lemma_find_remove(s, p as int);
                        lemma_sorted_remove(s, p as int);
                        let r = s.remove(p as int);
                        assert forall|i: int| 0 <= i < p implies entry_lt(r[i], ne) by {
                            assert(r[i] == s[i]);
                            assert(entry_lt(s[i], s[p as int]));
                        }
                        assert forall|i: int| p <= i < r.len() implies entry_lt(ne, r[i]) by {
                            assert(r[i] == s[i + 1]);
                            assert(entry_lt(s[p as int], s[i + 1]));
                        }
                        lemma_sorted_insert(r, p as int, ne);
                        lemma_find_insert(r, p as int, ne);
                        assert(r.insert(p as int, ne) =~= s.update(p as int, ne));
                    }
                    entries.set(p, ne);
                    proof { if cond { lemma_update_content(s, p as int, ne); } }
                } else {
                    proof {
                        assert forall|i: int| p <= i < s.len() implies entry_lt(ne, s[i]) by {
                            lemma_key_lt_facts(entry_name(s[i]), entry_rank(s[i]), path@, 1, path@, 1);
                            if i > p {
                                assert(entry_lt(s[p as int], s[i]));
                                lemma_key_lt_facts(path@, 1, entry_name(s[p as int]), entry_rank(s[p as int]), entry_name(s[i]), entry_rank(s[i]));
                                lemma_key_lt_facts(entry_name(s[p as int]), entry_rank(s[p as int]), path@, 1, path@, 1);
                            }
                        }
                        lemma_sorted_insert(s, p as int, ne);
                        lemma_find_insert(s, p as int, ne);
                    }
                    entries.insert(p, ne);
                    proof { if cond { lemma_insert_content(s, p as int, ne); } }
                }
                proof {
                    let t = entries@;
                    let new_self = Tree { entries: entries };
                    assert forall|c: Seq<Seq<char>>| #[trigger] new_self.lookup(c)
                        == (if c == split_on(path@, '/') { Some(hash@) } else { old_self.lookup(c) }) by {
                        if c.len() == 1 {
                            assert(c == split_on(path@, '/') <==> c[0] == path@) by {
                                if c[0] == path@ { assert(c =~= seq![path@]); }
                            }
                        } else if c.len() > 1 {
                            assert(find_dir(t, c[0]) == find_dir(s, c[0]));
                        }
                    }
                }
            },
        }
        self.entries = entries;
    }
    /// The content of the tree's object: one entry per line, in order (the
    /// entries are kept sorted by name, a directory before a file of the same
    /// name, so the content does not depend on the order they were added in), each
    /// `<mode> <name>\0` followed by the entry's hash in binary; a
    /// subdirectory's hash is that of its own tree object. An error where a
    /// hash is not hexadecimal.
    pub fn generate_content(&self) -> (r: Result<Vec<u8>, ErrorType>)
        ensures
            match entries_content(self.entries_view()) {
                Some(c) => r matches Ok(v) && v@ == c,
                None => r is Err,
            },
            r matches Err(e) ==> e is Parse,
            sorted_entries(self.entries_view()),
        decreases self,
    {
        proof { use_type_invariant(self); }
        let mut content: Vec<u8> = Vec::new();
        let mut i: usize = 0;
        assert(self.entries@.subrange(0, 0) =~= Seq::<TreeEntry>::empty());
        while i < self.entries.len()
            invariant
                i <= self.entries@.len(),
                entries_content(self.entries@.subrange(0, i as int)) == Some(content@),
                sorted_entries(self.entries@),
            decreases self.entries.len() - i,
        {
            let ghost prev = self.entries@.subrange(0, i as int);
            let ghost next = self.entries@.subrange(0, i + 1);
            assert(next.drop_last() =~= prev);
            assert(next.last() == self.entries@[i as int]);
            let (mode, name, hash_bin) = match &self.entries[i] {
                TreeEntry::File(n, h) => {
                    let b = match h.to_hex() {
                        Ok(b) => b,
                        Err(e) => {
                            proof { lemma_entries_content_none_stays(self.entries@, (i + 1) as nat); }
                            return Err(e);
                        },
                    };
                    ("100644", n, b)
                },
                TreeEntry::Dir(n, sub) => {
                    let c = match sub.generate_content() {
                        Ok(c) => c,
                        Err(e) => {
                            proof { lemma_entries_content_none_stays(self.entries@, (i + 1) as nat); }
                            return Err(e);
                        },
                    };
                    let h = GitHash::hash_tree(&c);
                    let b = match h.to_hex() {
                        Ok(b) => b,
                        Err(e) => {
                            proof { lemma_entries_content_none_stays(self.entries@, (i + 1) as nat); }
                            return Err(e);
                        },
                    };
                    ("040000", n, b)
                },
            };
            let mut line = String::from_str(mode);
            push_text(&mut line, " ");
            push_text(&mut line, name.as_str());
            push_text(&mut line, "\0");
            let line_bytes = text_bytes(line.as_str());
            let ghost before = content@;
            let mut k: usize = 0;
            while k < line_bytes.len()
                invariant
                    k <= line_bytes@.len(),
                    content@ == before + line_bytes@.subrange(0, k as int),
                decreases line_bytes.len() - k,
            {
                content.push(line_bytes[k]);
                k = k + 1;
                assert(content@ =~= before + line_bytes@.subrange(0, k as int));
            }
            let ghost mid = content@;
            let mut k: usize = 0;
            while k < hash_bin.len()
                invariant
                    k <= hash_bin@.len(),
                    content@ == mid + hash_bin@.subrange(0, k as int),
                decreases hash_bin.len() - k,
            {
                content.push(hash_bin[k]);
                k = k + 1;
                assert(content@ =~= mid + hash_bin@.subrange(0, k as int));
            }
            proof {
                reveal_strlit("100644");
                reveal_strlit("040000");
                reveal_strlit(" ");
                reveal_strlit("\0");
                assert(line_bytes@.subrange(0, line_bytes@.len() as int) =~= line_bytes@);
                assert(hash_bin@.subrange(0, hash_bin@.len() as int) =~= hash_bin@);
                assert(line@ =~= mode@ + seq![' '] + name@ + seq!['\0']);
                assert(content@ =~= before + entry_line(mode@, name@, hash_bin@));
            }
            i = i + 1;
        }
        assert(self.entries@.subrange(0, self.entries@.len() as int) =~= self.entries@);
        Ok(content)
    }

    /// The hash of the tree's object.
    pub fn get_hash(&self) -> (r: Result<GitHash, ErrorType>)
        ensures
            match entries_content(self.entries_view()) {
                Some(c) => r matches Ok(h) && h@ == object_hash(c, ObjectType::Tree),
                None => r is Err,
            },
            r matches Err(e) ==> e is Parse,
    {
        let content = match self.generate_content() {
            Ok(c) => c,
            Err(e) => return Err(e),
        };
        Ok(GitHash::hash_tree(&content))
    }

    /// The files of the tree with their paths from its root and their
    /// hashes.
    pub fn get_files_vec(&self) -> (r: Vec<(String, GitHash)>)
        ensures
            r@.map_values(|p: (String, GitHash)| (p.0@, p.1@)) == entries_files(self.entries_view(), Seq::empty()),
    {
        proof { reveal_strlit(""); }
        assert(""@ =~= Seq::<char>::empty());
        self.get_files_vec_rec("")
    }

    fn get_files_vec_rec(&self, current_dir: &str) -> (r: Vec<(String, GitHash)>)
        ensures
            r@.map_values(|p: (String, GitHash)| (p.0@, p.1@)) == entries_files(self.entries_view(), current_dir@),
        decreases self,
    {
        let mut v: Vec<(String, GitHash)> = Vec::new();
        let mut i: usize = 0;
        let ghost f = |p: (String, GitHash)| (p.0@, p.1@);
        assert(self.entries@.subrange(0, 0) =~= Seq::<TreeEntry>::empty());
        assert(v@.map_values(f) =~= Seq::<(Seq<char>, Seq<char>)>::empty());
        while i < self.entries.len()
            invariant
                i <= self.entries@.len(),
                f == (|p: (String, GitHash)| (p.0@, p.1@)),
                v@.map_values(f) == entries_files(self.entries@.subrange(0, i as int), current_dir@),
            decreases self.entries.len() - i,
        {
            let ghost prev = self.entries@.subrange(0, i as int);
            let ghost next = self.entries@.subrange(0, i + 1);
            assert(next.drop_last() =~= prev);
            assert(next.last() == self.entries@[i as int]);
            let ghost before = v@.map_values(f);
            match &self.entries[i] {
                TreeEntry::File(n, h) => {
                    let path = join_path(current_dir, n.as_str());
                    v.push((path, h.clone()));
                    assert(v@.map_values(f) =~= before + seq![(path_join(current_dir@, n@), h@)]);
                },
                TreeEntry::Dir(n, sub) => {
                    let dir = join_path(current_dir, n.as_str());
                    let sub_vec = sub.get_files_vec_rec(dir.as_str());
                    let mut k: usize = 0;
                    while k < sub_vec.len()
                        invariant
                            k <= sub_vec@.len(),
                            f == (|p: (String, GitHash)| (p.0@, p.1@)),
                            v@.map_values(f) == before + sub_vec@.map_values(f).subrange(0, k as int),
                        decreases sub_vec.len() - k,
                    {
                        let (p, h) = &sub_vec[k];
                        let ghost prev_v = v@.map_values(f);
                        assert(sub_vec@.map_values(f)[k as int] == (p@, h@));
                        let pc = p.clone();
                        let hc = h.clone();
                        v.push((pc, hc));
                        assert(v@.map_values(f) =~= prev_v.push((p@, h@)));
                        k = k + 1;
                        assert(v@.map_values(f) =~= before + sub_vec@.map_values(f).subrange(0, k as int));
                    }
                    assert(sub_vec@.map_values(f).subrange(0, sub_vec@.len() as int) =~= sub_vec@.map_values(f));
                },
            }
            i = i + 1;
        }
        assert(self.entries@.subrange(0, self.entries@.len() as int) =~= self.entries@);
        v
    }

    /// The tree of the files an index lists: each file added at its path.
    pub fn from_index(index_vec: Vec<IndexFileInfo>) -> (r: Result<Self, ErrorType>)
        ensures
            r matches Ok(t) && forall|c: Seq<Seq<char>>| #[trigger] t.lookup(c) == index_lookup(info_views(index_vec@), c),
            (forall|i: int| 0 <= i < index_vec@.len() ==> hash_binary(#[trigger] info_views(index_vec@)[i].current) is Some)
                ==> (r matches Ok(t) && entries_content(t.entries_view()) is Some),
    {
        let mut tree = Self::new();
        let mut i: usize = 0;
        let ghost es = info_views(index_vec@);
        let ghost hex = forall|i: int| 0 <= i < index_vec@.len() ==> hash_binary(#[trigger] info_views(index_vec@)[i].current) is Some;
        assert(es.subrange(0, 0) =~= Seq::<IndexEntry>::empty());
        while i < index_vec.len()
            invariant
                i <= index_vec@.len(),
                es == info_views(index_vec@),
                forall|c: Seq<Seq<char>>| #[trigger] tree.lookup(c) == index_lookup(es.subrange(0, i as int), c),
                hex == (forall|i: int| 0 <= i < index_vec@.len() ==> hash_binary(#[trigger] info_views(index_vec@)[i].current) is Some),
                hex ==> entries_content(tree.entries_view()) is Some,
            decreases index_vec.len() - i,
        {
            proof { if hex { assert(hash_binary(es[i as int].current) is Some); } }
            let file = &index_vec[i];
            let path = file.get_path();
            let hash = file.get_hash();
            tree.add(path.as_str(), hash);
            proof {
                let next = es.subrange(0, i + 1);
                assert(next.drop_last() =~= es.subrange(0, i as int));
                assert(next.last() == file@);
            }
            i = i + 1;
        }
        assert(es.subrange(0, es.len() as int) =~= es);
        Ok(tree)
    }
}

/// The hash the last of these entries with a path made of these components
/// records.
pub open spec fn index_lookup(es: Seq<IndexEntry>, c: Seq<Seq<char>>) -> Option<Seq<char>>
    decreases es.len(),
{
    if es.len() == 0 {
        None
    } else if split_on(es.last().path, '/') == c {
        Some(es.last().current)
    } else {
        index_lookup(es.drop_last(), c)
    }
}

proof fn lemma_entries_content_none_stays(es: Seq<TreeEntry>, k: nat)
    requires
        0 < k <= es.len(),
        entries_content(es.subrange(0, k as int)) is None,
    ensures
        entries_content(es) is None,
    decreases es.len(),
{
    if es.len() == k {
        assert(es.subrange(0, k as int) =~= es);
    } else {
        let t = es.drop_last();
        assert(t.subrange(0, k as int) =~= es.subrange(0, k as int));
        lemma_entries_content_none_stays(t, k);
    }
}

/// Whether one entry's line in a tree object can be made: a file's hash is
/// hexadecimal; a directory's own content can be made (its hash is then a
/// digest's hexadecimal text).
pub open spec fn entry_content_ok(e: TreeEntry) -> bool {
    match e {
        TreeEntry::File(_, h) => hash_binary(h@) is Some,
        TreeEntry::Dir(_, sub) => entries_content(sub.entries_view()) is Some,
    }
}

/// The content of entries can be made exactly when each entry's line can.
proof fn lemma_content_each(es: Seq<TreeEntry>)
    ensures
        entries_content(es) is Some <==> forall|i: int| 0 <= i < es.len() ==> #[trigger] entry_content_ok(es[i]),
    decreases es.len(),
{
    if es.len() > 0 {
        lemma_content_each(es.drop_last());
        match es.last() {
            TreeEntry::Dir(_, sub) => {
                if entries_content(sub.entries_view()) is Some {
                    let c = entries_content(sub.entries_view())->Some_0;
                    crate::hash::lemma_hex_converts(sha1_digest(with_header(c, ObjectType::Tree)), 20);
                }
            },
            _ => {},
        }
        if forall|i: int| 0 <= i < es.len() ==> #[trigger] entry_content_ok(es[i]) {
            assert forall|i: int| 0 <= i < es.drop_last().len() implies #[trigger] entry_content_ok(es.drop_last()[i]) by {
                assert(entry_content_ok(es[i]));
            }
            assert(entry_content_ok(es[es.len() - 1]));
        }
        if entries_content(es) is Some {
            assert forall|i: int| 0 <= i < es.len() implies #[trigger] entry_content_ok(es[i]) by {
                if i < es.len() - 1 {
                    assert(es.drop_last()[i] == es[i]);
                }
            }
        }
    }
}

proof fn lemma_update_content(s: Seq<TreeEntry>, p: int, ne: TreeEntry)
    requires
        entries_content(s) is Some,
        entry_content_ok(ne),
        0 <= p < s.len(),
    ensures
        entries_content(s.update(p, ne)) is Some,
{
    lemma_content_each(s);
    let a = s.update(p, ne);
    assert forall|i: int| 0 <= i < a.len() implies #[trigger] entry_content_ok(a[i]) by {
        if i != p { assert(a[i] == s[i]); }
    }
    lemma_content_each(a);
}

proof fn lemma_insert_content(s: Seq<TreeEntry>, p: int, ne: TreeEntry)
    requires
        entries_content(s) is Some,
        entry_content_ok(ne),
        0 <= p <= s.len(),
    ensures
        entries_content(s.insert(p, ne)) is Some,
{
    lemma_content_each(s);
    let a = s.insert(p, ne);
    assert forall|i: int| 0 <= i < a.len() implies #[trigger] entry_content_ok(a[i]) by {
        if i < p { assert(a[i] == s[i]); }
        if i > p { assert(a[i] == s[i - 1]); }
    }
    lemma_content_each(a);
}

/// Putting an entry whose line can be made into entries whose content can
/// be made keeps the content makeable.
proof fn lemma_put_content(es: Seq<TreeEntry>, e: TreeEntry)
    requires
        entries_content(es) is Some,
        entry_content_ok(e),
    ensures
        entries_content(put_entries(es, e)) is Some,
{
    lemma_content_each(es);
    lemma_count_lt_bound(es, entry_name(e), entry_rank(e));
    let p = count_lt(es, entry_name(e), entry_rank(e)) as int;
    let a = put_entries(es, e);
    assert forall|i: int| 0 <= i < a.len() implies #[trigger] entry_content_ok(a[i]) by {
        if p < es.len() && entry_name(es[p]) == entry_name(e) && entry_rank(es[p]) == entry_rank(e) {
            if i != p { assert(a[i] == es[i]); }
        } else {
            if i < p { assert(a[i] == es[i]); }
            if i > p { assert(a[i] == es[i - 1]); }
        }
    }
    lemma_content_each(a);
}

/// The items of a tree object's content: for each, the mode (the text up to
/// a space), the name (up to a NUL) and up to 20 bytes of hash. A missing
/// separator takes the rest of the content.
pub open spec fn tree_items(c: Seq<u8>) -> Seq<(Seq<char>, Seq<char>, Seq<u8>)>
    decreases c.len(),
{
    if c.len() == 0 {
        Seq::empty()
    } else {
        let r1 = bytes_after(c, 32);
        let r2 = bytes_after(r1, 0);
        let n = if r2.len() < 20 { r2.len() } else { 20 };
        proof {
            lemma_find_byte_bound(c, 32);
            lemma_find_byte_bound(r1, 0);
        }
        seq![(latin1(bytes_before(c, 32)), latin1(bytes_before(r1, 0)), r2.subrange(0, n as int))]
            + tree_items(r2.subrange(n as int, r2.len() as int))
    }
}

/// The hash text of the last file item with this name, if there is one.
pub open spec fn items_file(items: Seq<(Seq<char>, Seq<char>, Seq<u8>)>, name: Seq<char>) -> Option<Seq<char>>
    decreases items.len(),
{
    if items.len() == 0 {
        None
    } else if items.last().0 == file_mode() && items.last().1 == name {
        Some(hex_bytes(items.last().2))
    } else {
        items_file(items.drop_last(), name)
    }
}

/// Whether a directory item has this name.
pub open spec fn items_has_dir(items: Seq<(Seq<char>, Seq<char>, Seq<u8>)>, name: Seq<char>) -> bool {
    exists|i: int| 0 <= i < items.len() && (#[trigger] items[i]).0 == dir_mode() && items[i].1 == name
}

/// Whether every item is a file or a directory.
pub open spec fn items_modes_valid(items: Seq<(Seq<char>, Seq<char>, Seq<u8>)>) -> bool {
    forall|i: int| 0 <= i < items.len() ==> (#[trigger] items[i]).0 == file_mode() || items[i].0 == dir_mode()
}

/// Whether every item is a file.
pub open spec fn items_all_files(items: Seq<(Seq<char>, Seq<char>, Seq<u8>)>) -> bool {
    forall|i: int| 0 <= i < items.len() ==> (#[trigger] items[i]).0 == file_mode()
}


/// Whether the tree object with this hash can be read from the store with
/// subtrees nested at most `depth` deep: it is a tree, each of its items is
/// a file or a directory, and each directory's tree can be read in turn.
pub open spec fn tree_ok(store: Map<Seq<char>, Seq<u8>>, hash: Seq<char>, depth: nat) -> bool
    decreases depth, 1nat, 0nat,
{
    match object_parts(store, hash) {
        Some((ObjectType::Tree, _, c)) => items_ok(store, tree_items(c), depth),
        _ => false,
    }
}

/// Whether every item of a tree can be read: each is a file, or a
/// directory whose tree can be read one level less deep.
pub open spec fn items_ok(store: Map<Seq<char>, Seq<u8>>, items: Seq<(Seq<char>, Seq<char>, Seq<u8>)>, depth: nat) -> bool
    decreases depth, 0nat, items.len(),
{
    if items.len() == 0 {
        true
    } else {
        let it = items.last();
        &&& items_ok(store, items.drop_last(), depth)
        &&& (it.0 == file_mode() || (it.0 == dir_mode() && depth > 0
            && tree_ok(store, hex_bytes(it.2), (depth - 1) as nat)))
    }
}

/// Whether one item of a tree can be read.
pub open spec fn item_ok(store: Map<Seq<char>, Seq<u8>>, item: (Seq<char>, Seq<char>, Seq<u8>), depth: nat) -> bool {
    item.0 == file_mode() || (item.0 == dir_mode() && depth > 0 && tree_ok(store, hex_bytes(item.2), (depth - 1) as nat))
}

/// Whether the store holds a blob under a hash whose content is UTF-8 text,
/// as reading a blob asks.
pub open spec fn blob_readable(store: Map<Seq<char>, Seq<u8>>, hash: Seq<char>) -> bool {
    object_parts(store, hash) matches Some((t, _, c)) && t == ObjectType::Blob && vstd::utf8::valid_utf8(c)
}

/// Whether the store holds a readable blob for every file of the tree stored
/// under a hash, its subtrees read at most `depth` levels deeper.
pub open spec fn tree_blobs_ok(store: Map<Seq<char>, Seq<u8>>, hash: Seq<char>, depth: nat) -> bool
    decreases depth, 1nat, 0nat,
{
    match object_parts(store, hash) {
        Some((ObjectType::Tree, _, c)) => items_blobs_ok(store, tree_items(c), depth),
        _ => false,
    }
}

/// Whether the store holds a readable blob for every file item, and for
/// every file of each directory item's tree one level less deep.
pub open spec fn items_blobs_ok(store: Map<Seq<char>, Seq<u8>>, items: Seq<(Seq<char>, Seq<char>, Seq<u8>)>, depth: nat) -> bool
    decreases depth, 0nat, items.len(),
{
    if items.len() == 0 {
        true
    } else {
        let it = items.last();
        &&& items_blobs_ok(store, items.drop_last(), depth)
        &&& (it.0 == file_mode() ==> blob_readable(store, hex_bytes(it.2)))
        &&& (it.0 == dir_mode() && depth > 0 ==> tree_blobs_ok(store, hex_bytes(it.2), (depth - 1) as nat))
    }
}

/// Whether the store holds a readable blob for every file of some entries,
/// those of subtrees included.
pub open spec fn entries_blobs_ok(store: Map<Seq<char>, Seq<u8>>, es: Seq<TreeEntry>) -> bool
    decreases es,
{
    if es.len() == 0 {
        true
    } else {
        &&& entries_blobs_ok(store, es.drop_last())
        &&& match es.last() {
            TreeEntry::File(_, h) => blob_readable(store, h@),
            TreeEntry::Dir(_, sub) => entries_blobs_ok(store, sub.entries_view()),
        }
    }
}

/// Whether the store holds what one entry needs.
pub open spec fn entry_blobs_ok(store: Map<Seq<char>, Seq<u8>>, e: TreeEntry) -> bool {
    match e {
        TreeEntry::File(_, h) => blob_readable(store, h@),
        TreeEntry::Dir(_, sub) => entries_blobs_ok(store, sub.entries_view()),
    }
}

proof fn lemma_entries_blobs_each(store: Map<Seq<char>, Seq<u8>>, es: Seq<TreeEntry>)
    ensures
        entries_blobs_ok(store, es) <==> forall|i: int| 0 <= i < es.len() ==> #[trigger] entry_blobs_ok(store, es[i]),
    decreases es.len(),
{
    if es.len() > 0 {
        lemma_entries_blobs_each(store, es.drop_last());
        if entries_blobs_ok(store, es) {
            assert forall|i: int| 0 <= i < es.len() implies #[trigger] entry_blobs_ok(store, es[i]) by {
                if i < es.len() - 1 {
                    assert(es.drop_last()[i] == es[i]);
                }
            }
        }
        if forall|i: int| 0 <= i < es.len() ==> #[trigger] entry_blobs_ok(store, es[i]) {
            assert forall|i: int| 0 <= i < es.drop_last().len() implies #[trigger] entry_blobs_ok(store, es.drop_last()[i]) by {
                assert(es.drop_last()[i] == es[i]);
            }
            assert(entry_blobs_ok(store, es[es.len() - 1]));
        }
    }
}

proof fn lemma_items_blobs_at(store: Map<Seq<char>, Seq<u8>>, items: Seq<(Seq<char>, Seq<char>, Seq<u8>)>, k: int, depth: nat)
    requires
        items_blobs_ok(store, items, depth),
        0 <= k < items.len(),
    ensures
        items[k].0 == file_mode() ==> blob_readable(store, hex_bytes(items[k].2)),
        items[k].0 == dir_mode() && depth > 0 ==> tree_blobs_ok(store, hex_bytes(items[k].2), (depth - 1) as nat),
    decreases items.len(),
{
    if k < items.len() - 1 {
        assert(items.drop_last()[k] == items[k]);
        lemma_items_blobs_at(store, items.drop_last(), k, depth);
    }
}

/// Every file that a listing of entries names has a readable blob.
pub proof fn lemma_entries_files_blobs(store: Map<Seq<char>, Seq<u8>>, es: Seq<TreeEntry>, prefix: Seq<char>)
    requires
        entries_blobs_ok(store, es),
    ensures
        forall|i: int| 0 <= i < entries_files(es, prefix).len() ==> blob_readable(store, #[trigger] entries_files(es, prefix)[i].1),
    decreases es,
{
    if es.len() > 0 {
        lemma_entries_files_blobs(store, es.drop_last(), prefix);
        let a = entries_files(es.drop_last(), prefix);
        let b = match es.last() {
            TreeEntry::File(n, h) => seq![(path_join(prefix, n@), h@)],
            TreeEntry::Dir(n, sub) => entries_files(sub.entries_view(), path_join(prefix, n@)),
        };
        match es.last() {
            TreeEntry::File(n, h) => {},
            TreeEntry::Dir(n, sub) => { lemma_entries_files_blobs(store, sub.entries_view(), path_join(prefix, n@)); },
        }
        assert(entries_files(es, prefix) == a + b);
        assert forall|i: int| 0 <= i < entries_files(es, prefix).len() implies blob_readable(store, #[trigger] entries_files(es, prefix)[i].1) by {
            if i < a.len() {
                assert(entries_files(es, prefix)[i] == a[i]);
            } else {
                assert(entries_files(es, prefix)[i] == b[i - a.len()]);
            }
        }
    }
}

/// How many entries at the head of a list come before a key.
pub open spec fn count_lt(es: Seq<TreeEntry>, n: Seq<char>, r: nat) -> nat
    decreases es.len(),
{
    if es.len() == 0 {
        0
    } else if key_lt(entry_name(es[0]), entry_rank(es[0]), n, r) {
        1 + count_lt(es.drop_first(), n, r)
    } else {
        0
    }
}

/// Entries with one entry put in at its place, replacing the one of the
/// same name and kind.
pub open spec fn put_entries(es: Seq<TreeEntry>, e: TreeEntry) -> Seq<TreeEntry> {
    let p = count_lt(es, entry_name(e), entry_rank(e)) as int;
    if p < es.len() && entry_name(es[p]) == entry_name(e) && entry_rank(es[p]) == entry_rank(e) {
        es.update(p, e)
    } else {
        es.insert(p, e)
    }
}

/// What a tree keeps of an item: its name, its rank (0 for a directory,
/// 1 for a file) and its hash.
pub type TreeSlot = (Seq<char>, nat, Seq<char>);

/// How many slots at the head of a list come before a key.
pub open spec fn count_lt_slots(ss: Seq<TreeSlot>, n: Seq<char>, r: nat) -> nat
    decreases ss.len(),
{
    if ss.len() == 0 {
        0
    } else if key_lt(ss[0].0, ss[0].1, n, r) {
        1 + count_lt_slots(ss.drop_first(), n, r)
    } else {
        0
    }
}

/// Slots with one slot put in at its place, replacing the one with the same
/// name and rank.
pub open spec fn put_slot(ss: Seq<TreeSlot>, x: TreeSlot) -> Seq<TreeSlot> {
    let p = count_lt_slots(ss, x.0, x.1) as int;
    if p < ss.len() && ss[p].0 == x.0 && ss[p].1 == x.1 {
        ss.update(p, x)
    } else {
        ss.insert(p, x)
    }
}

/// The slots a tree read from these items keeps, in order: each file and
/// directory item put in turn.
pub open spec fn slots_of(items: Seq<(Seq<char>, Seq<char>, Seq<u8>)>) -> Seq<TreeSlot>
    decreases items.len(),
{
    if items.len() == 0 {
        Seq::empty()
    } else {
        let prev = slots_of(items.drop_last());
        let it = items.last();
        if it.0 == file_mode() {
            put_slot(prev, (it.1, 1, hex_bytes(it.2)))
        } else if it.0 == dir_mode() {
            put_slot(prev, (it.1, 0, hex_bytes(it.2)))
        } else {
            prev
        }
    }
}

/// The files, with their paths under `prefix` and their hashes, of the tree
/// stored under a hash, its subtrees read at most `depth` levels deeper: what
/// listing the files of that tree, once read, gives.
pub open spec fn stored_tree_files(store: Map<Seq<char>, Seq<u8>>, hash: Seq<char>, depth: nat, prefix: Seq<char>)
    -> Seq<(Seq<char>, Seq<char>)>
    decreases depth, 1nat, 0nat,
{
    match object_parts(store, hash) {
        Some((ObjectType::Tree, _, c)) => slots_files(store, slots_of(tree_items(c)), depth, prefix),
        _ => Seq::empty(),
    }
}

/// The files of some slots, with their paths under `prefix`.
pub open spec fn slots_files(store: Map<Seq<char>, Seq<u8>>, ss: Seq<TreeSlot>, depth: nat, prefix: Seq<char>)
    -> Seq<(Seq<char>, Seq<char>)>
    decreases depth, 0nat, ss.len(),
{
    if ss.len() == 0 {
        Seq::empty()
    } else {
        let x = ss.last();
        slots_files(store, ss.drop_last(), depth, prefix) + if x.1 == 1 {
            seq![(path_join(prefix, x.0), x.2)]
        } else if depth > 0 {
            stored_tree_files(store, x.2, (depth - 1) as nat, path_join(prefix, x.0))
        } else {
            Seq::empty()
        }
    }
}

/// Whether an entry of a tree is what a slot stands for: the same name and
/// kind, a file's hash, or a directory whose files are those of the tree
/// stored under the slot's hash.
pub open spec fn slot_mirrors(store: Map<Seq<char>, Seq<u8>>, e: TreeEntry, x: TreeSlot, depth: nat) -> bool {
    &&& entry_name(e) == x.0
    &&& entry_rank(e) == x.1
    &&& match e {
        TreeEntry::File(_, h) => h@ == x.2,
        TreeEntry::Dir(_, sub) => depth > 0 && forall|p: Seq<char>| #[trigger] entries_files(sub.entries_view(), p)
            == stored_tree_files(store, x.2, (depth - 1) as nat, p),
    }
}

/// Whether entries stand, one by one, for slots.
pub open spec fn mirrors(store: Map<Seq<char>, Seq<u8>>, es: Seq<TreeEntry>, ss: Seq<TreeSlot>, depth: nat) -> bool {
    es.len() == ss.len() && forall|k: int| 0 <= k < es.len() ==> #[trigger] slot_mirrors(store, es[k], ss[k], depth)
}

proof fn lemma_count_lt_mirrors(store: Map<Seq<char>, Seq<u8>>, es: Seq<TreeEntry>, ss: Seq<TreeSlot>, depth: nat, n: Seq<char>, r: nat)
    requires
        mirrors(store, es, ss, depth),
    ensures
        count_lt(es, n, r) == count_lt_slots(ss, n, r),
    decreases es.len(),
{
    if es.len() > 0 {
        assert(slot_mirrors(store, es[0], ss[0], depth));
        assert forall|k: int| 0 <= k < es.drop_first().len() implies #[trigger] slot_mirrors(store, es.drop_first()[k], ss.drop_first()[k], depth) by {
            assert(slot_mirrors(store, es[k + 1], ss[k + 1], depth));
        }
        lemma_count_lt_mirrors(store, es.drop_first(), ss.drop_first(), depth, n, r);
    }
}

proof fn lemma_count_lt_bound(es: Seq<TreeEntry>, n: Seq<char>, r: nat)
    ensures
        count_lt(es, n, r) <= es.len(),
    decreases es.len(),
{
    if es.len() > 0 {
        lemma_count_lt_bound(es.drop_first(), n, r);
    }
}

proof fn lemma_put_mirrors(store: Map<Seq<char>, Seq<u8>>, es: Seq<TreeEntry>, ss: Seq<TreeSlot>, depth: nat, e: TreeEntry, x: TreeSlot)
    requires
        mirrors(store, es, ss, depth),
        slot_mirrors(store, e, x, depth),
    ensures
        mirrors(store, put_entries(es, e), put_slot(ss, x), depth),
{
    lemma_count_lt_mirrors(store, es, ss, depth, entry_name(e), entry_rank(e));
    lemma_count_lt_bound(es, entry_name(e), entry_rank(e));
    let p = count_lt(es, entry_name(e), entry_rank(e)) as int;
    if p < es.len() {
        assert(slot_mirrors(store, es[p], ss[p], depth));
    }
    let a = put_entries(es, e);
    let b = put_slot(ss, x);
    assert forall|k: int| 0 <= k < a.len() implies #[trigger] slot_mirrors(store, a[k], b[k], depth) by {
        if p < es.len() && entry_name(es[p]) == entry_name(e) && entry_rank(es[p]) == entry_rank(e) {
            if k != p { assert(slot_mirrors(store, es[k], ss[k], depth)); }
        } else {
            if k < p { assert(slot_mirrors(store, es[k], ss[k], depth)); }
            if k > p { assert(slot_mirrors(store, es[k - 1], ss[k - 1], depth)); }
        }
    }
}

/// Entries that stand for slots list the files those slots list.
pub proof fn lemma_mirrors_files(store: Map<Seq<char>, Seq<u8>>, es: Seq<TreeEntry>, ss: Seq<TreeSlot>, depth: nat, prefix: Seq<char>)
    requires
        mirrors(store, es, ss, depth),
    ensures
        entries_files(es, prefix) == slots_files(store, ss, depth, prefix),
    decreases es.len(),
{
    if es.len() > 0 {
        assert forall|k: int| 0 <= k < es.drop_last().len() implies #[trigger] slot_mirrors(store, es.drop_last()[k], ss.drop_last()[k], depth) by {
            assert(slot_mirrors(store, es[k], ss[k], depth));
        }
        lemma_mirrors_files(store, es.drop_last(), ss.drop_last(), depth, prefix);
        assert(slot_mirrors(store, es[es.len() - 1], ss[ss.len() - 1], depth));
        match es.last() {
            TreeEntry::File(n, h) => {},
            TreeEntry::Dir(n, sub) => {
                assert(entries_files(sub.entries_view(), path_join(prefix, n@))
                    == stored_tree_files(store, ss.last().2, (depth - 1) as nat, path_join(prefix, n@)));
            },
        }
    }
}

/// In a sorted list, the place a key belongs at is the count of entries
/// before it.
proof fn lemma_position_count(es: Seq<TreeEntry>, n: Seq<char>, r: nat, p: int)
    requires
        0 <= p <= es.len(),
        forall|i: int| 0 <= i < p ==> key_lt(entry_name(es[i]), entry_rank(es[i]), n, r),
        forall|i: int| p <= i < es.len() ==> !key_lt(entry_name(es[i]), entry_rank(es[i]), n, r),
    ensures
        count_lt(es, n, r) == p,
    decreases es.len(),
{
    if es.len() > 0 {
        if p > 0 {
            assert forall|i: int| 0 <= i < p - 1 implies key_lt(entry_name(es.drop_first()[i]), entry_rank(es.drop_first()[i]), n, r) by {
                assert(es.drop_first()[i] == es[i + 1]);
            }
            assert forall|i: int| p - 1 <= i < es.drop_first().len() implies !key_lt(entry_name(es.drop_first()[i]), entry_rank(es.drop_first()[i]), n, r) by {
                assert(es.drop_first()[i] == es[i + 1]);
            }
            lemma_position_count(es.drop_first(), n, r, p - 1);
        }
    }
}

/// A tree with an item that cannot be read cannot be read.
proof fn lemma_items_not_ok(store: Map<Seq<char>, Seq<u8>>, items: Seq<(Seq<char>, Seq<char>, Seq<u8>)>, k: int, depth: nat)
    requires
        0 <= k < items.len(),
        !item_ok(store, items[k], depth),
    ensures
        !items_ok(store, items, depth),
    decreases items.len(),
{
    if k < items.len() - 1 {
        assert(items.drop_last()[k] == items[k]);
        lemma_items_not_ok(store, items.drop_last(), k, depth);
    }
}

proof fn lemma_items_push(done: Seq<(Seq<char>, Seq<char>, Seq<u8>)>, item: (Seq<char>, Seq<char>, Seq<u8>))
    ensures
        forall|x: Seq<char>| #[trigger] items_has_dir(done.push(item), x)
            == (items_has_dir(done, x) || (item.0 == dir_mode() && item.1 == x)),
        forall|x: Seq<char>| #[trigger] items_file(done.push(item), x)
            == (if item.0 == file_mode() && item.1 == x { Some(hex_bytes(item.2)) } else { items_file(done, x) }),
        items_modes_valid(done) && (item.0 == file_mode() || item.0 == dir_mode()) ==> items_modes_valid(done.push(item)),
{
    let nd = done.push(item);
    assert(nd.drop_last() =~= done);
    assert forall|x: Seq<char>| #[trigger] items_has_dir(nd, x)
        == (items_has_dir(done, x) || (item.0 == dir_mode() && item.1 == x)) by {
        if items_has_dir(done, x) {
            let i = choose|i: int| 0 <= i < done.len() && (#[trigger] done[i]).0 == dir_mode() && done[i].1 == x;
            assert(nd[i] == done[i]);
        }
        if items_has_dir(nd, x) && !items_has_dir(done, x) {
            let i = choose|i: int| 0 <= i < nd.len() && (#[trigger] nd[i]).0 == dir_mode() && nd[i].1 == x;
            if i < done.len() {
                assert(nd[i] == done[i]);
            }
        }
        if item.0 == dir_mode() && item.1 == x {
            assert(nd[done.len() as int] == item);
        }
    }
    if items_modes_valid(done) && (item.0 == file_mode() || item.0 == dir_mode()) {
        assert forall|i: int| 0 <= i < nd.len() implies (#[trigger] nd[i]).0 == file_mode() || nd[i].0 == dir_mode() by {
            if i < done.len() { assert(nd[i] == done[i]); }
        }
    }
}

/// Reads the item of a tree object that starts at `pos`: mode, name, hash
/// bytes, and the position after it.
fn next_tree_item(c: &[u8], pos: usize) -> (r: (String, String, Vec<u8>, usize))
    requires
        pos < c@.len(),
    ensures
        pos < r.3 <= c@.len(),
        tree_items(c@.subrange(pos as int, c@.len() as int))
            == seq![(r.0@, r.1@, r.2@)] + tree_items(c@.subrange(r.3 as int, c@.len() as int)),
{
    let n = c.len();
    let ghost rest = c@.subrange(pos as int, n as int);
    let rest_slice = &c[pos..n];
    assert(rest_slice@ =~= rest);
    let sp = find_byte_exec(rest_slice, 32);
    proof { lemma_find_byte_bound(rest, 32); }
    let mode_bytes = slice_range(rest_slice, 0, sp);
    let mode = latin1_string(mode_bytes.as_slice());
    let after_mode = if sp < rest_slice.len() { pos + sp + 1 } else { n };
    let ghost r1 = bytes_after(rest, 32);
    assert(c@.subrange(after_mode as int, n as int) =~= r1);
    let r1_slice = &c[after_mode..n];
    let nul = find_byte_exec(r1_slice, 0);
    proof { lemma_find_byte_bound(r1, 0); }
    let name_bytes = slice_range(r1_slice, 0, nul);
    let name = latin1_string(name_bytes.as_slice());
    let after_name = if nul < r1_slice.len() { after_mode + nul + 1 } else { n };
    let ghost r2 = bytes_after(r1, 0);
    assert(c@.subrange(after_name as int, n as int) =~= r2);
    let hash_end = if n - after_name < 20 { n } else { after_name + 20 };
    let hash_bytes = slice_range(c, after_name, hash_end);
    let hn = hash_end - after_name;
    assert(hash_bytes@ =~= r2.subrange(0, hn as int));
    assert(mode@ == latin1(bytes_before(rest, 32)));
    assert(name@ == latin1(bytes_before(r1, 0)));
    assert(r2.subrange(hn as int, r2.len() as int) =~= c@.subrange(hash_end as int, n as int));
    assert(tree_items(rest) == seq![(mode@, name@, hash_bytes@)] + tree_items(r2.subrange(hn as int, r2.len() as int)));
    let next = if hash_end > pos { hash_end } else { n };
    assert(hash_end > pos);
    (mode, name, hash_bytes, next)
}

impl Tree {
    /// Puts an entry in, replacing the one with the same name and kind.
    fn put_entry(&mut self, e: TreeEntry)
        ensures
            forall|n: Seq<char>| #[trigger] find_file(final(self).entries_view(), n)
                == (if e is File && entry_name(e) == n { Some(e->File_1@) } else { find_file(old(self).entries_view(), n) }),
            forall|n: Seq<char>| #[trigger] find_dir(final(self).entries_view(), n)
                == (if e is Dir && entry_name(e) == n { Some(e->Dir_1) } else { find_dir(old(self).entries_view(), n) }),
            forall|k: int| 0 <= k < final(self).entries_view().len() ==> #[trigger] final(self).entries_view()[k] == e
                || old(self).entries_view().contains(final(self).entries_view()[k]),
            final(self).entries_view() == put_entries(old(self).entries_view(), e),
    {
        proof { use_type_invariant(&*self); }
        let mut entries: Vec<TreeEntry> = Vec::new();
        std::mem::swap(&mut entries, &mut self.entries);
        let ghost s = entries@;
        let (name, rank): (&String, u8) = match &e {
            TreeEntry::Dir(n, _) => (n, 0),
            TreeEntry::File(n, _) => (n, 1),
        };
        let p = Self::position(&entries, name.as_str(), rank);
        proof { lemma_position_count(s, entry_name(e), entry_rank(e), p as int); }
        let found = if p < entries.len() {
            match &entries[p] {
                TreeEntry::Dir(n, _) => rank == 0 && text_eq(n.as_str(), name.as_str()),
                TreeEntry::File(n, _) => rank == 1 && text_eq(n.as_str(), name.as_str()),
            }
        } else {
            false
        };
        if found {
            proof {
                lemma_find_remove(s, p as int);
                lemma_sorted_remove(s, p as int);
                let r = s.remove(p as int);
                assert forall|i: int| 0 <= i < p implies entry_lt(r[i], e) by {
                    assert(r[i] == s[i]);
                    assert(entry_lt(s[i], s[p as int]));
                }
                assert forall|i: int| p <= i < r.len() implies entry_lt(e, r[i]) by {
                    assert(r[i] == s[i + 1]);
                    assert(entry_lt(s[p as int], s[i + 1]));
                }
                lemma_sorted_insert(r, p as int, e);
                lemma_find_insert(r, p as int, e);
                assert(r.insert(p as int, e) =~= s.update(p as int, e));
            }
            entries.set(p, e);
            assert forall|k: int| 0 <= k < entries@.len() implies #[trigger] entries@[k] == e || s.contains(entries@[k]) by {
                if k != p { assert(entries@[k] == s[k]); }
            }
        } else {
            proof {
                let n0 = entry_name(e);
                let r0 = entry_rank(e);
                assert forall|i: int| p <= i < s.len() implies entry_lt(e, s[i]) by {
                    lemma_key_lt_facts(entry_name(s[i]), entry_rank(s[i]), n0, r0, n0, r0);
                    if i > p {
                        assert(entry_lt(s[p as int], s[i]));
                        lemma_key_lt_facts(n0, r0, entry_name(s[p as int]), entry_rank(s[p as int]), entry_name(s[i]), entry_rank(s[i]));
                        lemma_key_lt_facts(entry_name(s[p as int]), entry_rank(s[p as int]), n0, r0, n0, r0);
                    }
                }
                lemma_sorted_insert(s, p as int, e);
                lemma_find_insert(s, p as int, e);
            }
            entries.insert(p, e);
            assert forall|k: int| 0 <= k < entries@.len() implies #[trigger] entries@[k] == e || s.contains(entries@[k]) by {
                if k < p { assert(entries@[k] == s[k]); }
                if k > p { assert(entries@[k] == s[k - 1]); }
            }
        }
        self.entries = entries;
    }

    /// Reads a tree from the content of its object: each item is a mode, a
    /// name and a hash; files are recorded as they are, and directories are
    /// read from the store. An unknown mode is an error.
    pub fn from_object(hash: &GitHash, content: Vec<u8>, store: &ObjectStore) -> (r: Result<Self, ErrorType>)
        ensures
            r is Ok <==> items_ok(store@, tree_items(content@), usize::MAX as nat),
            r is Ok ==> items_modes_valid(tree_items(content@)),
            items_all_files(tree_items(content@)) ==> r is Ok,
            r matches Ok(t) ==> forall|n: Seq<char>| #[trigger] find_file(t.entries_view(), n) == items_file(tree_items(content@), n),
            r matches Ok(t) ==> forall|n: Seq<char>| #[trigger] find_dir(t.entries_view(), n) is Some <==> items_has_dir(tree_items(content@), n),
    {
        Self::from_object_within(hash, content, store, usize::MAX)
    }

    fn from_object_within(hash: &GitHash, content: Vec<u8>, store: &ObjectStore, depth: usize) -> (r: Result<Self, ErrorType>)
        ensures
            r matches Ok(t) ==> mirrors(store@, t.entries_view(), slots_of(tree_items(content@)), depth as nat),
            r matches Ok(t) ==> entries_content(t.entries_view()) is Some,
            r matches Ok(t) ==> (items_blobs_ok(store@, tree_items(content@), depth as nat)
                ==> entries_blobs_ok(store@, t.entries_view())),
            r is Ok <==> items_ok(store@, tree_items(content@), depth as nat),
            r is Ok ==> items_modes_valid(tree_items(content@)),
            items_all_files(tree_items(content@)) ==> r is Ok,
            r matches Ok(t) ==> forall|n: Seq<char>| #[trigger] find_file(t.entries_view(), n) == items_file(tree_items(content@), n),
            r matches Ok(t) ==> forall|n: Seq<char>| #[trigger] find_dir(t.entries_view(), n) is Some <==> items_has_dir(tree_items(content@), n),
        decreases depth, 0nat,
    {
        let mut tree = Self::new();
        let c = content.as_slice();
        let n = c.len();
        let mut pos: usize = 0;
        let ghost all = tree_items(content@);
        let ghost mut done: Seq<(Seq<char>, Seq<char>, Seq<u8>)> = Seq::empty();
        assert(content@.subrange(0, n as int) =~= content@);
        assert forall|x: Seq<char>| #[trigger] find_file(tree.entries_view(), x) == items_file(done, x) by {
            assert(find_file(tree.entries@, x) is None);
        }
        assert forall|x: Seq<char>| #[trigger] find_dir(tree.entries_view(), x) is Some <==> items_has_dir(done, x) by {
            assert(find_dir(tree.entries@, x) is None);
        }
        assert(mirrors(store@, tree.entries_view(), slots_of(done), depth as nat));
        assert(entries_content(tree.entries_view()) is Some);
        while pos < n
            invariant
                n == content@.len(),
                c@ == content@,
                pos <= n,
                all == tree_items(content@),
                all == done + tree_items(content@.subrange(pos as int, n as int)),
                items_modes_valid(done),
                items_ok(store@, done, depth as nat),
                forall|x: Seq<char>| #[trigger] find_file(tree.entries_view(), x) == items_file(done, x),
                forall|x: Seq<char>| #[trigger] find_dir(tree.entries_view(), x) is Some <==> items_has_dir(done, x),
                items_blobs_ok(store@, all, depth as nat) ==> forall|k: int| 0 <= k < tree.entries_view().len()
                    ==> #[trigger] entry_blobs_ok(store@, tree.entries_view()[k]),
                mirrors(store@, tree.entries_view(), slots_of(done), depth as nat),
                entries_content(tree.entries_view()) is Some,
            decreases n - pos,
        {
            let (mode, name, hash_bytes, hash_end) = next_tree_item(c, pos);
            let hash_entry = match GitHash::from_hex(hash_bytes.as_slice()) {
                Ok(h) => h,
                Err(e) => return Err(e),
            };
            let ghost item = (mode@, name@, hash_bytes@);
            proof {
                assert(content@.subrange(pos as int, n as int) == c@.subrange(pos as int, c@.len() as int));
                reveal_strlit("100644");
                reveal_strlit("040000");
                assert(dir_mode()[0] != file_mode()[0]);
                lemma_items_push(done, item);
            }
            if text_eq(mode.as_str(), "100644") {
                let ghost before = tree.entries_view();
                let ghost e = TreeEntry::File(name, hash_entry);
                proof {
                    if items_blobs_ok(store@, all, depth as nat) {
                        assert(all[done.len() as int] == item);
                        lemma_items_blobs_at(store@, all, done.len() as int, depth as nat);
                    }
                }
                proof {
                    lemma_put_mirrors(store@, before, slots_of(done), depth as nat, e, (item.1, 1nat, hex_bytes(item.2)));
                    crate::hash::lemma_hex_converts(hash_bytes@, 20);
                    lemma_put_content(before, e);
                    assert(done.push(item).drop_last() =~= done);
                }
                tree.put_entry(TreeEntry::File(name, hash_entry));
                proof {
                    if items_blobs_ok(store@, all, depth as nat) {
                        assert forall|k: int| 0 <= k < tree.entries_view().len()
                            implies #[trigger] entry_blobs_ok(store@, tree.entries_view()[k]) by {
                            if tree.entries_view()[k] != e {
                                let q = choose|q: int| 0 <= q < before.len() && before[q] == tree.entries_view()[k];
                                assert(entry_blobs_ok(store@, before[q]));
                            }
                        }
                    }
                }
            } else if text_eq(mode.as_str(), "040000") {
                proof {
                    assert(all[done.len() as int] == item);
                    assert(dir_mode()[0] != file_mode()[0]);
                    assert(!items_all_files(all));
                }
                if depth == 0 {
                    proof {
                        assert(all[done.len() as int] == item);
                        assert(item.0 == dir_mode() && item.0 != file_mode());
                        assert(!item_ok(store@, all[done.len() as int], depth as nat));
                        lemma_items_not_ok(store@, all, done.len() as int, depth as nat);
                    }
                    return Err(ErrorType::FormatError(String::from_str("tree nesting too deep")));
                }
                let sub = match GitObject::read_tree_within(&hash_entry, store, depth - 1) {
                    Ok(t) => t,
                    Err(e) => {
                        proof {
                            assert(!item_ok(store@, item, depth as nat));
                            assert(all[done.len() as int] == item);
                            lemma_items_not_ok(store@, all, done.len() as int, depth as nat);
                        }
                        return Err(e);
                    },
                };
                proof { assert(item_ok(store@, item, depth as nat)); }
                let ghost before = tree.entries_view();
                let ghost e = TreeEntry::Dir(name, sub);
                proof {
                    if items_blobs_ok(store@, all, depth as nat) {
                        assert(all[done.len() as int] == item);
                        lemma_items_blobs_at(store@, all, done.len() as int, depth as nat);
                        assert(entry_blobs_ok(store@, e));
                    }
                }
                proof {
                    assert(slot_mirrors(store@, e, (item.1, 0nat, hex_bytes(item.2)), depth as nat));
                    lemma_put_mirrors(store@, before, slots_of(done), depth as nat, e, (item.1, 0nat, hex_bytes(item.2)));
                    lemma_put_content(before, e);
                    assert(done.push(item).drop_last() =~= done);
                }
                tree.put_entry(TreeEntry::Dir(name, sub));
                proof {
                    if items_blobs_ok(store@, all, depth as nat) {
                        assert forall|k: int| 0 <= k < tree.entries_view().len()
                            implies #[trigger] entry_blobs_ok(store@, tree.entries_view()[k]) by {
                            if tree.entries_view()[k] != e {
                                let q = choose|q: int| 0 <= q < before.len() && before[q] == tree.entries_view()[k];
                                assert(entry_blobs_ok(store@, before[q]));
                            }
                        }
                    }
                }
            } else {
                proof {
                    assert(all[done.len() as int] == item);
                    assert(!items_modes_valid(all));
                    assert(!items_all_files(all));
                    assert(item.0 != dir_mode() && item.0 != file_mode());
                    assert(!item_ok(store@, all[done.len() as int], depth as nat));
                    lemma_items_not_ok(store@, all, done.len() as int, depth as nat);
                }
                let mut msg = String::from_str("invalid UNIX filesystem mode ('");
                push_text(&mut msg, mode.as_str());
                push_text(&mut msg, "') in tree '");
                push_text(&mut msg, hash.as_str());
                push_text(&mut msg, "'");
                return Err(ErrorType::FormatError(msg));
            }
            proof {
                let nd = done.push(item);
                assert(all =~= nd + tree_items(content@.subrange(hash_end as int, n as int)));
                assert(item_ok(store@, item, depth as nat));
                assert(nd.drop_last() =~= done);
                done = nd;
            }
            pos = hash_end;
        }
        proof {
            assert(content@.subrange(n as int, n as int) =~= Seq::<u8>::empty());
            assert(all =~= done);
            lemma_entries_blobs_each(store@, tree.entries_view());
        }
        Ok(tree)
    }
}

impl GitObject {
    /// Reads a tree object from the store.
    pub fn read_tree(hash: &GitHash, store: &ObjectStore) -> (r: Result<Tree, ErrorType>)
        ensures
            r matches Ok(t) ==> forall|p: Seq<char>| #[trigger] entries_files(t.entries_view(), p)
                == stored_tree_files(store@, hash@, usize::MAX as nat, p),
            r matches Ok(t) ==> entries_content(t.entries_view()) is Some,
            r matches Ok(t) ==> (tree_blobs_ok(store@, hash@, usize::MAX as nat) ==> entries_blobs_ok(store@, t.entries_view())),
            r is Ok <==> tree_ok(store@, hash@, usize::MAX as nat),
            object_parts(store@, hash@) is None ==> r is Err,
            object_parts(store@, hash@) matches Some((t, _, _)) ==> (t != ObjectType::Tree
                ==> (r matches Err(ErrorType::ObjectType(a, b)) && a@ == "tree"@ && b@ == object_kind_name(t))),
    {
        Self::read_tree_within(hash, store, usize::MAX)
    }

    fn read_tree_within(hash: &GitHash, store: &ObjectStore, depth: usize) -> (r: Result<Tree, ErrorType>)
        ensures
            r matches Ok(t) ==> forall|p: Seq<char>| #[trigger] entries_files(t.entries_view(), p)
                == stored_tree_files(store@, hash@, depth as nat, p),
            r matches Ok(t) ==> entries_content(t.entries_view()) is Some,
            r matches Ok(t) ==> (tree_blobs_ok(store@, hash@, depth as nat) ==> entries_blobs_ok(store@, t.entries_view())),
            r is Ok <==> tree_ok(store@, hash@, depth as nat),
            object_parts(store@, hash@) is None ==> r is Err,
            object_parts(store@, hash@) matches Some((t, _, _)) ==> (t != ObjectType::Tree
                ==> (r matches Err(ErrorType::ObjectType(a, b)) && a@ == "tree"@ && b@ == object_kind_name(t))),
        decreases depth, 1nat,
    {
        let (obj_type, _, content) = match Self::parse_object(hash, store) {
            Ok(p) => p,
            Err(e) => return Err(e),
        };
        match obj_type {
            ObjectType::Tree => {
                let ghost items = tree_items(content@);
                let r = Tree::from_object_within(hash, content, store, depth);
                proof {
                    if r is Ok {
                        let t = r->Ok_0;
                        assert forall|p: Seq<char>| #[trigger] entries_files(t.entries_view(), p)
                            == stored_tree_files(store@, hash@, depth as nat, p) by {
                            lemma_mirrors_files(store@, t.entries_view(), slots_of(items), depth as nat, p);
                        }
                    }
                }
                r
            },
            _ => Err(ErrorType::ObjectType(String::from_str("tree"), obj_type.to_string())),
        }
    }
}

/// Where a listing of entries has content, so has each subdirectory in it.
proof fn lemma_content_sub(es: Seq<TreeEntry>, i: int)
    requires
        entries_content(es) is Some,
        0 <= i < es.len(),
    ensures
        es[i] matches TreeEntry::Dir(_, sub) ==> entries_content(sub.entries_view()) is Some,
    decreases es.len(),
{
    if i < es.len() - 1 {
        assert(es.drop_last()[i] == es[i]);
        lemma_content_sub(es.drop_last(), i);
    }
}

/// The hash and file under which a tree object of this content is kept.
pub open spec fn tree_object_file(c: Seq<u8>) -> (Seq<char>, Seq<u8>) {
    (object_hash(c, ObjectType::Tree), zlib_deflate(with_header(c, ObjectType::Tree)))
}

/// The objects that saving a listing of entries keeps, in order: those of
/// each subdirectory in turn, then the listing's own tree object.
pub open spec fn tree_saves(es: Seq<TreeEntry>) -> Seq<(Seq<char>, Seq<u8>)>
    decreases es, 1nat,
{
    dir_saves(es) + match entries_content(es) {
        Some(c) => seq![tree_object_file(c)],
        None => Seq::empty(),
    }
}

/// The objects that saving the subdirectories of a listing keeps, in order.
pub open spec fn dir_saves(es: Seq<TreeEntry>) -> Seq<(Seq<char>, Seq<u8>)>
    decreases es, 0nat,
{
    if es.len() == 0 {
        Seq::empty()
    } else {
        dir_saves(es.drop_last()) + match es.last() {
            TreeEntry::Dir(_, sub) => tree_saves(sub.entries_view()),
            TreeEntry::File(_, _) => Seq::empty(),
        }
    }
}

impl Tree {
    /// Stores the tree's object, and before it those of its subtrees.
    pub fn save(&self, store: &mut ObjectStore) -> (r: Result<(), ErrorType>)
        ensures
            entries_content(self.entries_view()) is None ==> r is Err,
            entries_content(self.entries_view()) is Some ==> r is Ok,
            r is Ok ==> (entries_content(self.entries_view()) matches Some(c)
                && object_parts(final(store)@, object_hash(c, ObjectType::Tree)) == Some((ObjectType::Tree, c.len(), c))),
            r is Ok ==> final(store)@ == stored_after(old(store)@, tree_saves(self.entries_view())),
            r is Ok ==> final(store).written_view() == old(store).written_view() + tree_saves(self.entries_view()),
        decreases self,
    {
        let ghost m0 = store@;
        let ghost w0 = store.written_view();
        let mut i: usize = 0;
        assert(self.entries@.subrange(0, 0) =~= Seq::<TreeEntry>::empty());
        assert(w0 + dir_saves(self.entries@.subrange(0, 0)) =~= w0);
        while i < self.entries.len()
            invariant
                i <= self.entries@.len(),
                store@ == stored_after(m0, dir_saves(self.entries@.subrange(0, i as int))),
                store.written_view() == w0 + dir_saves(self.entries@.subrange(0, i as int)),
            decreases self.entries.len() - i,
        {
            let ghost prev = self.entries@.subrange(0, i as int);
            let ghost next = self.entries@.subrange(0, i + 1);
            proof {
                assert(next.drop_last() =~= prev);
                assert(next.last() == self.entries@[i as int]);
            }
            match &self.entries[i] {
                TreeEntry::Dir(_, sub) => {
                    proof {
                        if entries_content(self.entries_view()) is Some {
                            lemma_content_sub(self.entries_view(), i as int);
                        }
                    }
                    match sub.save(store) {
                        Ok(()) => {},
                        Err(e) => return Err(e),
                    }
                    proof {
                        assert(dir_saves(next) == dir_saves(prev) + tree_saves(sub.entries_view()));
                        lemma_stored_after_concat(m0, dir_saves(prev), tree_saves(sub.entries_view()));
                        assert(store.written_view() =~= w0 + dir_saves(next));
                    }
                },
                TreeEntry::File(_, _) => {
                    assert(dir_saves(next) =~= dir_saves(prev));
                },
            }
            i = i + 1;
        }
        assert(self.entries@.subrange(0, self.entries@.len() as int) =~= self.entries@);
        let content = match self.generate_content() {
            Ok(c) => c,
            Err(e) => return Err(e),
        };
        let ghost ds = dir_saves(self.entries@);
        let ghost x = tree_object_file(content@);
        match GitObject::save_tree(content, store) {
            Ok(_) => {
                proof {
                    assert(tree_saves(self.entries@) =~= ds.push(x));
                    lemma_stored_after_push(m0, ds, x);
                    assert(store.written_view() =~= w0 + ds.push(x));
                }
                Ok(())
            },
            Err(e) => Err(e),
        }
    }
}

impl Tree {
    /// A copy of the tree: entries with the same names, kinds and file
    /// hashes, in the same order.
    pub fn clone_tree(&self) -> (r: Tree)
        ensures
            r.entries_view().len() == self.entries_view().len(),
            forall|i: int| 0 <= i < self.entries_view().len() ==> {
                &&& entry_name(#[trigger] r.entries_view()[i]) == entry_name(self.entries_view()[i])
                &&& entry_rank(r.entries_view()[i]) == entry_rank(self.entries_view()[i])
                &&& (self.entries_view()[i] is File ==> r.entries_view()[i]->File_1@ == self.entries_view()[i]->File_1@)
            },
            forall|p: Seq<char>| #[trigger] entries_files(r.entries_view(), p) == entries_files(self.entries_view(), p),
            entries_content(r.entries_view()) == entries_content(self.entries_view()),
        decreases self,
    {
        proof { use_type_invariant(self); }
        let mut entries: Vec<TreeEntry> = Vec::new();
        let mut i: usize = 0;
        while i < self.entries.len()
            invariant
                i <= self.entries@.len(),
                entries@.len() == i,
                sorted_entries(self.entries@),
                forall|j: int| 0 <= j < i ==> {
                    &&& entry_name(#[trigger] entries@[j]) == entry_name(self.entries@[j])
                    &&& entry_rank(entries@[j]) == entry_rank(self.entries@[j])
                    &&& (self.entries@[j] is File ==> entries@[j]->File_1@ == self.entries@[j]->File_1@)
                },
                forall|j: int| 0 <= j < i ==> #[trigger] same_listing(entries@[j], self.entries@[j]),
            decreases self.entries.len() - i,
        {
            let e = match &self.entries[i] {
                TreeEntry::Dir(n, sub) => TreeEntry::Dir(n.clone(), sub.clone_tree()),
                TreeEntry::File(n, h) => TreeEntry::File(n.clone(), h.clone()),
            };
            entries.push(e);
            i = i + 1;
        }
        assert(sorted_entries(entries@)) by {
            assert forall|a: int, b: int| 0 <= a < b < entries@.len() implies entry_lt(entries@[a], entries@[b]) by {
                assert(entry_lt(self.entries@[a], self.entries@[b]));
                assert(entry_name(entries@[a]) == entry_name(self.entries@[a]));
                assert(entry_name(entries@[b]) == entry_name(self.entries@[b]));
            }
        }
        proof {
            assert forall|p: Seq<char>| #[trigger] entries_files(entries@, p) == entries_files(self.entries@, p) by {
                lemma_same_listing_files(entries@, self.entries@, p);
            }
            lemma_same_listing_content(entries@, self.entries@);
        }
        Tree { entries }
    }
}

/// Whether two entries list the same files under any prefix.
pub open spec fn same_listing(a: TreeEntry, b: TreeEntry) -> bool {
    match (a, b) {
        (TreeEntry::File(n1, h1), TreeEntry::File(n2, h2)) => n1@ == n2@ && h1@ == h2@,
        (TreeEntry::Dir(n1, s1), TreeEntry::Dir(n2, s2)) => n1@ == n2@
            && entries_content(s1.entries_view()) == entries_content(s2.entries_view())
            && (forall|p: Seq<char>| #[trigger] entries_files(s1.entries_view(), p) == entries_files(s2.entries_view(), p)),
        _ => false,
    }
}

proof fn lemma_same_listing_content(a: Seq<TreeEntry>, b: Seq<TreeEntry>)
    requires
        a.len() == b.len(),
        forall|j: int| 0 <= j < a.len() ==> #[trigger] same_listing(a[j], b[j]),
    ensures
        entries_content(a) == entries_content(b),
    decreases a.len(),
{
    if a.len() > 0 {
        assert forall|j: int| 0 <= j < a.drop_last().len() implies #[trigger] same_listing(a.drop_last()[j], b.drop_last()[j]) by {
            assert(same_listing(a[j], b[j]));
        }
        lemma_same_listing_content(a.drop_last(), b.drop_last());
        assert(same_listing(a[a.len() - 1], b[b.len() - 1]));
        assert(a.last() == a[a.len() - 1]);
        assert(b.last() == b[b.len() - 1]);
        match (a.last(), b.last()) {
            (TreeEntry::Dir(n1, s1), TreeEntry::Dir(n2, s2)) => {
                assert(entries_content(s1.entries_view()) == entries_content(s2.entries_view()));
            },
            (TreeEntry::File(n1, h1), TreeEntry::File(n2, h2)) => {
                assert(n1@ == n2@ && h1@ == h2@);
            },
            _ => {},
        }
    }
}

proof fn lemma_same_listing_files(a: Seq<TreeEntry>, b: Seq<TreeEntry>, p: Seq<char>)
    requires
        a.len() == b.len(),
        forall|j: int| 0 <= j < a.len() ==> #[trigger] same_listing(a[j], b[j]),
    ensures
        entries_files(a, p) == entries_files(b, p),
    decreases a.len(),
{
    if a.len() > 0 {
        assert forall|j: int| 0 <= j < a.drop_last().len() implies #[trigger] same_listing(a.drop_last()[j], b.drop_last()[j]) by {
            assert(same_listing(a[j], b[j]));
        }
        lemma_same_listing_files(a.drop_last(), b.drop_last(), p);
        assert(same_listing(a[a.len() - 1], b[b.len() - 1]));
        match (a.last(), b.last()) {
            (TreeEntry::Dir(n1, s1), TreeEntry::Dir(n2, s2)) => {
                assert(entries_files(s1.entries_view(), path_join(p, n1@)) == entries_files(s2.entries_view(), path_join(p, n1@)));
            },
            _ => {},
        }
    }
}

} // verus!