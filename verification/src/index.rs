use vstd::prelude::*;
use crate::errors::ErrorType;
use crate::index_file_info::{IndexFileInfo, IndexEntry, IndexLineError, parse_index_line, index_line,
    line_error_matches, changed_entry, change_needs_blob, blob_hash_text};
use crate::text::{lines, lines_of, views, concat, push_text, text_eq, join_with, join_strings,
    strip_cr, lemma_lines_cons, lemma_split_on_none, lemma_split_on_cons, lemma_concat_cons, split_on};
use crate::hash::valid_hash_text;
use crate::refs::{BranchRef, branch_name_of};
use crate::index_file_info::previous_text;

verus! {

/// The map from path to entry that a list of entries gives, a later entry
/// for a path replacing an earlier one.
pub open spec fn entries_map(s: Seq<IndexEntry>) -> Map<Seq<char>, IndexEntry>
    decreases s.len(),
{
    if s.len() == 0 {
        Map::empty()
    } else {
        entries_map(s.drop_last()).insert(s.last().path, s.last())
    }
}

/// Whether no two entries of a list have the same path.
pub open spec fn distinct_paths(s: Seq<IndexEntry>) -> bool {
    forall|i: int, j: int| 0 <= i < j < s.len() ==> s[i].path != s[j].path
}

/// The entries of the lines of an index file, or the error of the first line
/// that cannot be read.
pub open spec fn parse_index_lines(ls: Seq<Seq<char>>) -> Result<Seq<IndexEntry>, IndexLineError>
    decreases ls.len(),
{
    if ls.len() == 0 {
        Ok(Seq::empty())
    } else {
        match parse_index_lines(ls.drop_last()) {
            Err(e) => Err(e),
            Ok(es) => match parse_index_line(ls.last()) {
                Ok(e) => Ok(es.push(e)),
                Err(e) => Err(e),
            },
        }
    }
}

/// The text of an index file holding these entries, one line each.
pub open spec fn index_text(s: Seq<IndexEntry>) -> Seq<char> {
    concat(s.map_values(|e: IndexEntry| index_line(e)))
}

/// The views of a list of index entries.
pub open spec fn info_views(v: Seq<IndexFileInfo>) -> Seq<IndexEntry> {
    v.map_values(|i: IndexFileInfo| i@)
}

/// The files of a listing sorted by what the index knows of them: those it
/// does not track, those changed since they were added, and those added
/// since the last commit. Ignored files are left out, and so are tracked
/// files that are as they were committed.
pub open spec fn status_spec(
    files: Seq<(Seq<char>, Seq<u8>)>,
    ignored: Seq<Seq<char>>,
    m: Map<Seq<char>, IndexEntry>,
) -> (Seq<Seq<char>>, Seq<Seq<char>>, Seq<Seq<char>>)
    decreases files.len(),
{
    if files.len() == 0 {
        (Seq::empty(), Seq::empty(), Seq::empty())
    } else {
        let (u, n, s) = status_spec(files.drop_last(), ignored, m);
        let (path, content) = files.last();
        if ignored.contains(path) {
            (u, n, s)
        } else if !m.contains_key(path) {
            (u.push(path), n, s)
        } else if blob_hash_text(content) != m[path].current {
            (u, n.push(path), s)
        } else if m[path].previous is Some {
            (u, n, s.push(path))
        } else {
            (u, n, s)
        }
    }
}

/// The paths and contents of a listing of files.
pub open spec fn file_views(v: Seq<(String, Vec<u8>)>) -> Seq<(Seq<char>, Seq<u8>)> {
    v.map_values(|f: (String, Vec<u8>)| (f.0@, f.1@))
}

/// The lines that list files under a status heading: a tab before each.
pub open spec fn listed(files: Seq<Seq<char>>) -> Seq<char>
    decreases files.len(),
{
    if files.len() == 0 {
        Seq::empty()
    } else {
        listed(files.drop_last()) + seq!['\t'] + files.last() + seq!['\n']
    }
}

/// What `status` prints: the branch, then each non-empty group of files
/// under its heading.
pub open spec fn status_report(
    branch: Option<Seq<char>>,
    untracked: Seq<Seq<char>>,
    not_staged: Seq<Seq<char>>,
    staged: Seq<Seq<char>>,
) -> Seq<char> {
    let head = match branch {
        Some(b) => "On branch "@ + b + "\n"@,
        None => "Not currently on any branch.\n"@,
    };
    if untracked.len() == 0 && not_staged.len() == 0 && staged.len() == 0 {
        head + "Up to date. Nothing to commit.\n"@
    } else {
        head
            + (if staged.len() > 0 { "Changes to be commited:\n"@ + listed(staged) + "\n"@ } else { Seq::empty() })
            + (if not_staged.len() > 0 {
                "Changes not staged for commit:\n    (Use 'git-rustico add <file>...' to update what will be commited)\n"@
                    + listed(not_staged) + "\n"@
            } else {
                Seq::empty()
            })
            + (if untracked.len() > 0 {
                "Untracked files:\n    (Use 'git-rustico add <file>' to include in what will be commited)\n"@
                    + listed(untracked) + "\n"@
            } else {
                Seq::empty()
            })
            + (if staged.len() == 0 { "nothing added to commit (use 'git-rustico add <file>')\n"@ } else { Seq::empty() })
    }
}

/// The one-line summary of a status.
pub open spec fn status_summary(untracked: Seq<Seq<char>>, not_staged: Seq<Seq<char>>, staged: Seq<Seq<char>>) -> Seq<char> {
    if untracked.len() == 0 && not_staged.len() == 0 && staged.len() == 0 {
        "Up to date. Nothing to commit."@
    } else {
        "Exist files:"@
            + (if staged.len() > 0 { " To be commited."@ } else { Seq::empty() })
            + (if not_staged.len() > 0 { " Not staged for commit."@ } else { Seq::empty() })
            + (if untracked.len() > 0 { " Untracked."@ } else { Seq::empty() })
    }
}

pub proof fn lemma_entries_map_distinct(s: Seq<IndexEntry>)
    requires
        distinct_paths(s),
    ensures
        forall|i: int| 0 <= i < s.len() ==> #[trigger] entries_map(s).contains_key(s[i].path)
            && entries_map(s)[s[i].path] == s[i],
        forall|p: Seq<char>| #[trigger] entries_map(s).contains_key(p) ==> exists|i: int| 0 <= i < s.len() && s[i].path == p,
    decreases s.len(),
{
    if s.len() > 0 {
        let t = s.drop_last();
        assert(distinct_paths(t));
        lemma_entries_map_distinct(t);
        assert forall|i: int| 0 <= i < s.len() implies #[trigger] entries_map(s).contains_key(s[i].path)
            && entries_map(s)[s[i].path] == s[i] by {
            if i < s.len() - 1 {
                assert(t[i] == s[i]);
                assert(s[i].path != s.last().path);
                assert(entries_map(t).contains_key(t[i].path) && entries_map(t)[t[i].path] == t[i]);
            }
        }
        assert forall|p: Seq<char>| #[trigger] entries_map(s).contains_key(p) implies exists|i: int| 0 <= i < s.len() && s[i].path == p by {
            if p != s.last().path {
                assert(entries_map(t).contains_key(p));
                let i = choose|i: int| 0 <= i < t.len() && t[i].path == p;
                assert(s[i] == t[i]);
            } else {
                assert(s[s.len() - 1].path == p);
            }
        }
    }
}

proof fn lemma_entries_map_update(s: Seq<IndexEntry>, k: int, e: IndexEntry)
    requires
        distinct_paths(s),
        0 <= k < s.len(),
        s[k].path == e.path,
    ensures
        distinct_paths(s.update(k, e)),
        entries_map(s.update(k, e)) == entries_map(s).insert(e.path, e),
    decreases s.len(),
{
    let u = s.update(k, e);
    assert(distinct_paths(u)) by {
        assert forall|i: int, j: int| 0 <= i < j < u.len() implies u[i].path != u[j].path by {
            assert(s[i].path != s[j].path);
        }
    }
    if k == s.len() - 1 {
        assert(u.drop_last() =~= s.drop_last());
        assert(entries_map(s).insert(e.path, e) =~= entries_map(s.drop_last()).insert(e.path, e));
    } else {
        let t = s.drop_last();
        assert(distinct_paths(t));
        lemma_entries_map_update(t, k, e);
        assert(u.drop_last() =~= t.update(k, e));
        assert(s.last().path != e.path);
        assert(entries_map(u) =~= entries_map(s).insert(e.path, e));
    }
}

proof fn lemma_entries_map_remove(s: Seq<IndexEntry>, k: int)
    requires
        distinct_paths(s),
        0 <= k < s.len(),
    ensures
        distinct_paths(s.remove(k)),
        entries_map(s.remove(k)) == entries_map(s).remove(s[k].path),
    decreases s.len(),
{
    let u = s.remove(k);
    assert(distinct_paths(u)) by {
        assert forall|i: int, j: int| 0 <= i < j < u.len() implies u[i].path != u[j].path by {
            let i2 = if i < k { i } else { i + 1 };
            let j2 = if j < k { j } else { j + 1 };
            assert(u[i] == s[i2]);
            assert(u[j] == s[j2]);
        }
    }
    let t = s.drop_last();
    assert(distinct_paths(t));
    if k == s.len() - 1 {
        assert(u =~= t);
        lemma_entries_map_distinct(t);
        assert(!entries_map(t).contains_key(s[k].path)) by {
            if entries_map(t).contains_key(s[k].path) {
                let i = choose|i: int| 0 <= i < t.len() && t[i].path == s[k].path;
                assert(s[i].path == s[k].path);
            }
        }
        assert(entries_map(s).remove(s[k].path) =~= entries_map(t));
    } else {
        lemma_entries_map_remove(t, k);
        assert(u.drop_last() =~= t.remove(k));
        assert(u.last() == s.last());
        assert(s.last().path != s[k].path);
        assert(entries_map(u) =~= entries_map(s).remove(s[k].path));
    }
}

proof fn lemma_entries_map_push(s: Seq<IndexEntry>, e: IndexEntry)
    requires
        distinct_paths(s),
        !entries_map(s).contains_key(e.path),
    ensures
        distinct_paths(s.push(e)),
        entries_map(s.push(e)) == entries_map(s).insert(e.path, e),
{
    lemma_entries_map_distinct(s);
    let u = s.push(e);
    assert(distinct_paths(u)) by {
        assert forall|i: int, j: int| 0 <= i < j < u.len() implies u[i].path != u[j].path by {
            if j == s.len() {
                assert(u[i] == s[i]);
                assert(entries_map(s).contains_key(s[i].path));
            } else {
                assert(u[i] == s[i] && u[j] == s[j]);
            }
        }
    }
    assert(u.drop_last() =~= s);
}

proof fn lemma_entries_map_reset(s: Seq<IndexEntry>)
    ensures
        entries_map(s.map_values(|e: IndexEntry| IndexEntry { previous: None, ..e }))
            == entries_map(s).map_values(|e: IndexEntry| IndexEntry { previous: None, ..e }),
    decreases s.len(),
{
    let f = |e: IndexEntry| IndexEntry { previous: None, ..e };
    let r = s.map_values(f);
    if s.len() == 0 {
        assert(entries_map(s).map_values(f) =~= Map::empty());
    } else {
        lemma_entries_map_reset(s.drop_last());
        assert(r.drop_last() =~= s.drop_last().map_values(f));
        assert(entries_map(r) =~= entries_map(s).map_values(f));
    }
}

/// The staging area: what is known of each tracked file, by path.
pub struct Index {
    entries: Vec<IndexFileInfo>,
}

impl View for Index {
    type V = Map<Seq<char>, IndexEntry>;

    closed spec fn view(&self) -> Map<Seq<char>, IndexEntry> {
        entries_map(info_views(self.entries@))
    }
}

impl Index {
    #[verifier::type_invariant]
    spec fn well_formed(&self) -> bool {
        distinct_paths(info_views(self.entries@))
    }

    /// Position of the entry with this path, if there is one.
    fn find(&self, path: &str) -> (r: Option<usize>)
        ensures
            match r {
                Some(k) => k < self.entries@.len() && self.entries@[k as int]@.path == path@,
                None => !self@.contains_key(path@),
            },
    {
        proof {
            use_type_invariant(self);
            lemma_entries_map_distinct(info_views(self.entries@));
        }
        let mut k: usize = 0;
        while k < self.entries.len()
            invariant
                k <= self.entries@.len(),
                forall|i: int| 0 <= i < k ==> self.entries@[i]@.path != path@,
            decreases self.entries.len() - k,
        {
            let p = self.entries[k].get_path();
            if text_eq(p.as_str(), path) {
                return Some(k);
            }
            k = k + 1;
        }
        proof {
            if self@.contains_key(path@) {
                let i = choose|i: int| 0 <= i < info_views(self.entries@).len() && info_views(self.entries@)[i].path == path@;
                assert(self.entries@[i]@.path == path@);
            }
        }
        None
    }

    /// Puts an entry in, replacing the one with the same path.
    fn insert(&mut self, info: IndexFileInfo)
        ensures
            final(self)@ == old(self)@.insert(info@.path, info@),
    {
        proof { use_type_invariant(&*self); }
        let path = info.get_path();
        match self.find(path.as_str()) {
            Some(k) => {
                let ghost s = info_views(self.entries@);
                proof { lemma_entries_map_update(s, k as int, info@); }
                let mut entries: Vec<IndexFileInfo> = Vec::new();
                std::mem::swap(&mut entries, &mut self.entries);
                entries.set(k, info);
                assert(info_views(entries@) =~= s.update(k as int, info@));
                self.entries = entries;
            },
            None => {
                let ghost s = info_views(self.entries@);
                proof { lemma_entries_map_push(s, info@); }
                let mut entries: Vec<IndexFileInfo> = Vec::new();
                std::mem::swap(&mut entries, &mut self.entries);
                entries.push(info);
                assert(info_views(entries@) =~= s.push(info@));
                self.entries = entries;
            },
        }
    }

    /// An empty index.
    pub fn empty() -> (r: Self)
        ensures
            r@ == Map::<Seq<char>, IndexEntry>::empty(),
    {
        let r = Index { entries: Vec::new() };
        assert(info_views(r.entries@) =~= Seq::<IndexEntry>::empty());
        r
    }

    /// Reads the index from the text of its file, one entry per line; a later
    /// line for a path replaces an earlier one. The first line that cannot be
    /// read gives the error.
    pub fn new(index_text: &str) -> (r: Result<Self, ErrorType>)
        ensures
            match parse_index_lines(lines(index_text@)) {
                Ok(es) => r matches Ok(idx) && idx@ == entries_map(es),
                Err(e) => r matches Err(err) && line_error_matches(err, e),
            },
    {
        let ls = lines_of(index_text);
        let ghost all = lines(index_text@);
        let mut index = Self::empty();
        let mut i: usize = 0;
        assert(all.subrange(0, 0) =~= Seq::<Seq<char>>::empty());
        while i < ls.len()
            invariant
                views(ls@) == all,
                all == lines(index_text@),
                i <= ls@.len(),
                parse_index_lines(all.subrange(0, i as int)) matches Ok(es) && index@ == entries_map(es),
            decreases ls.len() - i,
        {
            let ghost prev = all.subrange(0, i as int);
            let ghost next = all.subrange(0, i + 1);
            assert(next.drop_last() =~= prev);
            assert(next.last() == ls@[i as int]@);
            assert(all[i as int] == views(ls@)[i as int]);
            assert(all[i as int] == next.last());
            let info = match IndexFileInfo::try_from(ls[i].as_str()) {
                Ok(info) => info,
                Err(e) => {
                    proof { lemma_parse_error_stays(all, (i + 1) as nat); }
                    return Err(e);
                },
            };
            let ghost es = parse_index_lines(prev)->Ok_0;
            proof {
                assert(es.push(info@).drop_last() =~= es);
            }
            index.insert(info);
            i = i + 1;
        }
        assert(all.subrange(0, ls@.len() as int) =~= all);
        Ok(index)
    }

    /// The entries of the index, one per tracked file, in no set order.
    pub fn as_files_vector(&self) -> (r: Vec<IndexFileInfo>)
        ensures
            distinct_paths(info_views(r@)),
            entries_map(info_views(r@)) == self@,
    {
        proof { use_type_invariant(self); }
        let mut r: Vec<IndexFileInfo> = Vec::new();
        let mut i: usize = 0;
        while i < self.entries.len()
            invariant
                i <= self.entries@.len(),
                info_views(r@) == info_views(self.entries@).subrange(0, i as int),
            decreases self.entries.len() - i,
        {
            let c = self.entries[i].clone();
            let ghost prev = info_views(r@);
            r.push(c);
            assert(info_views(r@) =~= prev.push(c@));
            i = i + 1;
            assert(info_views(r@) =~= info_views(self.entries@).subrange(0, i as int));
        }
        assert(info_views(self.entries@).subrange(0, self.entries@.len() as int) =~= info_views(self.entries@));
        r
    }

    /// Marks every change in the index as committed.
    pub fn reset_previous_blob_hash(&mut self)
        ensures
            final(self)@ == old(self)@.map_values(|e: IndexEntry| IndexEntry { previous: None, ..e }),
    {
        proof { use_type_invariant(&*self); }
        let ghost s0 = info_views(self.entries@);
        let mut entries: Vec<IndexFileInfo> = Vec::new();
                std::mem::swap(&mut entries, &mut self.entries);
        let mut i: usize = 0;
        while i < entries.len()
            invariant
                i <= entries@.len(),
                entries@.len() == s0.len(),
                forall|j: int| 0 <= j < i ==> #[trigger] entries@[j]@ == (IndexEntry { previous: None, ..s0[j] }),
                forall|j: int| i <= j < entries@.len() ==> #[trigger] entries@[j]@ == s0[j],
            decreases entries.len() - i,
        {
            let mut info = entries[i].clone();
            info.reset_previous_blob_hash();
            entries.set(i, info);
            i = i + 1;
        }
        proof {
            let f = |e: IndexEntry| IndexEntry { previous: None, ..e };
            assert(info_views(entries@) =~= s0.map_values(f));
            lemma_entries_map_reset(s0);
            assert(distinct_paths(info_views(entries@))) by {
                assert forall|a: int, b: int| 0 <= a < b < entries@.len() implies
                    info_views(entries@)[a].path != info_views(entries@)[b].path by {
                    assert(s0[a].path != s0[b].path);
                }
            }
        }
        self.entries = entries;
    }

    /// The text of the index file: one line per entry.
    pub fn save(&self) -> (r: String)
        ensures
            r@ == index_text(self.entries_view()),
            entries_map(self.entries_view()) == self@,
            distinct_paths(self.entries_view()),
    {
        proof { use_type_invariant(self); }
        let ghost s = info_views(self.entries@);
        let mut text = String::new();
        let mut i: usize = 0;
        while i < self.entries.len()
            invariant
                i <= self.entries@.len(),
                s == info_views(self.entries@),
                text@ == index_text(s.subrange(0, i as int)),
            decreases self.entries.len() - i,
        {
            let line = self.entries[i].to_index_line();
            let ghost prev = s.subrange(0, i as int);
            push_text(&mut text, line.as_str());
            i = i + 1;
            proof {
                let cur = s.subrange(0, i as int);
                let f = |e: IndexEntry| index_line(e);
                assert(cur.map_values(f).drop_last() =~= prev.map_values(f));
            }
        }
        assert(s.subrange(0, s.len() as int) =~= s);
        text
    }

    /// The entries in the order the index keeps them.
    pub closed spec fn entries_view(&self) -> Seq<IndexEntry> {
        info_views(self.entries@)
    }

    /// Brings the index up to date with a file that is being added: its path,
    /// modification date and content. A tracked file gets its entry checked
    /// for changes; a new one gets a new entry. Returns whether the content
    /// must be stored as a blob.
    pub fn add(&mut self, file_path: &str, mod_date: &str, content: &Vec<u8>) -> (r: bool)
        ensures
            old(self)@.contains_key(file_path@) ==> {
                &&& final(self)@ == old(self)@.insert(file_path@,
                    changed_entry(old(self)@[file_path@], mod_date@, blob_hash_text(content@)))
                &&& r == change_needs_blob(old(self)@[file_path@], mod_date@, blob_hash_text(content@))
            },
            !old(self)@.contains_key(file_path@) ==> {
                &&& final(self)@ == old(self)@.insert(file_path@, IndexEntry {
                    path: file_path@,
                    date: mod_date@,
                    current: blob_hash_text(content@),
                    previous: Some(blob_hash_text(content@)),
                })
                &&& r
            },
    {
        proof {
            use_type_invariant(&*self);
            lemma_entries_map_distinct(info_views(self.entries@));
        }
        match self.find(file_path) {
            Some(k) => {
                let mut info = self.entries[k].clone();
                assert(info_views(self.entries@)[k as int] == self.entries@[k as int]@);
                assert(entries_map(info_views(self.entries@)).contains_key(info_views(self.entries@)[k as int].path));
                assert(old(self)@[file_path@] == info@);
                let needs = info.verify_change(mod_date, content);
                assert(info@.path == file_path@);
                self.insert(info);
                needs
            },
            None => {
                let info = IndexFileInfo::new(file_path, mod_date, content);
                self.insert(info);
                true
            },
        }
    }

    /// Takes a file out of the index; an error where it is not in it.
    pub fn remove(&mut self, path: &str) -> (r: Result<(), ErrorType>)
        ensures
            r is Ok <==> old(self)@.contains_key(path@),
            r is Ok ==> final(self)@ == old(self)@.remove(path@),
            r is Err ==> final(self)@ == old(self)@,
            r matches Err(e) ==> e matches ErrorType::FileNotInIndex(s)
                && s@ == "ERROR "@ + path@ + " not in the index."@,
    {
        proof { use_type_invariant(&*self); }
        match self.find(path) {
            Some(k) => {
                let ghost s = info_views(self.entries@);
                proof { lemma_entries_map_remove(s, k as int); lemma_entries_map_distinct(s); }
                let mut entries: Vec<IndexFileInfo> = Vec::new();
                std::mem::swap(&mut entries, &mut self.entries);
                entries.remove(k);
                assert(info_views(entries@) =~= s.remove(k as int));
                self.entries = entries;
                Ok(())
            },
            None => {
                let mut msg = String::from_str("ERROR ");
                push_text(&mut msg, path);
                push_text(&mut msg, " not in the index.");
                proof { reveal_strlit("ERROR "); reveal_strlit(" not in the index."); }
                Err(ErrorType::FileNotInIndex(msg))
            },
        }
    }

    /// Sorts the files of the working directory, given with their contents,
    /// into untracked files, files changed since they were added, and files
    /// added since the last commit. Ignored files are left out.
    pub fn status(&self, files: &Vec<(String, Vec<u8>)>, ignored: &Vec<String>) -> (r: Vec<Vec<String>>)
        ensures
            r@.len() == 3,
            (views(r@[0]@), views(r@[1]@), views(r@[2]@)) == status_spec(file_views(files@), views(ignored@), self@),
    {
        let ghost fs = file_views(files@);
        let ghost ig = views(ignored@);
        let mut untracked: Vec<String> = Vec::new();
        let mut not_staged: Vec<String> = Vec::new();
        let mut staged: Vec<String> = Vec::new();
        let mut i: usize = 0;
        assert(fs.subrange(0, 0) =~= Seq::<(Seq<char>, Seq<u8>)>::empty());
        while i < files.len()
            invariant
                fs == file_views(files@),
                ig == views(ignored@),
                i <= files@.len(),
                (views(untracked@), views(not_staged@), views(staged@)) == status_spec(fs.subrange(0, i as int), ig, self@),
            decreases files.len() - i,
        {
            let ghost prev = fs.subrange(0, i as int);
            let ghost next = fs.subrange(0, i + 1);
            assert(next.drop_last() =~= prev);
            let (path, content) = &files[i];
            assert(next.last() == (path@, content@));
            let mut is_ignored = false;
            let mut j: usize = 0;
            while j < ignored.len()
                invariant
                    j <= ignored@.len(),
                    ig == views(ignored@),
                    is_ignored == views(ignored@).subrange(0, j as int).contains(path@),
                decreases ignored.len() - j,
            {
                let same = text_eq(ignored[j].as_str(), path.as_str());
                proof {
                    let a = views(ignored@).subrange(0, j as int);
                    let b = views(ignored@).subrange(0, j + 1);
                    assert(b =~= a.push(ignored@[j as int]@));
                    lemma_push_contains_pub(a, ignored@[j as int]@, path@);
                }
                is_ignored = is_ignored || same;
                j = j + 1;
            }
            assert(views(ignored@).subrange(0, ignored@.len() as int) =~= views(ignored@));
            if !is_ignored {
                match self.find(path.as_str()) {
                    None => {
                        let ghost u = views(untracked@);
                        untracked.push(path.clone());
                        assert(views(untracked@) =~= u.push(path@));
                    },
                    Some(k) => {
                        proof {
                            use_type_invariant(self);
                            lemma_entries_map_distinct(info_views(self.entries@));
                            assert(info_views(self.entries@)[k as int] == self.entries@[k as int]@);
                        }
                        if self.entries[k].has_changed(content) {
                            let ghost u = views(not_staged@);
                            not_staged.push(path.clone());
                            assert(views(not_staged@) =~= u.push(path@));
                        } else if self.entries[k].added_since_commit() {
                            let ghost u = views(staged@);
                            staged.push(path.clone());
                            assert(views(staged@) =~= u.push(path@));
                        }
                    },
                }
            }
            i = i + 1;
        }
        assert(fs.subrange(0, files@.len() as int) =~= fs);
        let mut r: Vec<Vec<String>> = Vec::new();
        r.push(untracked);
        r.push(not_staged);
        r.push(staged);
        r
    }

    /// Fails where the working directory holds anything not committed:
    /// untracked files, changes not added, or changes added but not
    /// committed.
    pub fn check_for_changes(&self, files: &Vec<(String, Vec<u8>)>, ignored: &Vec<String>) -> (r: Result<(), ErrorType>)
        ensures
            ({
                let (u, n, s) = status_spec(file_views(files@), views(ignored@), self@);
                r is Ok <==> (u.len() == 0 && n.len() == 0 && s.len() == 0)
            }),
            r matches Err(e) ==> e is RepositoryError,
    {
        let results = self.status(files, ignored);
        assert(views(results@[0]@).len() == results@[0]@.len());
        assert(views(results@[1]@).len() == results@[1]@.len());
        assert(views(results@[2]@).len() == results@[2]@.len());
        let mut k: usize = 0;
        while k < 3
            invariant
                results@.len() == 3,
                (views(results@[0]@), views(results@[1]@), views(results@[2]@))
                    == status_spec(file_views(files@), views(ignored@), self@),
                views(results@[0]@).len() == results@[0]@.len(),
                views(results@[1]@).len() == results@[1]@.len(),
                views(results@[2]@).len() == results@[2]@.len(),
                k <= 3,
                forall|j: int| 0 <= j < k ==> results@[j]@.len() == 0,
            decreases 3 - k,
        {
            if results[k].len() != 0 {
                return Err(ErrorType::RepositoryError(String::from_str(
                    "There's uncommited changes either tracked in index or not.\nAdd and commit or delete them before continuing",
                )));
            }
            k = k + 1;
        }
        Ok(())
    }
}

pub proof fn lemma_push_contains_pub(a: Seq<Seq<char>>, x: Seq<char>, p: Seq<char>)
    ensures
        a.push(x).contains(p) == (a.contains(p) || x == p),
{
    let b = a.push(x);
    if a.contains(p) {
        let w = choose|w: int| 0 <= w < a.len() && a[w] == p;
        assert(b[w] == p);
    }
    if x == p {
        assert(b[a.len() as int] == p);
    }
    if b.contains(p) && !a.contains(p) {
        let w = choose|w: int| 0 <= w < b.len() && b[w] == p;
        if w < a.len() {
            assert(a[w] == p);
        }
    }
}

proof fn lemma_parse_error_stays(ls: Seq<Seq<char>>, k: nat)
    requires
        0 < k <= ls.len(),
        parse_index_lines(ls.subrange(0, k - 1)) is Ok,
        parse_index_line(ls[k - 1]) is Err,
    ensures
        parse_index_lines(ls) == Err::<Seq<IndexEntry>, IndexLineError>(parse_index_line(ls[k - 1])->Err_0),
    decreases ls.len(),
{
    if ls.len() == k {
        assert(ls.drop_last() =~= ls.subrange(0, k - 1));
    } else {
        let t = ls.drop_last();
        assert(t.subrange(0, k - 1) =~= ls.subrange(0, k - 1));
        lemma_parse_error_stays(t, k);
    }
}

/// Whether a field of an index line can be read back: no space and no line
/// break in it.
pub open spec fn clean_field(t: Seq<char>) -> bool {
    !t.contains(' ') && !t.contains('\n') && !t.contains('\r')
}

/// Whether an entry is one that its index line gives back: its fields are
/// clean and its hashes are hashes.
pub open spec fn clean_entry(e: IndexEntry) -> bool {
    &&& clean_field(e.path)
    &&& clean_field(e.date)
    &&& clean_field(e.current)
    &&& valid_hash_text(e.current)
    &&& match e.previous {
        Some(h) => clean_field(h) && valid_hash_text(h),
        None => true,
    }
}

/// An index line without its line break.
pub open spec fn line_body(e: IndexEntry) -> Seq<char> {
    e.path + seq![' '] + e.date + seq![' '] + e.current + seq![' '] + previous_text(e.previous)
}

proof fn lemma_line_body_parses(e: IndexEntry)
    requires
        clean_entry(e),
    ensures
        parse_index_line(line_body(e)) == Ok::<IndexEntry, IndexLineError>(e),
{
    let p = previous_text(e.previous);
    reveal_strlit("None");
    assert(!p.contains(' ')) by {
        if e.previous is None {
            assert forall|k: int| 0 <= k < p.len() implies p[k] != ' ' by {}
        }
    }
    lemma_split_on_none(p, ' ');
    lemma_split_on_cons(e.current, ' ', p);
    assert(e.current + seq![' '] + p == e.current + seq![' '] + p);
    let r3 = e.current + seq![' '] + p;
    lemma_split_on_cons(e.date, ' ', r3);
    let r2 = e.date + seq![' '] + r3;
    lemma_split_on_cons(e.path, ' ', r2);
    assert(line_body(e) =~= e.path + seq![' '] + r2);
    assert(r2 =~= e.date + seq![' '] + r3);
    let parts = split_on(line_body(e), ' ');
    assert(parts =~= seq![e.path, e.date, e.current, p]);
    if let Some(h) = e.previous {
        assert(h != "None"@) by {
            if h == "None"@ {
                crate::text::lemma_encode_len_bound(h);
            }
        }
    }
}

proof fn lemma_lines_of_index_text(s: Seq<IndexEntry>)
    requires
        forall|i: int| 0 <= i < s.len() ==> clean_entry(#[trigger] s[i]),
    ensures
        lines(index_text(s)) == s.map_values(|e: IndexEntry| line_body(e)),
    decreases s.len(),
{
    let f = |e: IndexEntry| index_line(e);
    let g = |e: IndexEntry| line_body(e);
    if s.len() == 0 {
        assert(s.map_values(f) =~= Seq::<Seq<char>>::empty());
        assert(s.map_values(g) =~= Seq::<Seq<char>>::empty());
    } else {
        let t = s.drop_first();
        assert forall|i: int| 0 <= i < t.len() implies clean_entry(#[trigger] t[i]) by {
            assert(t[i] == s[i + 1]);
        }
        lemma_lines_of_index_text(t);
        assert(s.map_values(f) =~= seq![index_line(s[0])] + t.map_values(f));
        lemma_concat_cons(index_line(s[0]), t.map_values(f));
        let x = line_body(s[0]);
        assert(clean_entry(s[0]));
        assert(!x.contains('\n')) by {
            let e = s[0];
            let p = previous_text(e.previous);
            reveal_strlit("None");
            assert forall|k: int| 0 <= k < x.len() implies x[k] != '\n' by {
                let l0 = e.path.len() as int;
                let l1 = l0 + 1 + e.date.len();
                let l2 = l1 + 1 + e.current.len();
                if k < l0 {
                    assert(x[k] == e.path[k]);
                    assert(e.path.contains(e.path[k]));
                } else if k == l0 {
                } else if k < l1 {
                    assert(x[k] == e.date[k - l0 - 1]);
                    assert(e.date.contains(e.date[k - l0 - 1]));
                } else if k == l1 {
                } else if k < l2 {
                    assert(x[k] == e.current[k - l1 - 1]);
                    assert(e.current.contains(e.current[k - l1 - 1]));
                } else if k == l2 {
                } else {
                    assert(x[k] == p[k - l2 - 1]);
                    if e.previous is Some {
                        assert(p.contains(p[k - l2 - 1]));
                    }
                }
            }
        }
        assert(index_line(s[0]) =~= x + seq!['\n']);
        assert(index_text(s) =~= x + seq!['\n'] + index_text(t));
        lemma_lines_cons(x, index_text(t));
        assert(strip_cr(x) == x) by {
            let e = s[0];
            let p = previous_text(e.previous);
            reveal_strlit("None");
            assert(x.last() == p.last());
            if e.previous is Some {
                assert(p.contains(p.last()));
            }
        }
        assert(s.map_values(g) =~= seq![x] + t.map_values(g));
    }
}

proof fn lemma_parse_all_lines(ls: Seq<Seq<char>>, s: Seq<IndexEntry>)
    requires
        ls.len() == s.len(),
        forall|i: int| 0 <= i < s.len() ==> parse_index_line(#[trigger] ls[i]) == Ok::<IndexEntry, IndexLineError>(s[i]),
    ensures
        parse_index_lines(ls) == Ok::<Seq<IndexEntry>, IndexLineError>(s),
    decreases s.len(),
{
    if s.len() > 0 {
        let lt = ls.drop_last();
        let st = s.drop_last();
        assert forall|i: int| 0 <= i < st.len() implies parse_index_line(#[trigger] lt[i]) == Ok::<IndexEntry, IndexLineError>(st[i]) by {
            assert(lt[i] == ls[i]);
        }
        lemma_parse_all_lines(lt, st);
        assert(parse_index_line(ls.last()) == Ok::<IndexEntry, IndexLineError>(s.last()));
        assert(st.push(s.last()) =~= s);
    } else {
        assert(s =~= Seq::<IndexEntry>::empty());
    }
}

/// An index file read back gives the entries it was written from, where
/// each field is free of spaces and line breaks and each hash is a hash.
pub proof fn lemma_index_text_roundtrip(s: Seq<IndexEntry>)
    requires
        forall|i: int| 0 <= i < s.len() ==> clean_entry(#[trigger] s[i]),
    ensures
        parse_index_lines(lines(index_text(s))) == Ok::<Seq<IndexEntry>, IndexLineError>(s),
{
    lemma_lines_of_index_text(s);
    let ls = s.map_values(|e: IndexEntry| line_body(e));
    assert forall|i: int| 0 <= i < s.len() implies parse_index_line(#[trigger] ls[i]) == Ok::<IndexEntry, IndexLineError>(s[i]) by {
        lemma_line_body_parses(s[i]);
    }
    lemma_parse_all_lines(ls, s);
}

fn push_listed(text: &mut String, files: &Vec<String>)
    ensures
        final(text)@ == old(text)@ + listed(views(files@)),
{
    let ghost start = text@;
    let mut i: usize = 0;
    assert(views(files@).subrange(0, 0) =~= Seq::<Seq<char>>::empty());
    while i < files.len()
        invariant
            i <= files@.len(),
            text@ == start + listed(views(files@).subrange(0, i as int)),
        decreases files.len() - i,
    {
        let ghost next = views(files@).subrange(0, i + 1);
        assert(next.drop_last() =~= views(files@).subrange(0, i as int));
        push_text(text, "\t");
        push_text(text, files[i].as_str());
        push_text(text, "\n");
        proof { reveal_strlit("\t"); reveal_strlit("\n"); }
        i = i + 1;
        assert(text@ =~= start + listed(next));
    }
    assert(views(files@).subrange(0, files@.len() as int) =~= views(files@));
}

impl Index {
    /// What `status` shows, and its one-line summary: the branch, then the
    /// files to be committed, those changed and not added, and those not
    /// tracked, each group under its heading where it has files.
    pub fn print_status(head: &BranchRef, untracked: &Vec<String>, not_staged: &Vec<String>, staged: &Vec<String>)
        -> (r: (String, String))
        ensures
            r.0@ == status_report(branch_name_of(head.branch_view()), views(untracked@), views(not_staged@), views(staged@)),
            r.1@ == status_summary(views(untracked@), views(not_staged@), views(staged@)),
    {
        let mut report = match head.get_branch_name() {
            Some(b) => {
                let mut t = String::from_str("On branch ");
                push_text(&mut t, b.as_str());
                push_text(&mut t, "\n");
                t
            },
            None => String::from_str("Not currently on any branch.\n"),
        };
        let ghost head_text = report@;
        if untracked.len() == 0 && not_staged.len() == 0 && staged.len() == 0 {
            push_text(&mut report, "Up to date. Nothing to commit.\n");
            return (report, String::from_str("Up to date. Nothing to commit."));
        }
        let mut summary = String::from_str("Exist files:");
        let ghost s0 = report@;
        if staged.len() > 0 {
            push_text(&mut report, "Changes to be commited:\n");
            push_listed(&mut report, staged);
            push_text(&mut report, "\n");
            push_text(&mut summary, " To be commited.");
        }
        let ghost s1 = report@;
        if not_staged.len() > 0 {
            push_text(&mut report, "Changes not staged for commit:\n    (Use 'git-rustico add <file>...' to update what will be commited)\n");
            push_listed(&mut report, not_staged);
            push_text(&mut report, "\n");
            push_text(&mut summary, " Not staged for commit.");
        }
        let ghost s2 = report@;
        if untracked.len() > 0 {
            push_text(&mut report, "Untracked files:\n    (Use 'git-rustico add <file>' to include in what will be commited)\n");
            push_listed(&mut report, untracked);
            push_text(&mut report, "\n");
            push_text(&mut summary, " Untracked.");
        }
        let ghost s3 = report@;
        if staged.len() == 0 {
            push_text(&mut report, "nothing added to commit (use 'git-rustico add <file>')\n");
        }
        assert(report@ =~= status_report(branch_name_of(head.branch_view()), views(untracked@), views(not_staged@), views(staged@)));
        assert(summary@ =~= status_summary(views(untracked@), views(not_staged@), views(staged@)));
        (report, summary)
    }

    /// Brings the index in line with a working directory just rewritten:
    /// the entries of the files gone from it are dropped (each must be in
    /// the index), then each file written gets a fresh entry.
    pub fn update_to_working_dir(&mut self, gone: &Vec<String>, working_dir_files: Vec<IndexFileInfo>) -> (r: Result<(), ErrorType>)
        ensures
            match remove_each(old(self)@, views(gone@)) {
                None => r is Err,
                Some(m) => r is Ok && final(self)@ == insert_entries(m, info_views(working_dir_files@)),
            },
    {
        let mut i: usize = 0;
        assert(views(gone@).subrange(0, 0) =~= Seq::<Seq<char>>::empty());
        while i < gone.len()
            invariant
                i <= gone@.len(),
                remove_each(old(self)@, views(gone@).subrange(0, i as int)) == Some(self@),
            decreases gone.len() - i,
        {
            let ghost next = views(gone@).subrange(0, i + 1);
            assert(next.drop_last() =~= views(gone@).subrange(0, i as int));
            assert(next.last() == gone@[i as int]@);
            match self.remove(gone[i].as_str()) {
                Ok(()) => {},
                Err(e) => {
                    proof { lemma_remove_each_none_stays(old(self)@, views(gone@), (i + 1) as nat); }
                    return Err(e);
                },
            }
            i = i + 1;
        }
        assert(views(gone@).subrange(0, gone@.len() as int) =~= views(gone@));
        let ghost m = self@;
        let mut k: usize = 0;
        let n = working_dir_files.len();
        let mut pending = working_dir_files;
        let ghost es = info_views(pending@);
        assert(es.subrange(0, 0) =~= Seq::<IndexEntry>::empty());
        assert(pending@ =~= pending@.subrange(0, n as int));
        while k < n
            invariant
                n == es.len(),
                k <= n,
                info_views(pending@) == es.subrange(k as int, n as int),
                pending@.len() == n - k,
                self@ == insert_entries(m, es.subrange(0, k as int)),
            decreases n - k,
        {
            let ghost pv = pending@;
            let info = pending.remove(0);
            proof {
                let rest = es.subrange(k as int, n as int);
                assert(info_views(pv)[0] == pv[0]@);
                assert(info@ == rest[0]);
                assert(pending@ =~= pv.subrange(1, pv.len() as int));
                assert forall|t: int| 0 <= t < pending@.len() implies info_views(pending@)[t] == es.subrange(k + 1, n as int)[t] by {
                    assert(pending@[t] == pv[t + 1]);
                    assert(info_views(pv)[t + 1] == pv[t + 1]@);
                    assert(info_views(pv)[t + 1] == rest[t + 1]);
                }
                assert(info_views(pending@) =~= es.subrange(k + 1, n as int));
                let next = es.subrange(0, k + 1);
                assert(next.drop_last() =~= es.subrange(0, k as int));
                assert(next.last() == info@);
            }
            self.insert(info);
            k = k + 1;
        }
        assert(es.subrange(0, n as int) =~= es);
        Ok(())
    }
}

/// A map with the given keys removed one after the other; `None` where one
/// is missing when its turn comes.
pub open spec fn remove_each(m: Map<Seq<char>, IndexEntry>, ks: Seq<Seq<char>>) -> Option<Map<Seq<char>, IndexEntry>>
    decreases ks.len(),
{
    if ks.len() == 0 {
        Some(m)
    } else {
        match remove_each(m, ks.drop_last()) {
            None => None,
            Some(m2) => if m2.contains_key(ks.last()) { Some(m2.remove(ks.last())) } else { None },
        }
    }
}

/// A map with entries put in one after the other, by path.
pub open spec fn insert_entries(m: Map<Seq<char>, IndexEntry>, es: Seq<IndexEntry>) -> Map<Seq<char>, IndexEntry>
    decreases es.len(),
{
    if es.len() == 0 {
        m
    } else {
        insert_entries(m, es.drop_last()).insert(es.last().path, es.last())
    }
}

proof fn lemma_remove_each_none_stays(m: Map<Seq<char>, IndexEntry>, ks: Seq<Seq<char>>, k: nat)
    requires
        0 < k <= ks.len(),
        remove_each(m, ks.subrange(0, k as int)) is None,
    ensures
        remove_each(m, ks) is None,
    decreases ks.len(),
{
    if ks.len() == k {
        assert(ks.subrange(0, k as int) =~= ks);
    } else {
        let t = ks.drop_last();
        assert(t.subrange(0, k as int) =~= ks.subrange(0, k as int));
        lemma_remove_each_none_stays(m, t, k);
    }
}

/// Whether a file of the working directory is listed with these path and
/// content.
pub open spec fn has_file(files: Seq<(Seq<char>, Seq<u8>)>, path: Seq<char>, content: Seq<u8>) -> bool {
    exists|i: int| 0 <= i < files.len() && #[trigger] files[i] == (path, content)
}

/// What `status` reports, file by file: a file that is not ignored is
/// untracked where the index lacks it, not staged where its content's hash
/// differs from the one the index records, and staged where it is as the
/// index records and was added since the last commit. Conversely, every path
/// in a list is that of such a file.
pub proof fn law_status_sorts_files(files: Seq<(Seq<char>, Seq<u8>)>, ignored: Seq<Seq<char>>, m: Map<Seq<char>, IndexEntry>)
    ensures
        ({
            let (u, n, s) = status_spec(files, ignored, m);
            &&& forall|i: int| 0 <= i < files.len() && !ignored.contains(#[trigger] files[i].0) ==> {
                &&& !m.contains_key(files[i].0) ==> u.contains(files[i].0)
                &&& m.contains_key(files[i].0) && blob_hash_text(files[i].1) != m[files[i].0].current
                    ==> n.contains(files[i].0)
                &&& m.contains_key(files[i].0) && blob_hash_text(files[i].1) == m[files[i].0].current
                    && m[files[i].0].previous is Some ==> s.contains(files[i].0)
            }
            &&& forall|p: Seq<char>| #[trigger] u.contains(p) ==> !ignored.contains(p) && !m.contains_key(p)
                && exists|c: Seq<u8>| has_file(files, p, c)
            &&& forall|p: Seq<char>| #[trigger] n.contains(p) ==> !ignored.contains(p) && m.contains_key(p)
                && exists|c: Seq<u8>| has_file(files, p, c) && blob_hash_text(c) != m[p].current
            &&& forall|p: Seq<char>| #[trigger] s.contains(p) ==> !ignored.contains(p) && m.contains_key(p)
                && m[p].previous is Some
                && exists|c: Seq<u8>| has_file(files, p, c) && blob_hash_text(c) == m[p].current
        }),
    decreases files.len(),
{
    if files.len() > 0 {
        let prev = files.drop_last();
        law_status_sorts_files(prev, ignored, m);
        let (u0, n0, s0) = status_spec(prev, ignored, m);
        let (u, n, s) = status_spec(files, ignored, m);
        let (path, content) = files.last();
        assert(has_file(files, path, content)) by {
            assert(files[files.len() - 1] == (path, content));
        }
        assert forall|p: Seq<char>, c: Seq<u8>| has_file(prev, p, c) implies #[trigger] has_file(files, p, c) by {
            let i = choose|i: int| 0 <= i < prev.len() && #[trigger] prev[i] == (p, c);
            assert(files[i] == prev[i]);
        }
        assert forall|i: int| 0 <= i < files.len() && !ignored.contains(#[trigger] files[i].0) implies {
            &&& !m.contains_key(files[i].0) ==> u.contains(files[i].0)
            &&& m.contains_key(files[i].0) && blob_hash_text(files[i].1) != m[files[i].0].current
                ==> n.contains(files[i].0)
            &&& m.contains_key(files[i].0) && blob_hash_text(files[i].1) == m[files[i].0].current
                && m[files[i].0].previous is Some ==> s.contains(files[i].0)
        } by {
            if i < prev.len() {
                assert(files[i] == prev[i]);
                assert(!ignored.contains(prev[i].0));
                let q = prev[i].0;
                if u0.contains(q) { let k = choose|k: int| 0 <= k < u0.len() && u0[k] == q; assert(u.contains(q)) by {
                    if u != u0 { assert(u == u0.push(path)); assert(u[k] == q); } } }
                if n0.contains(q) { let k = choose|k: int| 0 <= k < n0.len() && n0[k] == q; assert(n.contains(q)) by {
                    if n != n0 { assert(n == n0.push(path)); assert(n[k] == q); } } }
                if s0.contains(q) { let k = choose|k: int| 0 <= k < s0.len() && s0[k] == q; assert(s.contains(q)) by {
                    if s != s0 { assert(s == s0.push(path)); assert(s[k] == q); } } }
            } else {
                assert(files[i] == (path, content));
                if u != u0 { assert(u == u0.push(path)); assert(u[u0.len() as int] == path); }
                if n != n0 { assert(n == n0.push(path)); assert(n[n0.len() as int] == path); }
                if s != s0 { assert(s == s0.push(path)); assert(s[s0.len() as int] == path); }
            }
        }
        assert forall|p: Seq<char>| #[trigger] u.contains(p) implies !ignored.contains(p) && !m.contains_key(p)
            && exists|c: Seq<u8>| has_file(files, p, c) by {
            let k = choose|k: int| 0 <= k < u.len() && u[k] == p;
            if k < u0.len() && (u == u0 || u == u0.push(path)) {
                assert(u[k] == u0[k]);
                assert(u0.contains(p));
                let c = choose|c: Seq<u8>| has_file(prev, p, c);
                assert(has_file(files, p, c));
            } else {
                assert(p == path);
                assert(has_file(files, p, content));
            }
        }
        assert forall|p: Seq<char>| #[trigger] n.contains(p) implies !ignored.contains(p) && m.contains_key(p)
            && exists|c: Seq<u8>| has_file(files, p, c) && blob_hash_text(c) != m[p].current by {
            let k = choose|k: int| 0 <= k < n.len() && n[k] == p;
            if k < n0.len() && (n == n0 || n == n0.push(path)) {
                assert(n[k] == n0[k]);
                assert(n0.contains(p));
                let c = choose|c: Seq<u8>| has_file(prev, p, c) && blob_hash_text(c) != m[p].current;
                assert(has_file(files, p, c));
            } else {
                assert(p == path);
                assert(has_file(files, p, content));
            }
        }
        assert forall|p: Seq<char>| #[trigger] s.contains(p) implies !ignored.contains(p) && m.contains_key(p)
            && m[p].previous is Some && exists|c: Seq<u8>| has_file(files, p, c) && blob_hash_text(c) == m[p].current by {
            let k = choose|k: int| 0 <= k < s.len() && s[k] == p;
            if k < s0.len() && (s == s0 || s == s0.push(path)) {
                assert(s[k] == s0[k]);
                assert(s0.contains(p));
                let c = choose|c: Seq<u8>| has_file(prev, p, c) && blob_hash_text(c) == m[p].current;
                assert(has_file(files, p, c));
            } else {
                assert(p == path);
                assert(has_file(files, p, content));
            }
        }
    }
}

} // verus!
