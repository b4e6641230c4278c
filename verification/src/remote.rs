use vstd::prelude::*;
use crate::errors::{CommandError, ErrorType};
use crate::assoc::{assoc_map, distinct_keys, find_key, lemma_assoc_update, lemma_assoc_push,
    lemma_assoc_remove, lemma_assoc_distinct, lemma_assoc_absent};
use crate::text::{lines, lines_of, words, split_whitespace, views, push_text, text_eq, split_once_text,
    split_once_str, split_once_spec, split_once_char, concat, is_word, is_whitespace, strip_cr, lemma_words_cons,
    lemma_words_single, lemma_lines_cons, lemma_words_are_words};
use crate::pkt_line::{create_pkt_line, pkt_len_prefix, fits_pkt};

verus! {

/// The remotes of a vector, as name and URL texts.
pub open spec fn remote_pairs(v: Seq<(String, String)>) -> Seq<(Seq<char>, Seq<char>)> {
    v.map_values(|p: (String, String)| (p.0@, p.1@))
}

/// The upstreams of a vector, as local branch and (remote, remote branch).
pub open spec fn branch_pairs(v: Seq<(String, (String, String))>) -> Seq<(Seq<char>, (Seq<char>, Seq<char>))> {
    v.map_values(|p: (String, (String, String))| (p.0@, (p.1.0@, p.1.1@)))
}

/// The remotes and upstreams a remote file gives from line `i` on, or the
/// first line that is neither `remote <name> <url>` nor
/// `branch <local> <remote> <remote-branch>` (empty lines are skipped;
/// fields are separated by whitespace).
pub open spec fn remote_file_walk(
    ls: Seq<Seq<char>>,
    i: nat,
    rs: Map<Seq<char>, Seq<char>>,
    bs: Map<Seq<char>, (Seq<char>, Seq<char>)>,
) -> Result<(Map<Seq<char>, Seq<char>>, Map<Seq<char>, (Seq<char>, Seq<char>)>), Seq<char>>
    decreases (if i < ls.len() { ls.len() - i } else { 0 }),
{
    if i >= ls.len() {
        Ok((rs, bs))
    } else if ls[i as int].len() == 0 {
        remote_file_walk(ls, i + 1, rs, bs)
    } else {
        let w = words(ls[i as int]);
        if w.len() == 3 && w[0] == "remote"@ {
            remote_file_walk(ls, i + 1, rs.insert(w[1], w[2]), bs)
        } else if w.len() == 4 && w[0] == "branch"@ {
            remote_file_walk(ls, i + 1, rs, bs.insert(w[1], (w[2], w[3])))
        } else {
            Err(ls[i as int])
        }
    }
}

/// The lines of a remote file for these remotes and upstreams.
pub open spec fn remote_lines(rs: Seq<(Seq<char>, Seq<char>)>) -> Seq<char>
    decreases rs.len(),
{
    if rs.len() == 0 {
        Seq::empty()
    } else {
        remote_lines(rs.drop_last()) + "remote "@ + rs.last().0 + " "@ + rs.last().1 + "\n"@
    }
}

pub open spec fn branch_lines(bs: Seq<(Seq<char>, (Seq<char>, Seq<char>))>) -> Seq<char>
    decreases bs.len(),
{
    if bs.len() == 0 {
        Seq::empty()
    } else {
        branch_lines(bs.drop_last()) + "branch "@ + bs.last().0 + " "@ + bs.last().1.0 + " "@ + bs.last().1.1 + "\n"@
    }
}

/// Why a remote URL is refused.
pub enum UrlError {
    /// It is not `<protocol>://<address>/<repo>`.
    Format,
    /// Its protocol is not `git`.
    Protocol,
}

/// The address and the repository path of a `git://<address>/<repo>` URL.
pub open spec fn parse_url_spec(url: Seq<char>) -> Result<(Seq<char>, Seq<char>), UrlError> {
    match split_once_text(url, "://"@) {
        None => Err(UrlError::Format),
        Some((protocol, addr)) => {
            if protocol != "git"@ {
                Err(UrlError::Protocol)
            } else {
                match split_once_spec(addr, '/') {
                    None => Err(UrlError::Format),
                    Some((h, r)) => Ok((h, seq!['/'] + r)),
                }
            }
        }
    }
}

/// The request that opens a connection to a git daemon, before its pkt-line
/// framing: `<command> <repo>\0host=<host>\0\0version=1\0`.
pub open spec fn request_text(command: Seq<char>, host: Seq<char>, repo: Seq<char>) -> Seq<char> {
    command + " "@ + repo + "\0host="@ + host + "\0\0version=1\0"@
}

/// The remote repositories of a repository and the upstream of its local
/// branches.
pub struct Remote {
    remotes: Vec<(String, String)>,
    branches: Vec<(String, (String, String))>,
    path_remote: String,
}

impl Remote {
    #[verifier::type_invariant]
    spec fn well_formed(&self) -> bool {
        distinct_keys(remote_pairs(self.remotes@)) && distinct_keys(branch_pairs(self.branches@))
    }

    /// The URL of each remote, by name.
    pub closed spec fn remotes_view(&self) -> Map<Seq<char>, Seq<char>> {
        assoc_map(remote_pairs(self.remotes@))
    }

    /// The upstream of each local branch: remote and remote branch.
    pub closed spec fn branches_view(&self) -> Map<Seq<char>, (Seq<char>, Seq<char>)> {
        assoc_map(branch_pairs(self.branches@))
    }

    /// The text of the remote file, remotes first, in the order kept.
    pub closed spec fn file_view(&self) -> Seq<char> {
        remote_lines(remote_pairs(self.remotes@)) + branch_lines(branch_pairs(self.branches@))
    }

    /// The file the remotes are kept in.
    pub closed spec fn path_view(&self) -> Seq<char> {
        self.path_remote@
    }

    fn put_remote(&mut self, name: String, url: String)
        ensures
            final(self).remotes_view() == old(self).remotes_view().insert(name@, url@),
            final(self).branches_view() == old(self).branches_view(),
            final(self).path_view() == old(self).path_view(),
            old(self).plain_fields() && is_word(name@) && is_word(url@) ==> final(self).plain_fields(),
    {
        proof { use_type_invariant(&*self); }
        let ghost s = remote_pairs(self.remotes@);
        let ghost plain = old(self).plain_fields() && is_word(name@) && is_word(url@);
        let mut v: Vec<(String, String)> = Vec::new();
        std::mem::swap(&mut v, &mut self.remotes);
        match find_key(&v, name.as_str()) {
            Some(k) => {
                proof { lemma_assoc_update(s, k as int, url@); }
                let ghost nm = name@;
                v.set(k, (name, url));
                assert(remote_pairs(v@) =~= s.update(k as int, (s[k as int].0, url@)));
                proof {
                    if plain {
                        assert forall|i: int| 0 <= i < remote_pairs(v@).len() implies
                            is_word(#[trigger] remote_pairs(v@)[i].0) && is_word(remote_pairs(v@)[i].1) by {
                            if i != k as int { assert(remote_pairs(v@)[i] == s[i]); }
                        }
                    }
                }
            },
            None => {
                proof {
                    assert forall|i: int| 0 <= i < s.len() implies s[i].0 != name@ by {
                        assert(s[i].0 == v@[i].0@);
                    }
                    lemma_assoc_absent(s, name@);
                    lemma_assoc_push(s, name@, url@);
                }
                let ghost nm = name@;
                let ghost u = url@;
                v.push((name, url));
                assert(remote_pairs(v@) =~= s.push((nm, u)));
                proof {
                    if plain {
                        assert forall|i: int| 0 <= i < remote_pairs(v@).len() implies
                            is_word(#[trigger] remote_pairs(v@)[i].0) && is_word(remote_pairs(v@)[i].1) by {
                            if i < s.len() { assert(remote_pairs(v@)[i] == s[i]); }
                        }
                    }
                }
            },
        }
        self.remotes = v;
    }

    fn take_remote(&mut self, name: &str) -> (r: Option<String>)
        ensures
            final(self).remotes_view() == old(self).remotes_view().remove(name@),
            final(self).branches_view() == old(self).branches_view(),
            final(self).path_view() == old(self).path_view(),
            match r {
                Some(u) => old(self).remotes_view().contains_key(name@) && u@ == old(self).remotes_view()[name@],
                None => !old(self).remotes_view().contains_key(name@),
            },
            old(self).plain_fields() ==> final(self).plain_fields(),
            old(self).plain_fields() ==> (r matches Some(u) ==> is_word(u@)),
    {
        proof { use_type_invariant(&*self); }
        let ghost s = remote_pairs(self.remotes@);
        let ghost plain = old(self).plain_fields();
        proof { lemma_assoc_distinct(s); }
        let mut v: Vec<(String, String)> = Vec::new();
        std::mem::swap(&mut v, &mut self.remotes);
        let r = match find_key(&v, name) {
            Some(k) => {
                proof {
                    lemma_assoc_remove(s, k as int);
                    assert(s[k as int] == (v@[k as int].0@, v@[k as int].1@));
                    assert(assoc_map(s).contains_key(s[k as int].0));
                }
                let (_, url) = v.remove(k);
                assert(remote_pairs(v@) =~= s.remove(k as int));
                proof {
                    if plain {
                        assert(is_word(s[k as int].1));
                        assert forall|i: int| 0 <= i < remote_pairs(v@).len() implies
                            is_word(#[trigger] remote_pairs(v@)[i].0) && is_word(remote_pairs(v@)[i].1) by {
                            if i < k as int { assert(remote_pairs(v@)[i] == s[i]); }
                            else { assert(remote_pairs(v@)[i] == s[i + 1]); }
                        }
                    }
                }
                Some(url)
            },
            None => {
                proof {
                    assert forall|i: int| 0 <= i < s.len() implies s[i].0 != name@ by {
                        assert(s[i].0 == v@[i].0@);
                    }
                    lemma_assoc_absent(s, name@);
                    assert(assoc_map(s).remove(name@) =~= assoc_map(s));
                }
                None
            },
        };
        self.remotes = v;
        r
    }

    fn put_branch(&mut self, local: String, remote_name: String, remote_branch: String)
        ensures
            final(self).branches_view() == old(self).branches_view().insert(local@, (remote_name@, remote_branch@)),
            final(self).remotes_view() == old(self).remotes_view(),
            final(self).path_view() == old(self).path_view(),
            old(self).plain_fields() && is_word(local@) && is_word(remote_name@) && is_word(remote_branch@)
                ==> final(self).plain_fields(),
    {
        proof { use_type_invariant(&*self); }
        let ghost s = branch_pairs(self.branches@);
        let ghost plain = old(self).plain_fields() && is_word(local@) && is_word(remote_name@)
            && is_word(remote_branch@);
        let ghost val = (remote_name@, remote_branch@);
        let mut v: Vec<(String, (String, String))> = Vec::new();
        std::mem::swap(&mut v, &mut self.branches);
        match find_key(&v, local.as_str()) {
            Some(k) => {
                proof { lemma_assoc_update(s, k as int, val); }
                v.set(k, (local, (remote_name, remote_branch)));
                assert(branch_pairs(v@) =~= s.update(k as int, (s[k as int].0, val)));
                proof {
                    if plain {
                        assert forall|i: int| 0 <= i < branch_pairs(v@).len() implies
                            is_word(#[trigger] branch_pairs(v@)[i].0) && is_word(branch_pairs(v@)[i].1.0)
                            && is_word(branch_pairs(v@)[i].1.1) by {
                            if i != k as int { assert(branch_pairs(v@)[i] == s[i]); }
                        }
                    }
                }
            },
            None => {
                proof {
                    assert forall|i: int| 0 <= i < s.len() implies s[i].0 != local@ by {
                        assert(s[i].0 == v@[i].0@);
                    }
                    lemma_assoc_absent(s, local@);
                    lemma_assoc_push(s, local@, val);
                }
                let ghost l = local@;
                v.push((local, (remote_name, remote_branch)));
                assert(branch_pairs(v@) =~= s.push((l, val)));
                proof {
                    if plain {
                        assert forall|i: int| 0 <= i < branch_pairs(v@).len() implies
                            is_word(#[trigger] branch_pairs(v@)[i].0) && is_word(branch_pairs(v@)[i].1.0)
                            && is_word(branch_pairs(v@)[i].1.1) by {
                            if i < s.len() { assert(branch_pairs(v@)[i] == s[i]); }
                        }
                    }
                }
            },
        }
        self.branches = v;
    }

    /// No remotes and no upstreams, kept in the given file.
    pub fn empty(path_remote: &str) -> (r: Self)
        ensures
            r.remotes_view() == Map::<Seq<char>, Seq<char>>::empty(),
            r.branches_view() == Map::<Seq<char>, (Seq<char>, Seq<char>)>::empty(),
            r.path_view() == path_remote@,
            r.plain_fields(),
    {
        let r = Remote { remotes: Vec::new(), branches: Vec::new(), path_remote: String::from_str(path_remote) };
        assert(remote_pairs(r.remotes@) =~= Seq::<(Seq<char>, Seq<char>)>::empty());
        assert(branch_pairs(r.branches@) =~= Seq::<(Seq<char>, (Seq<char>, Seq<char>))>::empty());
        r
    }

    /// Reads the remote file's text: `remote <name> <url>` and
    /// `branch <local> <remote> <remote-branch>` lines; empty lines are
    /// skipped, any other line is an error.
    pub fn from_file(path_remote: &str, text: &str) -> (r: Result<Self, ErrorType>)
        ensures
            match remote_file_walk(lines(text@), 0, Map::empty(), Map::empty()) {
                Ok((rs, bs)) => r matches Ok(x) && x.remotes_view() == rs && x.branches_view() == bs
                    && x.path_view() == path_remote@ && x.plain_fields(),
                Err(line) => r matches Err(ErrorType::FormatError(s)) && s@ == "invalid line in remote file: "@ + line,
            },
    {
        let ls = lines_of(text);
        let ghost all = lines(text@);
        let mut remote = Self::empty(path_remote);
        let mut i: usize = 0;
        proof {
            reveal_strlit("remote");
            reveal_strlit("branch");
        }
        while i < ls.len()
            invariant
                views(ls@) == all,
                all == lines(text@),
                i <= ls@.len(),
                remote.path_view() == path_remote@,
                remote.plain_fields(),
                remote_file_walk(all, 0, Map::empty(), Map::empty())
                    == remote_file_walk(all, i as nat, remote.remotes_view(), remote.branches_view()),
            decreases ls.len() - i,
        {
            let line = &ls[i];
            assert(all[i as int] == line@);
            if line.unicode_len() == 0 {
                i = i + 1;
                continue;
            }
            let parts = split_whitespace(line.as_str());
            assert(views(parts@).len() == parts@.len());
            proof {
                lemma_words_are_words(line@);
                assert forall|j: int| 0 <= j < parts@.len() implies is_word(#[trigger] parts@[j]@) by {
                    assert(views(parts@)[j] == parts@[j]@);
                }
            }
            if parts.len() == 3 && text_eq(parts[0].as_str(), "remote") {
                assert(views(parts@)[1] == parts@[1]@ && views(parts@)[2] == parts@[2]@ && views(parts@)[0] == parts@[0]@);
                remote.put_remote(parts[1].clone(), parts[2].clone());
            } else if parts.len() == 4 && text_eq(parts[0].as_str(), "branch") {
                assert(views(parts@)[1] == parts@[1]@ && views(parts@)[2] == parts@[2]@
                    && views(parts@)[3] == parts@[3]@ && views(parts@)[0] == parts@[0]@);
                remote.put_branch(parts[1].clone(), parts[2].clone(), parts[3].clone());
            } else {
                proof {
                    if parts.len() == 3 { assert(views(parts@)[0] == parts@[0]@); }
                    if parts.len() == 4 { assert(views(parts@)[0] == parts@[0]@); }
                }
                let mut msg = String::from_str("invalid line in remote file: ");
                push_text(&mut msg, line.as_str());
                return Err(ErrorType::FormatError(msg));
            }
            i = i + 1;
        }
        Ok(remote)
    }

    /// The text of the remote file: a line per remote, then a line per
    /// upstream.
    pub fn save(&self) -> (r: String)
        ensures
            r@ == self.file_view(),
    {
        let mut result = String::new();
        let mut i: usize = 0;
        proof { reveal_strlit("remote "); reveal_strlit(" "); reveal_strlit("\n"); reveal_strlit("branch "); }
        assert(remote_pairs(self.remotes@).subrange(0, 0) =~= Seq::<(Seq<char>, Seq<char>)>::empty());
        while i < self.remotes.len()
            invariant
                i <= self.remotes@.len(),
                result@ == remote_lines(remote_pairs(self.remotes@).subrange(0, i as int)),
            decreases self.remotes.len() - i,
        {
            let (name, url) = &self.remotes[i];
            let ghost prev = remote_pairs(self.remotes@).subrange(0, i as int);
            let ghost next = remote_pairs(self.remotes@).subrange(0, i + 1);
            assert(next.drop_last() =~= prev);
            assert(next.last() == (name@, url@));
            push_text(&mut result, "remote ");
            push_text(&mut result, name.as_str());
            push_text(&mut result, " ");
            push_text(&mut result, url.as_str());
            push_text(&mut result, "\n");
            i = i + 1;
            assert(result@ =~= remote_lines(next));
        }
        assert(remote_pairs(self.remotes@).subrange(0, self.remotes@.len() as int) =~= remote_pairs(self.remotes@));
        let ghost first = result@;
        let mut j: usize = 0;
        assert(branch_pairs(self.branches@).subrange(0, 0) =~= Seq::<(Seq<char>, (Seq<char>, Seq<char>))>::empty());
        while j < self.branches.len()
            invariant
                j <= self.branches@.len(),
                result@ == first + branch_lines(branch_pairs(self.branches@).subrange(0, j as int)),
            decreases self.branches.len() - j,
        {
            let (local, (rname, rbranch)) = &self.branches[j];
            let ghost prev = branch_pairs(self.branches@).subrange(0, j as int);
            let ghost next = branch_pairs(self.branches@).subrange(0, j + 1);
            assert(next.drop_last() =~= prev);
            assert(next.last() == (local@, (rname@, rbranch@)));
            push_text(&mut result, "branch ");
            push_text(&mut result, local.as_str());
            push_text(&mut result, " ");
            push_text(&mut result, rname.as_str());
            push_text(&mut result, " ");
            push_text(&mut result, rbranch.as_str());
            push_text(&mut result, "\n");
            j = j + 1;
            assert(result@ =~= first + branch_lines(next));
        }
        assert(branch_pairs(self.branches@).subrange(0, self.branches@.len() as int) =~= branch_pairs(self.branches@));
        result
    }

    /// Adds a remote, or gives an existing one a new URL.
    pub fn add(&mut self, name: String, url: String)
        ensures
            final(self).remotes_view() == old(self).remotes_view().insert(name@, url@),
            final(self).branches_view() == old(self).branches_view(),
            old(self).plain_fields() && is_word(name@) && is_word(url@) ==> final(self).plain_fields(),
    {
        self.put_remote(name, url);
    }

    /// Renames a remote. Where there is no remote of that name nothing
    /// changes and the new name is handed back.
    pub fn rename(&mut self, name: String, new_name: String) -> (r: Option<String>)
        ensures
            old(self).remotes_view().contains_key(name@) ==> (r is None && final(self).remotes_view()
                == old(self).remotes_view().remove(name@).insert(new_name@, old(self).remotes_view()[name@])),
            !old(self).remotes_view().contains_key(name@) ==> ((r matches Some(n) && n@ == new_name@)
                && final(self).remotes_view() == old(self).remotes_view()),
            final(self).branches_view() == old(self).branches_view(),
            old(self).plain_fields() && is_word(new_name@) ==> final(self).plain_fields(),
    {
        match self.take_remote(name.as_str()) {
            Some(url) => {
                self.put_remote(new_name, url);
                None
            },
            None => {
                assert(old(self).remotes_view().remove(name@) =~= old(self).remotes_view());
                Some(new_name)
            },
        }
    }

    /// Removes a remote, handing back its URL; `None` where there is no
    /// remote of that name.
    pub fn remove(&mut self, name: String) -> (r: Option<String>)
        ensures
            final(self).remotes_view() == old(self).remotes_view().remove(name@),
            final(self).branches_view() == old(self).branches_view(),
            match r {
                Some(u) => old(self).remotes_view().contains_key(name@) && u@ == old(self).remotes_view()[name@],
                None => !old(self).remotes_view().contains_key(name@),
            },
            old(self).plain_fields() ==> final(self).plain_fields(),
    {
        self.take_remote(name.as_str())
    }

    /// The URL of a remote.
    pub fn get_url(&self, remote_name: &str) -> (r: Option<String>)
        ensures
            match r {
                Some(u) => self.remotes_view().contains_key(remote_name@) && u@ == self.remotes_view()[remote_name@],
                None => !self.remotes_view().contains_key(remote_name@),
            },
    {
        proof {
            use_type_invariant(self);
            lemma_assoc_distinct(remote_pairs(self.remotes@));
        }
        match find_key(&self.remotes, remote_name) {
            Some(k) => {
                assert(remote_pairs(self.remotes@)[k as int] == (self.remotes@[k as int].0@, self.remotes@[k as int].1@));
                assert(self.remotes_view().contains_key(remote_pairs(self.remotes@)[k as int].0));
                Some(self.remotes[k].1.clone())
            },
            None => {
                proof {
                    let s = remote_pairs(self.remotes@);
                    assert forall|i: int| 0 <= i < s.len() implies s[i].0 != remote_name@ by {
                        assert(s[i].0 == self.remotes@[i].0@);
                    }
                    lemma_assoc_absent(s, remote_name@);
                }
                None
            },
        }
    }

    /// The remotes, as name and URL.
    pub fn get_remotes(&self) -> (r: Vec<(String, String)>)
        ensures
            distinct_keys(remote_pairs(r@)),
            assoc_map(remote_pairs(r@)) == self.remotes_view(),
    {
        proof { use_type_invariant(self); }
        let mut r: Vec<(String, String)> = Vec::new();
        let mut i: usize = 0;
        while i < self.remotes.len()
            invariant
                i <= self.remotes@.len(),
                remote_pairs(r@) == remote_pairs(self.remotes@).subrange(0, i as int),
            decreases self.remotes.len() - i,
        {
            let (n, u) = &self.remotes[i];
            let ghost prev = remote_pairs(r@);
            let nc = n.clone();
            let uc = u.clone();
            r.push((nc, uc));
            assert(remote_pairs(r@) =~= prev.push((n@, u@)));
            i = i + 1;
            assert(remote_pairs(r@) =~= remote_pairs(self.remotes@).subrange(0, i as int));
        }
        assert(remote_pairs(self.remotes@).subrange(0, self.remotes@.len() as int) =~= remote_pairs(self.remotes@));
        r
    }

    /// Records the upstream of a local branch.
    pub fn set_upstream(&mut self, local_branch_name: String, remote_name: String, remote_branch_name: String)
        ensures
            final(self).branches_view() == old(self).branches_view().insert(local_branch_name@,
                (remote_name@, remote_branch_name@)),
            final(self).remotes_view() == old(self).remotes_view(),
            old(self).plain_fields() && is_word(local_branch_name@) && is_word(remote_name@)
                && is_word(remote_branch_name@) ==> final(self).plain_fields(),
    {
        self.put_branch(local_branch_name, remote_name, remote_branch_name);
    }

    /// The upstream of a local branch: remote and remote branch.
    pub fn get_upstream(&self, local_branch_name: &str) -> (r: Option<(String, String)>)
        ensures
            match r {
                Some((a, b)) => self.branches_view().contains_key(local_branch_name@)
                    && (a@, b@) == self.branches_view()[local_branch_name@],
                None => !self.branches_view().contains_key(local_branch_name@),
            },
    {
        proof {
            use_type_invariant(self);
            lemma_assoc_distinct(branch_pairs(self.branches@));
        }
        match find_key(&self.branches, local_branch_name) {
            Some(k) => {
                let ghost s = branch_pairs(self.branches@);
                assert(s[k as int] == (self.branches@[k as int].0@, (self.branches@[k as int].1.0@, self.branches@[k as int].1.1@)));
                assert(self.branches_view().contains_key(s[k as int].0));
                let (_, (a, b)) = &self.branches[k];
                Some((a.clone(), b.clone()))
            },
            None => {
                proof {
                    let s = branch_pairs(self.branches@);
                    assert forall|i: int| 0 <= i < s.len() implies s[i].0 != local_branch_name@ by {
                        assert(s[i].0 == self.branches@[i].0@);
                    }
                    lemma_assoc_absent(s, local_branch_name@);
                }
                None
            },
        }
    }

    /// Splits a `git://<address>/<repo>` URL into the address and `/<repo>`.
    pub fn parse_url(url: &str) -> (r: Result<(String, String), ErrorType>)
        ensures
            match parse_url_spec(url@) {
                Ok((h, p)) => r matches Ok((a, b)) && a@ == h && b@ == p,
                Err(UrlError::Protocol) => r matches Err(ErrorType::ConfigError(_)),
                Err(UrlError::Format) => r matches Err(ErrorType::FormatError(s)) && s@ == "Invalid remote address: "@ + url@,
            },
    {
        proof { reveal_strlit("://"); reveal_strlit("git"); }
        let (protocol, addr) = match split_once_str(url, "://") {
            Some(p) => p,
            None => {
                let mut msg = String::from_str("Invalid remote address: ");
                push_text(&mut msg, url);
                return Err(ErrorType::FormatError(msg));
            },
        };
        if !text_eq(protocol.as_str(), "git") {
            let mut msg = String::from_str("unsuported remote transport protocol: ");
            push_text(&mut msg, protocol.as_str());
            return Err(ErrorType::ConfigError(msg));
        }
        let (address, repo) = match split_once_char(addr.as_str(), '/') {
            Some(p) => p,
            None => {
                let mut msg = String::from_str("Invalid remote address: ");
                push_text(&mut msg, url);
                return Err(ErrorType::FormatError(msg));
            },
        };
        let mut path = String::from_str("/");
        push_text(&mut path, repo.as_str());
        proof { reveal_strlit("/"); }
        Ok((address, path))
    }

    /// Where to connect for a remote: its address with the daemon's port, and
    /// the repository's path.
    pub fn connection_target(&self, remote_name: &str) -> (r: Result<(String, String), ErrorType>)
        ensures
            !self.remotes_view().contains_key(remote_name@) ==> (r matches Err(ErrorType::CommandError(CommandError::InvalidArgument(s)))
                && s@ == "no such remote '"@ + remote_name@ + "'"@),
            self.remotes_view().contains_key(remote_name@) ==> match parse_url_spec(self.remotes_view()[remote_name@]) {
                Ok((h, p)) => r matches Ok((host, repo)) && host@ == h + ":9418"@ && repo@ == p,
                Err(_) => r is Err,
            },
    {
        let url = match self.get_url(remote_name) {
            Some(u) => u,
            None => {
                let mut msg = String::from_str("no such remote '");
                push_text(&mut msg, remote_name);
                push_text(&mut msg, "'");
                return Err(ErrorType::CommandError(CommandError::InvalidArgument(msg)));
            },
        };
        let (address, repo) = match Self::parse_url(url.as_str()) {
            Ok(p) => p,
            Err(e) => return Err(e),
        };
        let mut host = address;
        push_text(&mut host, ":9418");
        Ok((host, repo))
    }

    /// The pkt-line that asks a git daemon for a service on a repository.
    pub fn connection_request(request_command: &str, host: &str, repo: &str) -> (r: Result<String, ErrorType>)
        ensures
            r is Ok <==> fits_pkt(request_text(request_command@, host@, repo@)),
            r matches Err(e) ==> e is ProtocolError,
            r matches Ok(s) ==> s@ == pkt_len_prefix(vstd::utf8::encode_utf8(request_text(request_command@, host@, repo@)).len() as usize as nat)
                + request_text(request_command@, host@, repo@) + seq!['\n'],
    {
        let mut request = String::from_str(request_command);
        push_text(&mut request, " ");
        push_text(&mut request, repo);
        push_text(&mut request, "\0host=");
        push_text(&mut request, host);
        push_text(&mut request, "\0\0version=1\0");
        assert(request@ =~= request_text(request_command@, host@, repo@));
        create_pkt_line(request.as_str())
    }

    /// The `remote` command: with no arguments lists the remotes' names;
    /// `add <name> <url>`, `rm|remove <name>`, `rename <old> <new>` change
    /// them; `get-url <name>` shows a URL. Returns the text to show and
    /// whether the remotes changed and must be saved. A rename that took
    /// place is reported as the error `no such remote: <old>` (the remotes
    /// are renamed all the same and are to be saved), and a rename of a
    /// remote that does not exist succeeds without changing anything.
    pub fn remote_command(args: &Vec<String>, remote: &mut Remote) -> (r: Result<(String, bool), ErrorType>)
        ensures
            args@.len() == 0 ==> (r matches Ok((_, false)) && final(remote).remotes_view() == old(remote).remotes_view()),
            args@.len() == 3 && args@[0]@ == "add"@ ==> (r matches Ok((_, true))
                && final(remote).remotes_view() == old(remote).remotes_view().insert(args@[1]@, args@[2]@)),
            args@.len() == 2 && (args@[0]@ == "rm"@ || args@[0]@ == "remove"@) ==> {
                &&& final(remote).remotes_view() == old(remote).remotes_view().remove(args@[1]@)
                &&& (old(remote).remotes_view().contains_key(args@[1]@) ==> r matches Ok((_, true)))
                &&& (!old(remote).remotes_view().contains_key(args@[1]@) ==> (r matches Err(ErrorType::CommandError(CommandError::InvalidArgument(s)))
                    && s@ == "no such remote: "@ + args@[1]@))
            },
            args@.len() == 2 && args@[0]@ == "get-url"@ ==> match r {
                Ok((text, changed)) => !changed && old(remote).remotes_view().contains_key(args@[1]@)
                    && text@ == old(remote).remotes_view()[args@[1]@] + "\n"@,
                Err(_) => !old(remote).remotes_view().contains_key(args@[1]@),
            },
            args@.len() == 3 && args@[0]@ == "rename"@ ==> {
                &&& (old(remote).remotes_view().contains_key(args@[1]@) ==> final(remote).remotes_view()
                    == old(remote).remotes_view().remove(args@[1]@).insert(args@[2]@, old(remote).remotes_view()[args@[1]@]))
                &&& (old(remote).remotes_view().contains_key(args@[1]@) ==> (r matches Err(ErrorType::CommandError(CommandError::InvalidArgument(s)))
                    && s@ == "no such remote: "@ + args@[1]@))
                &&& (!old(remote).remotes_view().contains_key(args@[1]@) ==> (r matches Ok((_, false))
                    && final(remote).remotes_view() == old(remote).remotes_view()))
            },
            r matches Ok((_, false)) ==> final(remote).remotes_view() == old(remote).remotes_view(),
            final(remote).branches_view() == old(remote).branches_view(),
            old(remote).plain_fields() && (forall|i: int| 0 <= i < args@.len() ==> is_word(#[trigger] args@[i]@))
                ==> final(remote).plain_fields(),
    {
        proof {
            reveal_strlit("add");
            reveal_strlit("rm");
            reveal_strlit("remove");
            reveal_strlit("rename");
            reveal_strlit("get-url");
        }
        let n = args.len();
        if n == 0 {
            let remotes = remote.get_remotes();
            let mut text = String::new();
            let mut i: usize = 0;
            while i < remotes.len()
                decreases remotes.len() - i,
            {
                push_text(&mut text, remotes[i].0.as_str());
                push_text(&mut text, "\n");
                i = i + 1;
            }
            return Ok((text, false));
        }
        if n == 3 && text_eq(args[0].as_str(), "add") {
            assert(args@[0]@ != "rename"@) by {
                assert("add"@.len() == 3);
                assert("rename"@.len() == 6);
            }
            remote.add(args[1].clone(), args[2].clone());
            return Ok((String::new(), true));
        }
        if n == 2 && (text_eq(args[0].as_str(), "rm") || text_eq(args[0].as_str(), "remove")) {
            assert(args@[0]@ != "get-url"@) by {
                assert("get-url"@.len() == 7);
                assert("rm"@.len() == 2);
                assert("remove"@.len() == 6);
            }
            let name = args[1].clone();
            if remote.remove(name).is_none() {
                let mut msg = String::from_str("no such remote: ");
                push_text(&mut msg, args[1].as_str());
                return Err(ErrorType::CommandError(CommandError::InvalidArgument(msg)));
            }
            return Ok((String::new(), true));
        }
        if n == 3 && text_eq(args[0].as_str(), "rename") {
            if remote.rename(args[1].clone(), args[2].clone()).is_none() {
                let mut msg = String::from_str("no such remote: ");
                push_text(&mut msg, args[1].as_str());
                return Err(ErrorType::CommandError(CommandError::InvalidArgument(msg)));
            }
            return Ok((String::new(), false));
        }
        if n == 2 && text_eq(args[0].as_str(), "get-url") {
            return match remote.get_url(args[1].as_str()) {
                Some(url) => {
                    let mut text = url;
                    push_text(&mut text, "\n");
                    Ok((text, false))
                },
                None => {
                    let mut msg = String::from_str("no such remote '");
                    push_text(&mut msg, args[1].as_str());
                    push_text(&mut msg, "'");
                    Err(ErrorType::CommandError(CommandError::InvalidArgument(msg)))
                },
            };
        }
        Err(ErrorType::CommandError(CommandError::FormatError(String::new())))
    }
}

/// Remotes whose names and URLs are words: what a remote file can hold.
pub open spec fn plain_remotes(rs: Seq<(Seq<char>, Seq<char>)>) -> bool {
    forall|i: int| 0 <= i < rs.len() ==> is_word(#[trigger] rs[i].0) && is_word(rs[i].1)
}

/// Upstreams whose branches and remotes are words.
pub open spec fn plain_branches(bs: Seq<(Seq<char>, (Seq<char>, Seq<char>))>) -> bool {
    forall|i: int| 0 <= i < bs.len() ==> is_word(#[trigger] bs[i].0) && is_word(bs[i].1.0) && is_word(bs[i].1.1)
}

/// Reading a line list from its second line on is reading its tail.
proof fn lemma_walk_shift(l: Seq<char>, rest: Seq<Seq<char>>, i: nat, rs: Map<Seq<char>, Seq<char>>,
    bs: Map<Seq<char>, (Seq<char>, Seq<char>)>)
    ensures
        remote_file_walk(seq![l] + rest, i + 1, rs, bs) == remote_file_walk(rest, i, rs, bs),
    decreases (if i < rest.len() { rest.len() - i } else { 0 }),
{
    let all = seq![l] + rest;
    if i < rest.len() {
        assert(all[(i + 1) as int] == rest[i as int]);
        let w = words(rest[i as int]);
        if rest[i as int].len() == 0 {
            lemma_walk_shift(l, rest, i + 1, rs, bs);
        } else if w.len() == 3 && w[0] == "remote"@ {
            lemma_walk_shift(l, rest, i + 1, rs.insert(w[1], w[2]), bs);
        } else if w.len() == 4 && w[0] == "branch"@ {
            lemma_walk_shift(l, rest, i + 1, rs, bs.insert(w[1], (w[2], w[3])));
        }
    }
}

/// The text of a word is free of line breaks, and ends in no carriage
/// return.
proof fn lemma_word_no_break(w: Seq<char>)
    requires
        is_word(w),
    ensures
        !w.contains('\n'),
        w.last() != '\r',
{
    if w.contains('\n') {
        let i = choose|i: int| 0 <= i < w.len() && w[i] == '\n';
        assert(is_whitespace(w[i]));
    }
    assert(!is_whitespace(w[w.len() - 1]));
}

/// Words joined by single spaces are free of line breaks and end in the
/// last word.
proof fn lemma_joined_words(a: Seq<char>, b: Seq<char>)
    requires
        !a.contains('\n'),
        is_word(b),
    ensures
        !(a + seq![' '] + b).contains('\n'),
        (a + seq![' '] + b).last() == b.last(),
{
    lemma_word_no_break(b);
    let s = a + seq![' '] + b;
    if s.contains('\n') {
        let i = choose|i: int| 0 <= i < s.len() && s[i] == '\n';
        if i < a.len() {
            assert(s[i] == a[i]);
        } else if i > a.len() {
            assert(s[i] == b[i - a.len() - 1]);
        }
    }
}

/// What the remote file's text of some remotes, followed by a text, reads
/// as: the remotes are set, in order, then the text is read.
proof fn lemma_walk_remote_lines(rs: Seq<(Seq<char>, Seq<char>)>, tail: Seq<char>, m: Map<Seq<char>, Seq<char>>,
    b: Map<Seq<char>, (Seq<char>, Seq<char>)>)
    requires
        plain_remotes(rs),
    ensures
        remote_file_walk(lines(remote_lines(rs) + tail), 0, m, b)
            == remote_file_walk(lines(tail), 0, m.union_prefer_right(assoc_map(rs)), b),
    decreases rs.len(),
{
    reveal_strlit("remote ");
    reveal_strlit("remote");
    reveal_strlit(" ");
    reveal_strlit("\n");
    reveal_strlit("branch");
    if rs.len() == 0 {
        assert(remote_lines(rs) + tail =~= tail);
        assert(m.union_prefer_right(assoc_map(rs)) =~= m);
    } else {
        let (n, u) = rs.last();
        let front = rs.drop_last();
        assert(plain_remotes(front)) by {
            assert forall|i: int| 0 <= i < front.len() implies is_word(#[trigger] front[i].0) && is_word(front[i].1) by {
                assert(front[i] == rs[i]);
            }
        }
        assert(is_word(n) && is_word(u)) by {
            assert(rs[rs.len() - 1] == rs.last());
        }
        let remote_word = "remote"@;
        assert(is_word(remote_word));
        let x = remote_word + seq![' '] + n + seq![' '] + u;
        assert("remote "@ + n + " "@ + u =~= x);
        let rest = x + seq!['\n'] + tail;
        assert(remote_lines(rs) + tail =~= remote_lines(front) + rest);
        lemma_walk_remote_lines(front, rest, m, b);
        lemma_word_no_break(n);
        lemma_joined_words(remote_word, n);
        lemma_joined_words(remote_word + seq![' '] + n, u);
        lemma_lines_cons(x, tail);
        assert(strip_cr(x) == x);
        lemma_words_cons(remote_word, n + seq![' '] + u);
        lemma_words_cons(n, u);
        lemma_words_single(u);
        assert(x =~= remote_word + seq![' '] + (n + seq![' '] + u));
        assert(words(x) =~= seq![remote_word, n, u]);
        let m2 = m.union_prefer_right(assoc_map(front));
        assert(lines(rest) == seq![x] + lines(tail));
        lemma_walk_shift(x, lines(tail), 0, m2.insert(n, u), b);
        assert(m2.insert(n, u) =~= m.union_prefer_right(assoc_map(rs)));
    }
}

/// What the remote file's text of some upstreams, followed by a text,
/// reads as: the upstreams are set, in order, then the text is read.
proof fn lemma_walk_branch_lines(bs: Seq<(Seq<char>, (Seq<char>, Seq<char>))>, tail: Seq<char>,
    m: Map<Seq<char>, Seq<char>>, b: Map<Seq<char>, (Seq<char>, Seq<char>)>)
    requires
        plain_branches(bs),
    ensures
        remote_file_walk(lines(branch_lines(bs) + tail), 0, m, b)
            == remote_file_walk(lines(tail), 0, m, b.union_prefer_right(assoc_map(bs))),
    decreases bs.len(),
{
    reveal_strlit("branch ");
    reveal_strlit("branch");
    reveal_strlit("remote");
    reveal_strlit(" ");
    reveal_strlit("\n");
    if bs.len() == 0 {
        assert(branch_lines(bs) + tail =~= tail);
        assert(b.union_prefer_right(assoc_map(bs)) =~= b);
    } else {
        let (l, (r, rb)) = bs.last();
        let front = bs.drop_last();
        assert(plain_branches(front)) by {
            assert forall|i: int| 0 <= i < front.len() implies is_word(#[trigger] front[i].0) && is_word(front[i].1.0)
                && is_word(front[i].1.1) by {
                assert(front[i] == bs[i]);
            }
        }
        assert(is_word(l) && is_word(r) && is_word(rb)) by {
            assert(bs[bs.len() - 1] == bs.last());
        }
        let branch_word = "branch"@;
        assert(is_word(branch_word));
        let x = branch_word + seq![' '] + l + seq![' '] + r + seq![' '] + rb;
        assert("branch "@ + l + " "@ + r + " "@ + rb =~= x);
        let rest = x + seq!['\n'] + tail;
        assert(branch_lines(bs) + tail =~= branch_lines(front) + rest);
        lemma_walk_branch_lines(front, rest, m, b);
        lemma_word_no_break(l);
        lemma_joined_words(branch_word, l);
        lemma_joined_words(branch_word + seq![' '] + l, r);
        lemma_joined_words(branch_word + seq![' '] + l + seq![' '] + r, rb);
        lemma_lines_cons(x, tail);
        assert(strip_cr(x) == x);
        lemma_words_cons(branch_word, l + seq![' '] + r + seq![' '] + rb);
        lemma_words_cons(l, r + seq![' '] + rb);
        lemma_words_cons(r, rb);
        lemma_words_single(rb);
        assert(x =~= branch_word + seq![' '] + (l + seq![' '] + r + seq![' '] + rb));
        assert(l + seq![' '] + r + seq![' '] + rb =~= l + seq![' '] + (r + seq![' '] + rb));
        assert(words(x) =~= seq![branch_word, l, r, rb]);
        assert("remote"@ != branch_word) by {
            assert("remote"@[0] != branch_word[0]);
        }
        let b2 = b.union_prefer_right(assoc_map(front));
        assert(lines(rest) == seq![x] + lines(tail));
        lemma_walk_shift(x, lines(tail), 0, m, b2.insert(l, (r, rb)));
        assert(b2.insert(l, (r, rb)) =~= b.union_prefer_right(assoc_map(bs)));
    }
}

impl Remote {
    /// Whether the names and URLs of the remotes, and the branches and
    /// remotes of the upstreams, are words (non-empty, no whitespace).
    pub closed spec fn plain_fields(&self) -> bool {
        plain_remotes(remote_pairs(self.remotes@)) && plain_branches(branch_pairs(self.branches@))
    }
}

/// The remote file that `save` writes reads back, with `from_file`, as the
/// same remotes and upstreams, where every name, URL and branch is a word.
pub proof fn law_remote_file_roundtrip(remote: Remote)
    requires
        remote.plain_fields(),
    ensures
        remote_file_walk(lines(remote.file_view()), 0, Map::empty(), Map::empty())
            == Ok::<(Map<Seq<char>, Seq<char>>, Map<Seq<char>, (Seq<char>, Seq<char>)>), Seq<char>>(
                (remote.remotes_view(), remote.branches_view())),
{
    let rs = remote_pairs(remote.remotes@);
    let bs = branch_pairs(remote.branches@);
    lemma_walk_remote_lines(rs, branch_lines(bs), Map::empty(), Map::empty());
    lemma_walk_branch_lines(bs, Seq::empty(), Map::empty().union_prefer_right(assoc_map(rs)), Map::empty());
    assert(branch_lines(bs) + Seq::<char>::empty() =~= branch_lines(bs));
    assert(Map::<Seq<char>, Seq<char>>::empty().union_prefer_right(assoc_map(rs)) =~= assoc_map(rs));
    assert(Map::<Seq<char>, (Seq<char>, Seq<char>)>::empty().union_prefer_right(assoc_map(bs)) =~= assoc_map(bs));
    assert(lines(Seq::<char>::empty()) == Seq::<Seq<char>>::empty());
}

} // verus!
