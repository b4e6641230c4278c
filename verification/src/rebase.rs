use vstd::prelude::*;
use crate::errors::ErrorType;
use crate::branch::Branch;
use crate::commit::{Commit, commit_ok, stored_rec_history, stamps, stamp_hashes, files_of, files_known, files_stored,
    stored_commit_files, commit_saves};
use crate::git_object::{object_hash, stored_after, lemma_stored_after_concat};
use crate::object_type::ObjectType;
use crate::tree::entries_content;
use vstd::utf8::encode_utf8;
use crate::network::file_of;
use crate::hash::{GitHash, valid_hash_text};
use crate::git_object::ObjectStore;
use crate::network::branch_file;
use crate::text::{push_text, text_eq};

verus! {

/// Moving the commits of a branch on top of another branch.
pub struct Rebase;

/// The first position from 1 on where two histories (oldest first) have
/// commits with different messages, 0 where there is none before the
/// shorter one ends.
pub open spec fn first_diff(other: Seq<Seq<char>>, base: Seq<Seq<char>>, i: nat) -> nat
    decreases (if other.len() < base.len() { other.len() } else { base.len() }) - i,
{
    let n = if other.len() < base.len() { other.len() } else { base.len() };
    if i >= n {
        0
    } else if other[i as int] != base[i as int] {
        i
    } else {
        first_diff(other, base, i + 1)
    }
}

/// The branch that `rebase` moves: the head's where `HEAD` is named.
pub open spec fn rebased_name(other: Seq<char>, head_text: Seq<char>) -> Seq<char> {
    if other == "HEAD"@ { head_text } else { other }
}

/// Whether a branch can be replayed from: its file holds a hash, whose
/// commit and history the store can give.
pub open spec fn branch_readable(files: Seq<(String, String)>, name: Seq<char>, store: Map<Seq<char>, Seq<u8>>) -> bool {
    match file_of(files, name) {
        Some(h) => valid_hash_text(h) && commit_ok(store, h) && stored_rec_history(store, h) is Some,
        None => false,
    }
}

/// The messages of a list of commits.
pub open spec fn messages(v: Seq<Commit>) -> Seq<Seq<char>> {
    v.map_values(|c: Commit| c.message_view())
}

/// Whether `new` is `old` given another first parent: the same tree, second
/// parent, signatures and message, and the hash of its new object text.
#[verifier::opaque]
pub open spec fn reparented(old: Commit, new: Commit, parent: Seq<char>) -> bool {
    &&& new.parent_view() == Some(parent)
    &&& new.second_parent_view() == old.second_parent_view()
    &&& new.author_view() == old.author_view()
    &&& new.committer_view() == old.committer_view()
    &&& new.message_view() == old.message_view()
    &&& new.time_view() == old.time_view()
    &&& files_of(new) == files_of(old)
    &&& entries_content(new.tree_view().entries_view()) == entries_content(old.tree_view().entries_view())
    &&& new.content_view() matches Some(t) && new.hash_view() == object_hash(encode_utf8(t), ObjectType::Commit)
}

/// Whether `nc` replays the commits of the history `ho` (oldest first) from
/// the first position where its messages part from those of `hb`: each
/// gets the previous replayed commit as parent, the first one `hb`'s last.
pub open spec fn replayed(ho: Seq<Commit>, hb: Seq<Commit>, nc: Seq<Commit>) -> bool {
    let d = first_diff(messages(ho), messages(hb), 1);
    &&& hb.len() >= 1
    &&& d < ho.len()
    &&& nc.len() == ho.len() - d
    &&& forall|i: int| #![trigger nc[i]] 0 <= i < nc.len() ==> reparented(ho[d + i], nc[i],
        if i == 0 { hb.last().hash_view() } else { nc[i - 1].hash_view() })
}

/// Whether commits, oldest first, are the history read from the store for
/// the commit stored under a hash: the stored history's stamps, that commit
/// last, and each commit with the files stored under its hash.
pub open spec fn history_read(store: Map<Seq<char>, Seq<u8>>, hash: Seq<char>, h: Seq<Commit>) -> bool {
    &&& stored_rec_history(store, hash) == Some(stamps(h.reverse()))
    &&& h.len() >= 1 && h.last().hash_view() == hash
    &&& forall|i: int| 0 <= i < h.len() ==> files_of(#[trigger] h[i]) == stored_commit_files(store, h[i].hash_view())
}

/// The objects that saving some commits in turn keeps.
pub open spec fn commits_saves(nc: Seq<Commit>) -> Seq<(Seq<char>, Seq<u8>)>
    decreases nc.len(),
{
    if nc.len() == 0 {
        Seq::empty()
    } else {
        commits_saves(nc.drop_last()) + commit_saves(nc.last())
    }
}

/// A store with the objects under these hashes taken out, one after another.
pub open spec fn removed_all(m: Map<Seq<char>, Seq<u8>>, hs: Seq<Seq<char>>) -> Map<Seq<char>, Seq<u8>>
    decreases hs.len(),
{
    if hs.len() == 0 {
        m
    } else {
        removed_all(m, hs.drop_last()).remove(hs.last())
    }
}

/// What a rebase of `other` onto `base` gives, from the store `store0`
/// (objects written so far `w0`) to `store1` (`w1`): the errors, when it
/// succeeds, and on success the message, the moved branch pointing to the
/// last replayed commit, the replayed commits saved and the commits they
/// replace taken out of the store.
pub open spec fn rebase_outcome(store0: Map<Seq<char>, Seq<u8>>, store1: Map<Seq<char>, Seq<u8>>,
    w0: Seq<(Seq<char>, Seq<u8>)>, w1: Seq<(Seq<char>, Seq<u8>)>, files: Seq<(String, String)>, base: Seq<char>,
    other: Seq<char>, head_text: Seq<char>, path_heads: Seq<char>, r: Result<(String, Branch), ErrorType>) -> bool {
    let name = rebased_name(other, head_text);
    &&& base == other ==> (r matches Err(ErrorType::FormatError(m)) && m@ == "Error, branches cannot be equal in rebase."@)
    &&& base != other && !(branch_readable(files, base, store0) && branch_readable(files, name, store0)) ==> r is Err
    &&& base != other && branch_readable(files, base, store0) && branch_readable(files, name, store0) ==> r is Ok
    &&& r matches Ok((m, b)) ==> {
        &&& m@ == "Branch base: "@ + base + " for: "@ + other + "."@
        &&& b.name_view() == name && b.dir_view() == path_heads
        &&& exists|ho: Seq<Commit>, hb: Seq<Commit>, nc: Seq<Commit>| #[trigger] replayed(ho, hb, nc)
            && history_read(store0, file_of(files, name)->0, ho) && history_read(store0, file_of(files, base)->0, hb)
            && b.hash_view() == nc.last().hash_view()
            && store1 == removed_all(stored_after(store0, commits_saves(nc)),
                stamp_hashes(stamps(ho.subrange(first_diff(messages(ho), messages(hb), 1) as int, ho.len() as int))))
            && w1 == w0 + commits_saves(nc)
    }
}

/// The commits in the opposite order, each moved.
fn reversed(v: Vec<Commit>) -> (r: Vec<Commit>)
    ensures
        r@ == v@.reverse(),
{
    let ghost all = v@;
    let mut rest = v;
    let mut out: Vec<Commit> = Vec::new();
    while rest.len() > 0
        invariant
            out@ + rest@.reverse() =~= all.reverse(),
        decreases rest.len(),
    {
        let ghost before = rest@;
        let c = rest.pop().unwrap();
        out.push(c);
        assert(before.reverse() =~= seq![c] + rest@.reverse());
    }
    assert(rest@.reverse() =~= Seq::<Commit>::empty());
    out
}

/// A history read for a commit, turned oldest first, is the history read
/// from the store for that commit's hash.
proof fn lemma_history_read(store: Map<Seq<char>, Seq<u8>>, c: Commit, v: Seq<Commit>, h: Seq<Commit>)
    requires
        stored_rec_history(store, c.hash_view()) == Some(stamps(v)),
        v.len() >= 1,
        v[0].hash_view() == c.hash_view(),
        forall|i: int| 0 <= i < v.len() ==> #[trigger] files_known(store, v[i], c),
        files_stored(store, c),
        h == v.reverse(),
    ensures
        history_read(store, c.hash_view(), h),
{
    assert(h.reverse() =~= v);
    assert(h.last() == v[0]);
    assert forall|i: int| 0 <= i < h.len() implies files_of(#[trigger] h[i]) == stored_commit_files(store, h[i].hash_view()) by {
        assert(h[i] == v[v.len() - 1 - i]);
        assert(files_known(store, v[v.len() - 1 - i], c));
    }
}

/// Gives each commit from `start` on the previous one as first parent (the
/// first one `base_hash`) and saves it; the replayed commits, in order.
#[verifier::rlimit(100)]
fn replay_from(history: &mut Vec<Commit>, start: usize, base_hash: &GitHash, store: &mut ObjectStore)
    -> (r: Result<Ghost<Seq<Commit>>, ErrorType>)
    requires
        start < old(history)@.len(),
        forall|i: int| 0 <= i < old(history)@.len() ==> (#[trigger] old(history)@[i]).content_view() is Some,
    ensures
        r is Ok,
        r matches Ok(g) ==> {
            let nc = g@;
            &&& nc.len() == old(history)@.len() - start
            &&& forall|i: int| #![trigger nc[i]] 0 <= i < nc.len() ==> reparented(old(history)@[start + i], nc[i],
                if i == 0 { base_hash@ } else { nc[i - 1].hash_view() })
            &&& final(history)@.len() == old(history)@.len()
            &&& final(history)@.last() == nc.last()
            &&& final(store)@ == stored_after(old(store)@, commits_saves(nc))
            &&& final(store).written_view() == old(store).written_view() + commits_saves(nc)
        },
{
    let ghost h0 = history@;
    let ghost m0 = store@;
    let ghost w0 = store.written_view();
    let ghost d = start as int;
    let n = history.len();
    let ghost mut nc: Seq<Commit> = Seq::empty();
    assert(commits_saves(nc) =~= Seq::<(Seq<char>, Seq<u8>)>::empty());
    assert(w0 + commits_saves(nc) =~= w0);
    let mut j: usize = start;
    while j < n
        invariant
            n == history@.len(),
            n == h0.len(),
            start <= j <= n,
            d == start as int,
            forall|i: int| 0 <= i < h0.len() ==> (#[trigger] h0[i]).content_view() is Some,
            nc.len() == j - d,
            forall|i: int| #![trigger history@[i]] 0 <= i < n && !(d <= i < j) ==> history@[i] == h0[i],
            forall|i: int| #![trigger history@[i]] d <= i < j ==> history@[i] == nc[i - d],
            forall|i: int| #![trigger nc[i]] 0 <= i < nc.len() ==> reparented(h0[d + i], nc[i],
                if i == 0 { base_hash@ } else { nc[i - 1].hash_view() }),
            store@ == stored_after(m0, commits_saves(nc)),
            store.written_view() == w0 + commits_saves(nc),
        decreases n - j,
    {
        let before_hash = if j == start { base_hash.clone() } else { history[j - 1].get_hash() };
        proof {
            if j != start {
                assert(history@[j - 1] == nc[j - 1 - d]);
            }
        }
        assert(history@[j as int] == h0[j as int]);
        let mut commit = history[j].clone();
        match commit.set_parent_hash(Some(before_hash)) {
            Ok(()) => {},
            Err(e) => return Err(e),
        }
        match commit.save(store) {
            Ok(()) => {},
            Err(e) => return Err(e),
        }
        let ghost nc1 = nc.push(commit);
        proof {
            assert(nc1.drop_last() =~= nc);
            assert(commits_saves(nc1) == commits_saves(nc) + commit_saves(commit));
            lemma_stored_after_concat(m0, commits_saves(nc), commit_saves(commit));
            assert(store.written_view() =~= w0 + commits_saves(nc1));
            assert(reparented(h0[j as int], commit, before_hash@)) by {
                reveal(reparented);
            }
            assert forall|i: int| #![trigger nc1[i]] 0 <= i < nc1.len() implies reparented(h0[d + i], nc1[i],
                if i == 0 { base_hash@ } else { nc1[i - 1].hash_view() }) by {
                if i < nc.len() {
                    assert(nc1[i] == nc[i]);
                }
                if i > 0 {
                    assert(nc1[i - 1] == nc[i - 1]);
                }
            }
        }
        history.set(j, commit);
        proof { nc = nc1; }
        j = j + 1;
    }
    assert(history@[n - 1] == nc[n - 1 - d]);
    Ok(Ghost(nc))
}

/// Takes the objects of some commits out of the store, one after another.
fn delete_all(commits: &Vec<Commit>, store: &mut ObjectStore)
    ensures
        final(store)@ == removed_all(old(store)@, stamp_hashes(stamps(commits@))),
        final(store).written_view() == old(store).written_view(),
{
    let ghost m0 = store@;
    let ghost hd = stamp_hashes(stamps(commits@));
    assert(hd.subrange(0, 0) =~= Seq::<Seq<char>>::empty());
    let mut k: usize = 0;
    while k < commits.len()
        invariant
            k <= commits@.len(),
            hd == stamp_hashes(stamps(commits@)),
            hd.len() == commits@.len(),
            store@ == removed_all(m0, hd.subrange(0, k as int)),
            store.written_view() == old(store).written_view(),
        decreases commits.len() - k,
    {
        proof {
            assert(hd[k as int] == commits@[k as int].hash_view());
            assert(hd.subrange(0, k + 1).drop_last() =~= hd.subrange(0, k as int));
        }
        commits[k].delete(store);
        k = k + 1;
    }
    assert(hd.subrange(0, hd.len() as int) =~= hd);
}

impl Rebase {
    /// The first position from 1 on where the two histories (oldest first)
    /// have commits with different messages; 0 where there is none.
    pub fn get_pos_for_first_diff(commits_history_other: &Vec<Commit>, commits_history_base: &Vec<Commit>) -> (r: usize)
        ensures
            r as nat == first_diff(messages(commits_history_other@), messages(commits_history_base@), 1),
            r == 0 || r < commits_history_other@.len(),
    {
        let ghost o = messages(commits_history_other@);
        let ghost b = messages(commits_history_base@);
        let n = if commits_history_other.len() < commits_history_base.len() { commits_history_other.len() } else { commits_history_base.len() };
        let mut i: usize = 1;
        while i < n
            invariant
                n == (if o.len() < b.len() { o.len() } else { b.len() }),
                o == messages(commits_history_other@),
                b == messages(commits_history_base@),
                1 <= i,
                n <= commits_history_other@.len(),
                first_diff(o, b, 1) == first_diff(o, b, i as nat),
            decreases n - i,
        {
            assert(o[i as int] == commits_history_other@[i as int].message_view());
            assert(b[i as int] == commits_history_base@[i as int].message_view());
            if !text_eq(commits_history_other[i].get_message().as_str(), commits_history_base[i].get_message().as_str()) {
                return i;
            }
            i = i + 1;
        }
        0
    }

    /// Moves the commits of `other` that follow the point where its history
    /// and `base`'s part on top of `base`'s last commit: each gets the
    /// previous one as its parent and is saved, the old ones are deleted,
    /// and `other` points to the last new one. Gives the message and the
    /// moved branch, whose file is to be written.
    #[verifier::rlimit(100)]
    pub fn rebase_explicit(base: &str, other: &str, head_text: &str, branch_files: &Vec<(String, String)>,
        path_heads: &str, store: &mut ObjectStore) -> (r: Result<(String, Branch), ErrorType>)
        ensures
            rebase_outcome(old(store)@, final(store)@, old(store).written_view(), final(store).written_view(),
                branch_files@, base@, other@, head_text@, path_heads@, r),
    {
        proof { reveal_strlit("HEAD"); }
        if text_eq(base, other) {
            return Err(ErrorType::FormatError(String::from_str("Error, branches cannot be equal in rebase.")));
        }
        let other_name = if text_eq(other, "HEAD") { head_text } else { other };
        let base_branch = match Branch::open(path_heads, base, branch_file(branch_files, base)) {
            Ok(b) => b,
            Err(e) => return Err(e),
        };
        let mut other_branch = match Branch::open(path_heads, other_name, branch_file(branch_files, other_name)) {
            Ok(b) => b,
            Err(e) => return Err(e),
        };
        let last_commit_base = match base_branch.get_last_commit(store) {
            Ok(c) => c,
            Err(e) => return Err(e),
        };
        let last_commit_other = match other_branch.get_last_commit(store) {
            Ok(c) => c,
            Err(e) => return Err(e),
        };
        let history_base = match last_commit_base.get_commits_history_rec(store) {
            Ok(h) => h,
            Err(e) => return Err(e),
        };
        let history_other = match last_commit_other.get_commits_history_rec(store) {
            Ok(h) => h,
            Err(e) => return Err(e),
        };
        let ghost m0 = store@;
        let ghost w0 = store.written_view();
        let ghost ho = history_other@.reverse();
        let ghost hb = history_base@.reverse();
        let ghost name = rebased_name(other@, head_text@);
        proof {
            lemma_history_read(store@, last_commit_other, history_other@, ho);
            lemma_history_read(store@, last_commit_base, history_base@, hb);
            assert(other_name@ == name);
            assert(file_of(branch_files@, name)->0 == last_commit_other.hash_view());
            assert(file_of(branch_files@, base@)->0 == last_commit_base.hash_view());
        }
        let r = Self::replay_histories(base, other, other_branch, &last_commit_base, history_base, history_other, store);
        proof {
            if r is Ok {
                let b = r->Ok_0.1;
                let nc = choose|nc: Seq<Commit>| #[trigger] replayed(ho, hb, nc)
                    && b.hash_view() == nc.last().hash_view()
                    && store@ == removed_all(stored_after(m0, commits_saves(nc)),
                        stamp_hashes(stamps(ho.subrange(first_diff(messages(ho), messages(hb), 1) as int, ho.len() as int))))
                    && store.written_view() == w0 + commits_saves(nc);
                assert(replayed(ho, hb, nc) && history_read(m0, file_of(branch_files@, name)->0, ho)
                    && history_read(m0, file_of(branch_files@, base@)->0, hb));
            }
        }
        r
    }

    /// The part of a rebase after both histories are read (newest first):
    /// the commits of `history_other` from where the messages part are
    /// replayed on `base_commit` and saved, the ones they replace are
    /// taken out, and `other_branch` points to the last new one.
    #[verifier::rlimit(60)]
    fn replay_histories(base: &str, other: &str, other_branch: Branch, base_commit: &Commit,
        history_base: Vec<Commit>, history_other: Vec<Commit>, store: &mut ObjectStore)
        -> (r: Result<(String, Branch), ErrorType>)
        requires
            history_base@.len() >= 1,
            history_other@.len() >= 1,
            history_base@[0].hash_view() == base_commit.hash_view(),
            forall|i: int| 0 <= i < history_other@.len() ==> (#[trigger] history_other@[i]).content_view() is Some,
        ensures
            r matches Ok((m, b)) && m@ == "Branch base: "@ + base@ + " for: "@ + other@ + "."@
                && b.name_view() == other_branch.name_view() && b.dir_view() == other_branch.dir_view()
                && exists|nc: Seq<Commit>| #[trigger] replayed(history_other@.reverse(), history_base@.reverse(), nc)
                    && b.hash_view() == nc.last().hash_view()
                    && final(store)@ == removed_all(stored_after(old(store)@, commits_saves(nc)),
                        stamp_hashes(stamps(history_other@.reverse().subrange(
                            first_diff(messages(history_other@.reverse()), messages(history_base@.reverse()), 1) as int,
                            history_other@.len() as int))))
                    && final(store).written_view() == old(store).written_view() + commits_saves(nc),
    {
        let mut other_branch = other_branch;
        let ghost ho = history_other@;
        let ghost hbo = history_base@;
        let history_base = reversed(history_base);
        let mut history_other = reversed(history_other);
        let ghost ho0 = history_other@;
        let ghost hb = history_base@;
        assert(hb.last() == hbo[0]);
        assert forall|i: int| 0 <= i < history_other@.len() implies (#[trigger] history_other@[i]).content_view() is Some by {
            assert(history_other@[i] == ho[ho.len() - 1 - i]);
        }
        let val_diff = Self::get_pos_for_first_diff(&history_other, &history_base);
        let ghost d = val_diff as int;
        let n = history_other.len();
        assert(n >= 1);
        let mut to_delete: Vec<Commit> = Vec::new();
        let mut j: usize = val_diff;
        while j < n
            invariant
                n == history_other@.len(),
                history_other@ == ho0,
                n >= 1,
                val_diff <= j <= n,
                d == val_diff as int,
                to_delete@.len() == j - val_diff,
                forall|i: int| 0 <= i < to_delete@.len() ==> (#[trigger] to_delete@[i]).hash_view() == ho0[d + i].hash_view(),
            decreases n - j,
        {
            to_delete.push(history_other[j].clone());
            j = j + 1;
        }
        let base_hash = base_commit.get_hash();
        let replay = match replay_from(&mut history_other, val_diff, &base_hash, store) {
            Ok(g) => g,
            Err(e) => return Err(e),
        };
        let ghost nc = replay@;
        other_branch.set_last_commit_hash(history_other[n - 1].get_hash());
        let ghost hd = stamp_hashes(stamps(ho0.subrange(d, n as int)));
        proof {
            assert(stamp_hashes(stamps(to_delete@)) =~= hd) by {
                assert forall|i: int| 0 <= i < hd.len() implies #[trigger] hd[i] == stamp_hashes(stamps(to_delete@))[i] by {
                    assert(ho0.subrange(d, n as int)[i] == ho0[d + i]);
                }
            }
        }
        delete_all(&to_delete, store);
        assert(replayed(ho0, hb, nc));
        let mut m = String::from_str("Branch base: ");
        push_text(&mut m, base);
        push_text(&mut m, " for: ");
        push_text(&mut m, other);
        push_text(&mut m, ".");
        Ok((m, other_branch))
    }

    /// `rebase <other>` moves `other` onto the head's branch (the head
    /// file's text); `rebase <base> <other>` moves `other` onto `base`.
    pub fn rebase(args: &Vec<String>, head_text: &str, branch_files: &Vec<(String, String)>, path_heads: &str,
        store: &mut ObjectStore) -> (r: Result<(String, Branch), ErrorType>)
        ensures
            args@.len() == 0 ==> (r matches Err(ErrorType::FormatError(m)) && m@ == "Error, requier some argument."@),
            args@.len() == 1 && head_text@ == args@[0]@ ==> r matches Err(ErrorType::FormatError(_)),
            args@.len() >= 2 && args@[0]@ == args@[1]@ ==> r matches Err(ErrorType::FormatError(_)),
            args@.len() == 1 ==> rebase_outcome(old(store)@, final(store)@, old(store).written_view(),
                final(store).written_view(), branch_files@, head_text@, args@[0]@, head_text@, path_heads@, r),
            args@.len() >= 2 ==> rebase_outcome(old(store)@, final(store)@, old(store).written_view(),
                final(store).written_view(), branch_files@, args@[0]@, args@[1]@, head_text@, path_heads@, r),
            args@.len() == 0 ==> final(store)@ == old(store)@ && final(store).written_view() == old(store).written_view(),
    {
        if args.len() == 0 {
            return Err(ErrorType::FormatError(String::from_str("Error, requier some argument.")));
        }
        if args.len() == 1 {
            return Self::rebase_explicit(head_text, args[0].as_str(), head_text, branch_files, path_heads, store);
        }
        Self::rebase_explicit(args[0].as_str(), args[1].as_str(), head_text, branch_files, path_heads, store)
    }
}

} // verus!
