use vstd::prelude::*;
use crate::diff::{Diff, ModificationType, Edit, edits, diff_spec, originals, modifieds, lemma_diff_reconstructs,
    lemma_diff_self};
use crate::errors::ErrorType;
use crate::text::{join_lines, join_with_newlines, views, lines};
use crate::hash::{GitHash, sha1_digest};
use crate::blob::Blob;
use crate::git_object::{GitObject, ObjectStore, object_parts};
use crate::object_type::{ObjectType, with_header};
use crate::assoc::assoc_map;
use vstd::utf8::{valid_utf8, decode_utf8, encode_utf8};
use vstd::string::StrSliceExecFns;
use crate::branch::Branch;
use crate::commit::{Commit, commit_ok, stored_common_ancestor, stored_commit_files, files_stored};
use crate::config::RepoConfig;
use crate::user::User;
use crate::tree::{entries_files, entries_content};
use crate::text::push_text;

verus! {

/// Merging of two lines of development that share a common ancestor.
pub struct Merge;

/// From position `i` of a list of edits up to the next kept line: the lines it
/// adds, and the position where it stops.
pub open spec fn conflict_scan(d: Seq<Edit>, i: nat) -> (Seq<Seq<char>>, nat)
    decreases (if i < d.len() { d.len() - i } else { 0 }),
{
    if i >= d.len() {
        (Seq::empty(), i)
    } else {
        match d[i as int] {
            Edit::Same(_) => (Seq::empty(), i),
            Edit::Add(l) => {
                let (r, e) = conflict_scan(d, i + 1);
                (seq![l] + r, e)
            },
            Edit::Remove(_) => conflict_scan(d, i + 1),
        }
    }
}

/// The block that marks a conflict: the head's added lines and the branch's
/// added lines, each up to its next kept line, between conflict markers.
pub open spec fn conflict_block(dh: Seq<Edit>, i: nat, db: Seq<Edit>, j: nat) -> Seq<char> {
    join_lines(
        seq!["<<<<<<< HEAD"@] + conflict_scan(dh, i).0 + seq!["======="@] + conflict_scan(db, j).0
            + seq![">>>>>>> Merge Branch"@],
    )
}

/// The merged lines and whether a conflict was found, walking the head's
/// edits `dh` from `i` and the branch's edits `db` from `j` (both made against
/// the common ancestor). Once one list is used up, the other's removals are
/// skipped and its kept and added lines are taken. From any positions within
/// the two lists the walk is `Some` (`lemma_three_way_defined`); `None` stands
/// only for a conflict block that would not move the walk on.
pub open spec fn merge_walk(dh: Seq<Edit>, db: Seq<Edit>, i: nat, j: nat) -> Option<(Seq<Seq<char>>, bool)>
    decreases (if i < dh.len() { dh.len() - i } else { 0 }) + (if j < db.len() { db.len() - j } else { 0 }),
{
    if i >= dh.len() && j >= db.len() {
        Some((Seq::empty(), false))
    } else if i >= dh.len() {
        match db[j as int] {
            Edit::Remove(_) => merge_walk(dh, db, i, j + 1),
            Edit::Same(l) => prepend_line(l, merge_walk(dh, db, i, j + 1)),
            Edit::Add(l) => prepend_line(l, merge_walk(dh, db, i, j + 1)),
        }
    } else if j >= db.len() {
        match dh[i as int] {
            Edit::Remove(_) => merge_walk(dh, db, i + 1, j),
            Edit::Same(l) => prepend_line(l, merge_walk(dh, db, i + 1, j)),
            Edit::Add(l) => prepend_line(l, merge_walk(dh, db, i + 1, j)),
        }
    } else {
        match (dh[i as int], db[j as int]) {
            (Edit::Same(l), Edit::Same(_)) => prepend_line(l, merge_walk(dh, db, i + 1, j + 1)),
            (Edit::Same(_), Edit::Add(l)) => prepend_line(l, merge_walk(dh, db, i, j + 1)),
            (Edit::Add(l), Edit::Same(_)) => prepend_line(l, merge_walk(dh, db, i + 1, j)),
            (Edit::Same(_), Edit::Remove(_)) => merge_walk(dh, db, i + 1, j + 1),
            (Edit::Remove(_), Edit::Same(_)) => merge_walk(dh, db, i + 1, j + 1),
            (Edit::Remove(_), Edit::Remove(_)) => merge_walk(dh, db, i + 1, j + 1),
            (Edit::Add(l1), Edit::Add(l2)) => {
                if l1 == l2 {
                    prepend_line(l1, merge_walk(dh, db, i + 1, j + 1))
                } else {
                    prepend_conflict(conflict_block(dh, i, db, j), merge_walk_after_conflict(dh, db, i, j))
                }
            },
            _ => prepend_conflict(conflict_block(dh, i, db, j), merge_walk_after_conflict(dh, db, i, j)),
        }
    }
}

/// The rest of the walk after a conflict block that starts at `i` and `j`.
pub open spec fn merge_walk_after_conflict(dh: Seq<Edit>, db: Seq<Edit>, i: nat, j: nat) -> Option<(Seq<Seq<char>>, bool)>
    decreases (if i < dh.len() { dh.len() - i } else { 0 }) + (if j < db.len() { db.len() - j } else { 0 }), 0nat,
{
    let ni = conflict_scan(dh, i).1;
    let nj = conflict_scan(db, j).1;
    if i < dh.len() && j < db.len() && !(dh[i as int] is Same) && !(db[j as int] is Same) && ni > i && nj > j {
        merge_walk(dh, db, ni, nj)
    } else {
        None
    }
}

pub open spec fn prepend_line(l: Seq<char>, rest: Option<(Seq<Seq<char>>, bool)>) -> Option<(Seq<Seq<char>>, bool)> {
    match rest {
        Some((ls, c)) => Some((seq![l] + ls, c)),
        None => None,
    }
}

pub open spec fn prepend_conflict(block: Seq<char>, rest: Option<(Seq<Seq<char>>, bool)>) -> Option<(Seq<Seq<char>>, bool)> {
    match rest {
        Some((ls, _)) => Some((seq![block] + ls, true)),
        None => None,
    }
}

/// The lines of a walk's outcome, empty where the walk got stuck.
pub open spec fn merged_lines(o: Option<(Seq<Seq<char>>, bool)>) -> Seq<Seq<char>> {
    match o {
        Some((ls, _)) => ls,
        None => Seq::empty(),
    }
}

/// The three-way merge of two texts against their common ancestor.
pub open spec fn three_way_spec(lca: Seq<char>, head: Seq<char>, branch: Seq<char>) -> Option<(Seq<Seq<char>>, bool)> {
    merge_walk(diff_spec(lca, head), diff_spec(lca, branch), 0, 0)
}

proof fn lemma_conflict_scan_advances(d: Seq<Edit>, i: nat)
    ensures
        conflict_scan(d, i).1 >= i,
        i < d.len() && !(d[i as int] is Same) ==> conflict_scan(d, i).1 > i,
        conflict_scan(d, i).1 <= (if i <= d.len() { d.len() } else { i }),
    decreases (if i < d.len() { d.len() - i } else { 0 }),
{
    if i < d.len() && !(d[i as int] is Same) {
        lemma_conflict_scan_advances(d, i + 1);
    }
}

proof fn lemma_conflict_step(dh: Seq<Edit>, db: Seq<Edit>, i: nat, j: nat)
    requires
        i < dh.len(),
        j < db.len(),
        !(dh[i as int] is Same),
        !(db[j as int] is Same),
        !(dh[i as int] is Remove && db[j as int] is Remove),
        !(dh[i as int] is Add && db[j as int] is Add && dh[i as int]->Add_0 == db[j as int]->Add_0),
    ensures
        i < conflict_scan(dh, i).1 <= dh.len(),
        j < conflict_scan(db, j).1 <= db.len(),
        merge_walk(dh, db, i, j) == prepend_conflict(
            conflict_block(dh, i, db, j),
            merge_walk(dh, db, conflict_scan(dh, i).1, conflict_scan(db, j).1),
        ),
{
    lemma_conflict_scan_advances(dh, i);
    lemma_conflict_scan_advances(db, j);
    assert(merge_walk_after_conflict(dh, db, i, j) == merge_walk(dh, db, conflict_scan(dh, i).1, conflict_scan(db, j).1));
}

/// The walk over two edit lists always gets to the end of both: every step
/// moves past at least one edit, a conflict block past one of each.
proof fn lemma_walk_finishes(dh: Seq<Edit>, db: Seq<Edit>, i: nat, j: nat)
    requires
        i <= dh.len(),
        j <= db.len(),
    ensures
        merge_walk(dh, db, i, j) is Some,
    decreases (dh.len() - i) + (db.len() - j),
{
    if i >= dh.len() && j >= db.len() {
    } else if i >= dh.len() {
        lemma_walk_finishes(dh, db, i, j + 1);
    } else if j >= db.len() {
        lemma_walk_finishes(dh, db, i + 1, j);
    } else {
        match (dh[i as int], db[j as int]) {
            (Edit::Same(_), Edit::Same(_)) => lemma_walk_finishes(dh, db, i + 1, j + 1),
            (Edit::Same(_), Edit::Add(_)) => lemma_walk_finishes(dh, db, i, j + 1),
            (Edit::Add(_), Edit::Same(_)) => lemma_walk_finishes(dh, db, i + 1, j),
            (Edit::Same(_), Edit::Remove(_)) => lemma_walk_finishes(dh, db, i + 1, j + 1),
            (Edit::Remove(_), Edit::Same(_)) => lemma_walk_finishes(dh, db, i + 1, j + 1),
            (Edit::Remove(_), Edit::Remove(_)) => lemma_walk_finishes(dh, db, i + 1, j + 1),
            (Edit::Add(l1), Edit::Add(l2)) => {
                if l1 == l2 {
                    lemma_walk_finishes(dh, db, i + 1, j + 1);
                } else {
                    lemma_conflict_step(dh, db, i, j);
                    lemma_walk_finishes(dh, db, conflict_scan(dh, i).1, conflict_scan(db, j).1);
                }
            },
            _ => {
                lemma_conflict_step(dh, db, i, j);
                lemma_walk_finishes(dh, db, conflict_scan(dh, i).1, conflict_scan(db, j).1);
            },
        }
    }
}

/// The three-way merge of any three texts is defined.
pub proof fn lemma_three_way_defined(lca: Seq<char>, head: Seq<char>, branch: Seq<char>)
    ensures
        three_way_spec(lca, head, branch) is Some,
{
    lemma_walk_finishes(diff_spec(lca, head), diff_spec(lca, branch), 0, 0);
}

/// Walking the edits of a side against the edits of a side that keeps every
/// line of the ancestor gives the first side's lines, with no conflict.
proof fn lemma_walk_other_untouched(dh: Seq<Edit>, db: Seq<Edit>, i: nat, j: nat)
    requires
        i <= dh.len(),
        j <= db.len(),
        forall|k: int| j <= k < db.len() ==> (#[trigger] db[k]) is Same,
        originals(dh.subrange(i as int, dh.len() as int)) == originals(db.subrange(j as int, db.len() as int)),
    ensures
        merge_walk(dh, db, i, j) == Some((modifieds(dh.subrange(i as int, dh.len() as int)), false)),
    decreases (dh.len() - i) + (db.len() - j),
{
    let x = dh.subrange(i as int, dh.len() as int);
    let y = db.subrange(j as int, db.len() as int);
    if i < dh.len() {
        assert(x[0] == dh[i as int]);
        assert(x.drop_first() =~= dh.subrange(i as int + 1, dh.len() as int));
    }
    if j < db.len() {
        assert(y[0] == db[j as int]);
        assert(y.drop_first() =~= db.subrange(j as int + 1, db.len() as int));
    }
    if i >= dh.len() && j >= db.len() {
        assert(x =~= Seq::<Edit>::empty());
    } else if i >= dh.len() {
        assert(x =~= Seq::<Edit>::empty());
        assert(originals(y).len() >= 1);
    } else if j >= db.len() {
        assert(y =~= Seq::<Edit>::empty());
        match dh[i as int] {
            Edit::Add(l) => {
                lemma_walk_other_untouched(dh, db, i + 1, j);
            },
            _ => {
                assert(originals(x).len() >= 1);
            },
        }
    } else {
        match dh[i as int] {
            Edit::Same(l) => {
                assert(originals(x).drop_first() =~= originals(dh.subrange(i as int + 1, dh.len() as int)));
                assert(originals(y).drop_first() =~= originals(db.subrange(j as int + 1, db.len() as int)));
                lemma_walk_other_untouched(dh, db, i + 1, j + 1);
            },
            Edit::Add(l) => {
                lemma_walk_other_untouched(dh, db, i + 1, j);
            },
            Edit::Remove(l) => {
                assert(originals(x).drop_first() =~= originals(dh.subrange(i as int + 1, dh.len() as int)));
                assert(originals(y).drop_first() =~= originals(db.subrange(j as int + 1, db.len() as int)));
                lemma_walk_other_untouched(dh, db, i + 1, j + 1);
            },
        }
    }
}

/// Walking the edits of a side that keeps every line of the ancestor against
/// the edits of the other side gives the other side's lines, with no
/// conflict.
proof fn lemma_walk_head_untouched(dh: Seq<Edit>, db: Seq<Edit>, i: nat, j: nat)
    requires
        i <= dh.len(),
        j <= db.len(),
        forall|k: int| i <= k < dh.len() ==> (#[trigger] dh[k]) is Same,
        originals(dh.subrange(i as int, dh.len() as int)) == originals(db.subrange(j as int, db.len() as int)),
    ensures
        merge_walk(dh, db, i, j) == Some((modifieds(db.subrange(j as int, db.len() as int)), false)),
    decreases (dh.len() - i) + (db.len() - j),
{
    let x = dh.subrange(i as int, dh.len() as int);
    let y = db.subrange(j as int, db.len() as int);
    if i < dh.len() {
        assert(x[0] == dh[i as int]);
        assert(x.drop_first() =~= dh.subrange(i as int + 1, dh.len() as int));
    }
    if j < db.len() {
        assert(y[0] == db[j as int]);
        assert(y.drop_first() =~= db.subrange(j as int + 1, db.len() as int));
    }
    if i >= dh.len() && j >= db.len() {
        assert(y =~= Seq::<Edit>::empty());
    } else if j >= db.len() {
        assert(y =~= Seq::<Edit>::empty());
        assert(originals(x).len() >= 1);
    } else if i >= dh.len() {
        assert(x =~= Seq::<Edit>::empty());
        match db[j as int] {
            Edit::Add(l) => {
                lemma_walk_head_untouched(dh, db, i, j + 1);
            },
            _ => {
                assert(originals(y).len() >= 1);
            },
        }
    } else {
        match db[j as int] {
            Edit::Same(l) => {
                assert(originals(x)[0] == originals(y)[0]);
                assert(originals(x).drop_first() =~= originals(dh.subrange(i as int + 1, dh.len() as int)));
                assert(originals(y).drop_first() =~= originals(db.subrange(j as int + 1, db.len() as int)));
                lemma_walk_head_untouched(dh, db, i + 1, j + 1);
            },
            Edit::Add(l) => {
                lemma_walk_head_untouched(dh, db, i, j + 1);
            },
            Edit::Remove(l) => {
                assert(originals(x).drop_first() =~= originals(dh.subrange(i as int + 1, dh.len() as int)));
                assert(originals(y).drop_first() =~= originals(db.subrange(j as int + 1, db.len() as int)));
                lemma_walk_head_untouched(dh, db, i + 1, j + 1);
            },
        }
    }
}

/// Walking a list of edits against itself gives its lines, with no conflict.
proof fn lemma_walk_same_edits(d: Seq<Edit>, i: nat)
    requires
        i <= d.len(),
    ensures
        merge_walk(d, d, i, i) == Some((modifieds(d.subrange(i as int, d.len() as int)), false)),
    decreases d.len() - i,
{
    let x = d.subrange(i as int, d.len() as int);
    if i < d.len() {
        assert(x[0] == d[i as int]);
        assert(x.drop_first() =~= d.subrange(i as int + 1, d.len() as int));
        lemma_walk_same_edits(d, i + 1);
    } else {
        assert(x =~= Seq::<Edit>::empty());
    }
}

/// Where both sides made the same changes to the common ancestor, the
/// three-way merge is that text, with no conflict.
pub proof fn law_merge_same_changes(lca: Seq<char>, both: Seq<char>)
    ensures
        three_way_spec(lca, both, both) == Some((lines(both), false)),
{
    let d = diff_spec(lca, both);
    lemma_diff_reconstructs(lca, both);
    assert(d.subrange(0, d.len() as int) =~= d);
    lemma_walk_same_edits(d, 0);
}

/// Where the branch left the common ancestor as it was, the three-way merge
/// is the head's text, line for line, with no conflict: every line the head
/// removed stays removed and every line it added is there.
pub proof fn law_merge_keeps_head_changes(lca: Seq<char>, head: Seq<char>)
    ensures
        three_way_spec(lca, head, lca) == Some((lines(head), false)),
{
    let dh = diff_spec(lca, head);
    let db = diff_spec(lca, lca);
    lemma_diff_reconstructs(lca, head);
    lemma_diff_reconstructs(lca, lca);
    lemma_diff_self(lca);
    assert(dh.subrange(0, dh.len() as int) =~= dh);
    assert(db.subrange(0, db.len() as int) =~= db);
    lemma_walk_other_untouched(dh, db, 0, 0);
}

/// Where the head left the common ancestor as it was, the three-way merge is
/// the branch's text, line for line, with no conflict.
pub proof fn law_merge_takes_branch_changes(lca: Seq<char>, branch: Seq<char>)
    ensures
        three_way_spec(lca, lca, branch) == Some((lines(branch), false)),
{
    let dh = diff_spec(lca, lca);
    let db = diff_spec(lca, branch);
    lemma_diff_reconstructs(lca, branch);
    lemma_diff_reconstructs(lca, lca);
    lemma_diff_self(lca);
    assert(dh.subrange(0, dh.len() as int) =~= dh);
    assert(db.subrange(0, db.len() as int) =~= db);
    lemma_walk_head_untouched(dh, db, 0, 0);
}

impl Merge {
    /// Gathers a conflicting block that starts at the given positions of two
    /// edit lists: the head's added lines up to its next kept line, a
    /// separator, the branch's added lines up to its next kept line, between
    /// conflict markers. Both positions are moved past what was gathered.
    pub fn conflict(
        diff_head: &[ModificationType],
        head_conflict_line: &mut usize,
        diff_branch: &[ModificationType],
        branch_conflict_line: &mut usize,
    ) -> (r: String)
        ensures
            *final(head_conflict_line) == conflict_scan(edits(diff_head@), *old(head_conflict_line) as nat).1,
            *final(branch_conflict_line) == conflict_scan(edits(diff_branch@), *old(branch_conflict_line) as nat).1,
            r@ == conflict_block(edits(diff_head@), *old(head_conflict_line) as nat,
                edits(diff_branch@), *old(branch_conflict_line) as nat),
    {
        let ghost dh = edits(diff_head@);
        let ghost db = edits(diff_branch@);
        let ghost h0 = *head_conflict_line as nat;
        let ghost b0 = *branch_conflict_line as nat;
        let mut result: Vec<String> = Vec::new();
        result.push(String::from_str("<<<<<<< HEAD"));
        let ghost start = views(result@);
        assert(start =~= seq!["<<<<<<< HEAD"@]);
        while *head_conflict_line < diff_head.len()
            invariant
                dh == edits(diff_head@),
                views(result@) + conflict_scan(dh, *head_conflict_line as nat).0 == start + conflict_scan(dh, h0).0,
                conflict_scan(dh, *head_conflict_line as nat).1 == conflict_scan(dh, h0).1,
            ensures
                *head_conflict_line as nat == conflict_scan(dh, h0).1,
                conflict_scan(dh, *head_conflict_line as nat).0.len() == 0,
            decreases diff_head.len() - *head_conflict_line,
        {
            let h = *head_conflict_line;
            assert(dh[h as int] == diff_head@[h as int]@);
            match &diff_head[h] {
                ModificationType::Same(_) => {
                    assert(conflict_scan(dh, h as nat).1 == h as nat);
                    assert(conflict_scan(dh, h as nat).0 =~= Seq::<Seq<char>>::empty());
                    assert(views(result@) =~= start + conflict_scan(dh, h0).0);
                    break;
                },
                ModificationType::Add(l) => {
                    let ghost prev = views(result@);
                    result.push(l.clone());
                    assert(views(result@) =~= prev.push(l@));
                    assert(views(result@) + conflict_scan(dh, (h + 1) as nat).0
                        =~= prev + conflict_scan(dh, h as nat).0);
                },
                ModificationType::Remove(_) => {},
            }
            *head_conflict_line = h + 1;
        }
        proof {
            if *head_conflict_line >= diff_head.len() {
                assert(conflict_scan(dh, *head_conflict_line as nat).0 =~= Seq::<Seq<char>>::empty());
                assert(views(result@) =~= start + conflict_scan(dh, h0).0);
            }
        }
        let ghost mid = views(result@);
        assert(conflict_scan(dh, *head_conflict_line as nat).0 =~= Seq::<Seq<char>>::empty());
        assert(mid =~= start + conflict_scan(dh, h0).0);
        result.push(String::from_str("======="));
        let ghost start2 = views(result@);
        assert(start2 =~= mid.push("======="@));
        while *branch_conflict_line < diff_branch.len()
            invariant
                db == edits(diff_branch@),
                views(result@) + conflict_scan(db, *branch_conflict_line as nat).0 == start2 + conflict_scan(db, b0).0,
                conflict_scan(db, *branch_conflict_line as nat).1 == conflict_scan(db, b0).1,
            ensures
                *branch_conflict_line as nat == conflict_scan(db, b0).1,
                conflict_scan(db, *branch_conflict_line as nat).0.len() == 0,
            decreases diff_branch.len() - *branch_conflict_line,
        {
            let b = *branch_conflict_line;
            assert(db[b as int] == diff_branch@[b as int]@);
            match &diff_branch[b] {
                ModificationType::Same(_) => {
                    assert(conflict_scan(db, b as nat).1 == b as nat);
                    assert(conflict_scan(db, b as nat).0 =~= Seq::<Seq<char>>::empty());
                    assert(views(result@) =~= start2 + conflict_scan(db, b0).0);
                    break;
                },
                ModificationType::Add(l) => {
                    let ghost prev = views(result@);
                    result.push(l.clone());
                    assert(views(result@) =~= prev.push(l@));
                    assert(views(result@) + conflict_scan(db, (b + 1) as nat).0
                        =~= prev + conflict_scan(db, b as nat).0);
                },
                ModificationType::Remove(_) => {},
            }
            *branch_conflict_line = b + 1;
        }
        proof {
            if *branch_conflict_line >= diff_branch.len() {
                assert(conflict_scan(db, *branch_conflict_line as nat).0 =~= Seq::<Seq<char>>::empty());
                assert(views(result@) =~= start2 + conflict_scan(db, b0).0);
            }
        }
        let ghost before_end = views(result@);
        assert(conflict_scan(db, *branch_conflict_line as nat).0 =~= Seq::<Seq<char>>::empty());
        assert(before_end =~= start2 + conflict_scan(db, b0).0);
        result.push(String::from_str(">>>>>>> Merge Branch"));
        assert(views(result@) =~= before_end.push(">>>>>>> Merge Branch"@));
        assert(views(result@) =~= seq!["<<<<<<< HEAD"@] + conflict_scan(dh, h0).0 + seq!["======="@]
            + conflict_scan(db, b0).0 + seq![">>>>>>> Merge Branch"@]);
        join_with_newlines(&result)
    }

    /// Merges two modified versions of a common base text. Lines that are the
    /// same everywhere stay, a change made on one side only is applied, and
    /// where both sides changed the same place a conflict block holds both
    /// versions. The merged text goes to `buffer`; the result tells whether
    /// there was a conflict.
    pub fn three_way_merge(
        lca_content: &str,
        head_content: &str,
        branch_content: &str,
        buffer: &mut String,
    ) -> (r: Result<bool, ErrorType>)
        requires
            lca_content@.len() < usize::MAX,
            head_content@.len() < usize::MAX,
            branch_content@.len() < usize::MAX,
        ensures
            three_way_spec(lca_content@, head_content@, branch_content@) matches Some((ls, c))
                && r == Ok::<bool, ErrorType>(c) && final(buffer)@ == join_lines(ls),
    {
        proof { lemma_three_way_defined(lca_content@, head_content@, branch_content@); }
        let diff_head = Diff::diff(lca_content, head_content);
        let diff_branch = Diff::diff(lca_content, branch_content);
        let ghost dh = edits(diff_head@);
        let ghost db = edits(diff_branch@);
        let ghost whole = three_way_spec(lca_content@, head_content@, branch_content@);
        let mut conflict = false;
        let mut i: usize = 0;
        let mut j: usize = 0;
        let mut lines: Vec<String> = Vec::new();
        assert(views(lines@) =~= Seq::<Seq<char>>::empty());
        assert(merged_lines(whole) =~= views(lines@) + merged_lines(whole));
        while i < diff_head.len() || j < diff_branch.len()
            invariant
                dh == edits(diff_head@),
                db == edits(diff_branch@),
                dh.len() == diff_head@.len(),
                db.len() == diff_branch@.len(),
                i <= diff_head@.len(),
                j <= diff_branch@.len(),
                whole == merge_walk(dh, db, 0, 0),
                merge_walk(dh, db, i as nat, j as nat) matches Some((rl, rc))
                    && whole == Some((views(lines@) + rl, conflict || rc)),
            decreases (diff_head.len() - i) + (diff_branch.len() - j),
        {
            let ghost rest = merge_walk(dh, db, i as nat, j as nat);
            let ghost prev = views(lines@);
            if i >= diff_head.len() {
                assert(db[j as int] == diff_branch@[j as int]@);
                match &diff_branch[j] {
                    ModificationType::Remove(_) => {
                        j += 1;
                        continue;
                    },
                    ModificationType::Same(l) => lines.push(l.clone()),
                    ModificationType::Add(l) => lines.push(l.clone()),
                }
                proof {
                    let next = merge_walk(dh, db, i as nat, (j + 1) as nat);
                    assert(views(lines@) =~= prev.push(views(lines@).last()));
                    assert(views(lines@) + merged_lines(next) =~= prev + merged_lines(rest));
                }
                j += 1;
            } else if j >= diff_branch.len() {
                assert(dh[i as int] == diff_head@[i as int]@);
                match &diff_head[i] {
                    ModificationType::Remove(_) => {
                        i += 1;
                        continue;
                    },
                    ModificationType::Same(l) => lines.push(l.clone()),
                    ModificationType::Add(l) => lines.push(l.clone()),
                }
                proof {
                    let next = merge_walk(dh, db, (i + 1) as nat, j as nat);
                    assert(views(lines@) =~= prev.push(views(lines@).last()));
                    assert(views(lines@) + merged_lines(next) =~= prev + merged_lines(rest));
                }
                i += 1;
            } else {
                assert(dh[i as int] == diff_head@[i as int]@);
                assert(db[j as int] == diff_branch@[j as int]@);
                match (&diff_head[i], &diff_branch[j]) {
                    (ModificationType::Same(l), ModificationType::Same(_)) => {
                        lines.push(l.clone());
                        proof {
                            let next = merge_walk(dh, db, (i + 1) as nat, (j + 1) as nat);
                            assert(views(lines@) + merged_lines(next) =~= prev + merged_lines(rest));
                        }
                        i += 1;
                        j += 1;
                    },
                    (ModificationType::Same(_), ModificationType::Add(l)) => {
                        lines.push(l.clone());
                        proof {
                            let next = merge_walk(dh, db, i as nat, (j + 1) as nat);
                            assert(views(lines@) + merged_lines(next) =~= prev + merged_lines(rest));
                        }
                        j += 1;
                    },
                    (ModificationType::Add(l), ModificationType::Same(_)) => {
                        lines.push(l.clone());
                        proof {
                            let next = merge_walk(dh, db, (i + 1) as nat, j as nat);
                            assert(views(lines@) + merged_lines(next) =~= prev + merged_lines(rest));
                        }
                        i += 1;
                    },
                    (ModificationType::Same(_), ModificationType::Remove(_))
                    | (ModificationType::Remove(_), ModificationType::Same(_))
                    | (ModificationType::Remove(_), ModificationType::Remove(_)) => {
                        i += 1;
                        j += 1;
                    },
                    (ModificationType::Add(l1), ModificationType::Add(l2)) => {
                        if *l1 == *l2 {
                            lines.push(l1.clone());
                            proof {
                                let next = merge_walk(dh, db, (i + 1) as nat, (j + 1) as nat);
                                assert(views(lines@) + merged_lines(next) =~= prev + merged_lines(rest));
                            }
                            i += 1;
                            j += 1;
                        } else {
                            proof {
                                lemma_conflict_step(dh, db, i as nat, j as nat);
                            }
                            conflict = true;
                            let ghost i0 = i as nat;
                            let ghost j0 = j as nat;
                            let conflict_block = Self::conflict(diff_head.as_slice(), &mut i, diff_branch.as_slice(), &mut j);
                            lines.push(conflict_block);
                            proof {
                                let next = merge_walk(dh, db, i as nat, j as nat);
                                assert(rest == prepend_conflict(crate::merge::conflict_block(dh, i0, db, j0), next));
                                assert(views(lines@) + merged_lines(next) =~= prev + merged_lines(rest));
                            }
                        }
                    },
                    _ => {
                        proof {
                            lemma_conflict_step(dh, db, i as nat, j as nat);
                        }
                        conflict = true;
                        let ghost i0 = i as nat;
                        let ghost j0 = j as nat;
                        let conflict_block = Self::conflict(diff_head.as_slice(), &mut i, diff_branch.as_slice(), &mut j);
                        lines.push(conflict_block);
                        proof {
                            let next = merge_walk(dh, db, i as nat, j as nat);
                            assert(rest == prepend_conflict(crate::merge::conflict_block(dh, i0, db, j0), next));
                            assert(views(lines@) + merged_lines(next) =~= prev + merged_lines(rest));
                        }
                    },
                }
            }
        }
        assert(views(lines@) + Seq::<Seq<char>>::empty() =~= views(lines@));
        *buffer = join_with_newlines(&lines);
        Ok(conflict)
    }
}


/// The texts of a list of paths and hashes.
pub open spec fn hash_pairs(v: Seq<(String, GitHash)>) -> Seq<(Seq<char>, Seq<char>)> {
    v.map_values(|p: (String, GitHash)| (p.0@, p.1@))
}

/// The texts of a list of paths and blobs.
pub open spec fn blob_pairs(v: Seq<(String, Blob)>) -> Seq<(Seq<char>, Seq<char>)> {
    v.map_values(|p: (String, Blob)| (p.0@, p.1@))
}

/// The text of the blob stored under `hash`, if the store holds a blob there
/// whose content is UTF-8.
pub open spec fn blob_text(store: Map<Seq<char>, Seq<u8>>, hash: Seq<char>) -> Option<Seq<char>> {
    match object_parts(store, hash) {
        Some((t, _, c)) => if t == ObjectType::Blob && valid_utf8(c) { Some(decode_utf8(c)) } else { None },
        None => None,
    }
}

/// What comparing one file of the branch gives.
pub enum FileOutcome {
    Unchanged,
    Modified(Seq<char>),
    Conflict(Seq<char>),
}

/// The outcome of the three-way merge of the texts stored under three hashes.
pub open spec fn merged_outcome(store: Map<Seq<char>, Seq<u8>>, head: Seq<char>, branch: Seq<char>, lca: Seq<char>) -> Option<FileOutcome> {
    match (blob_text(store, head), blob_text(store, branch), blob_text(store, lca)) {
        (Some(ht), Some(bt), Some(lt)) =>
            if lt.len() >= usize::MAX || ht.len() >= usize::MAX || bt.len() >= usize::MAX {
                None
            } else {
                match three_way_spec(lt, ht, bt) {
                    Some((ls, c)) => if c { Some(FileOutcome::Conflict(join_lines(ls))) } else { Some(FileOutcome::Modified(join_lines(ls))) },
                    None => None,
                }
            },
        _ => None,
    }
}

/// What one file of the branch gives, against the head's and the common
/// ancestor's files; `None` on an error.
pub open spec fn file_outcome(
    path: Seq<char>,
    branch_hash: Seq<char>,
    head: Map<Seq<char>, Seq<char>>,
    lca: Map<Seq<char>, Seq<char>>,
    store: Map<Seq<char>, Seq<u8>>,
) -> Option<FileOutcome> {
    if head.contains_key(path) {
        if head[path] == branch_hash {
            Some(FileOutcome::Unchanged)
        } else if !lca.contains_key(path) {
            None
        } else if lca[path] == branch_hash {
            Some(FileOutcome::Unchanged)
        } else {
            merged_outcome(store, head[path], branch_hash, lca[path])
        }
    } else {
        match blob_text(store, branch_hash) {
            Some(t) => Some(FileOutcome::Modified(t)),
            None => None,
        }
    }
}

/// The modified and the conflicting files after comparing the first `n`
/// files of the branch; `None` on an error.
pub open spec fn compare_upto(
    branch: Seq<(Seq<char>, Seq<char>)>,
    head: Map<Seq<char>, Seq<char>>,
    lca: Map<Seq<char>, Seq<char>>,
    store: Map<Seq<char>, Seq<u8>>,
    n: nat,
) -> Option<(Seq<(Seq<char>, Seq<char>)>, Seq<(Seq<char>, Seq<char>)>)>
    decreases n,
{
    if n == 0 {
        Some((Seq::empty(), Seq::empty()))
    } else {
        match compare_upto(branch, head, lca, store, (n - 1) as nat) {
            Some((m, c)) => {
                let (p, h) = branch[n - 1];
                match file_outcome(p, h, head, lca, store) {
                    Some(FileOutcome::Unchanged) => Some((m, c)),
                    Some(FileOutcome::Modified(t)) => Some((m.push((p, t)), c)),
                    Some(FileOutcome::Conflict(t)) => Some((m, c.push((p, t)))),
                    None => None,
                }
            },
            None => None,
        }
    }
}

/// The paths of a list of files.
pub open spec fn paths_of(v: Seq<(Seq<char>, Seq<char>)>) -> Seq<Seq<char>> {
    v.map_values(|e: (Seq<char>, Seq<char>)| e.0)
}

/// The modified files that comparing the first `n` files of the branch
/// gives (none where it fails).
pub open spec fn compared_modified(branch: Seq<(Seq<char>, Seq<char>)>, head: Map<Seq<char>, Seq<char>>,
    lca: Map<Seq<char>, Seq<char>>, store: Map<Seq<char>, Seq<u8>>, n: nat) -> Seq<(Seq<char>, Seq<char>)> {
    match compare_upto(branch, head, lca, store, n) {
        Some((m, _)) => m,
        None => Seq::empty(),
    }
}

/// The conflicting files that comparing the first `n` files of the branch
/// gives (none where it fails).
pub open spec fn compared_conflicts(branch: Seq<(Seq<char>, Seq<char>)>, head: Map<Seq<char>, Seq<char>>,
    lca: Map<Seq<char>, Seq<char>>, store: Map<Seq<char>, Seq<u8>>, n: nat) -> Seq<(Seq<char>, Seq<char>)> {
    match compare_upto(branch, head, lca, store, n) {
        Some((_, c)) => c,
        None => Seq::empty(),
    }
}

/// Whether a file of the branch is one that comparing reports: the head
/// lacks it, or both the head and the common ancestor hold another version.
pub open spec fn changed_here(e: (Seq<char>, Seq<char>), head: Map<Seq<char>, Seq<char>>, lca: Map<Seq<char>, Seq<char>>) -> bool {
    !head.contains_key(e.0) || (head[e.0] != e.1 && lca[e.0] != e.1)
}

/// One step of comparing: the `n`-th file of the branch adds nothing, a
/// modified file or a conflicting one.
proof fn lemma_compare_step(branch: Seq<(Seq<char>, Seq<char>)>, head: Map<Seq<char>, Seq<char>>,
    lca: Map<Seq<char>, Seq<char>>, store: Map<Seq<char>, Seq<u8>>, n: nat)
    requires
        0 < n <= branch.len(),
        compare_upto(branch, head, lca, store, n) is Some,
    ensures
        compare_upto(branch, head, lca, store, (n - 1) as nat) is Some,
        ({
            let e = branch[n - 1];
            let m0 = compared_modified(branch, head, lca, store, (n - 1) as nat);
            let c0 = compared_conflicts(branch, head, lca, store, (n - 1) as nat);
            let m = compared_modified(branch, head, lca, store, n);
            let c = compared_conflicts(branch, head, lca, store, n);
            match file_outcome(e.0, e.1, head, lca, store) {
                Some(FileOutcome::Unchanged) => m == m0 && c == c0 && !changed_here(e, head, lca),
                Some(FileOutcome::Modified(t)) => m == m0.push((e.0, t)) && c == c0 && changed_here(e, head, lca)
                    && (!head.contains_key(e.0) ==> blob_text(store, e.1) == Some(t)),
                Some(FileOutcome::Conflict(t)) => m == m0 && c == c0.push((e.0, t)) && changed_here(e, head, lca)
                    && head.contains_key(e.0) && merged_outcome(store, head[e.0], e.1, lca[e.0]) == Some(FileOutcome::Conflict(t)),
                None => false,
            }
        }),
{
}

/// Whether comparing the first `n` files of the branch reports a path,
/// modified or conflicting.
pub open spec fn reported(branch: Seq<(Seq<char>, Seq<char>)>, head: Map<Seq<char>, Seq<char>>,
    lca: Map<Seq<char>, Seq<char>>, store: Map<Seq<char>, Seq<u8>>, n: nat, p: Seq<char>) -> bool {
    paths_of(compared_modified(branch, head, lca, store, n)).contains(p)
        || paths_of(compared_conflicts(branch, head, lca, store, n)).contains(p)
}

/// Whether one of the first `n` files of the branch is at path `p` and is
/// one that comparing reports.
pub open spec fn changed_before(branch: Seq<(Seq<char>, Seq<char>)>, head: Map<Seq<char>, Seq<char>>,
    lca: Map<Seq<char>, Seq<char>>, n: nat, p: Seq<char>) -> bool {
    exists|i: int| 0 <= i < n && #[trigger] branch[i].0 == p && changed_here(branch[i], head, lca)
}

/// What comparing files reports, as a set of paths: where it succeeds, a
/// path is among the modified or the conflicting files exactly when a file
/// of the branch at that path is one that the head lacks, or that both the
/// head and the common ancestor hold in another version.
pub proof fn law_compare_files(branch: Seq<(Seq<char>, Seq<char>)>, head: Map<Seq<char>, Seq<char>>,
    lca: Map<Seq<char>, Seq<char>>, store: Map<Seq<char>, Seq<u8>>, n: nat)
    requires
        n <= branch.len(),
        compare_upto(branch, head, lca, store, n) is Some,
    ensures
        forall|p: Seq<char>| #[trigger] reported(branch, head, lca, store, n, p) <==> changed_before(branch, head, lca, n, p),
    decreases n,
{
    if n > 0 {
        let n0 = (n - 1) as nat;
        lemma_compare_step(branch, head, lca, store, n);
        law_compare_files(branch, head, lca, store, n0);
        let m0 = compared_modified(branch, head, lca, store, n0);
        let c0 = compared_conflicts(branch, head, lca, store, n0);
        let m = compared_modified(branch, head, lca, store, n);
        let c = compared_conflicts(branch, head, lca, store, n);
        let e = branch[n - 1];
        assert(paths_of(m) == paths_of(m0) || paths_of(m) == paths_of(m0).push(e.0)) by {
            if m != m0 { assert(paths_of(m) =~= paths_of(m0).push(e.0)); }
        }
        assert(paths_of(c) == paths_of(c0) || paths_of(c) == paths_of(c0).push(e.0)) by {
            if c != c0 { assert(paths_of(c) =~= paths_of(c0).push(e.0)); }
        }
        assert(changed_here(e, head, lca) <==> (paths_of(m) != paths_of(m0) || paths_of(c) != paths_of(c0))) by {
            if m != m0 { assert(paths_of(m).len() == paths_of(m0).len() + 1); }
            if c != c0 { assert(paths_of(c).len() == paths_of(c0).len() + 1); }
        }
        assert forall|p: Seq<char>| #[trigger] reported(branch, head, lca, store, n, p) <==> changed_before(branch, head, lca, n, p) by {
            assert(reported(branch, head, lca, store, n0, p) <==> changed_before(branch, head, lca, n0, p));
            if changed_before(branch, head, lca, n, p) {
                let i = choose|i: int| 0 <= i < n && #[trigger] branch[i].0 == p && changed_here(branch[i], head, lca);
                if i < n - 1 {
                    assert(changed_before(branch, head, lca, n0, p));
                    if paths_of(m0).contains(p) {
                        let k = choose|k: int| 0 <= k < paths_of(m0).len() && paths_of(m0)[k] == p;
                        assert(paths_of(m)[k] == p);
                    } else {
                        let k = choose|k: int| 0 <= k < paths_of(c0).len() && paths_of(c0)[k] == p;
                        assert(paths_of(c)[k] == p);
                    }
                } else if paths_of(m) != paths_of(m0) {
                    assert(paths_of(m)[paths_of(m).len() - 1] == p);
                } else {
                    assert(paths_of(c)[paths_of(c).len() - 1] == p);
                }
            }
            if reported(branch, head, lca, store, n, p) {
                if reported(branch, head, lca, store, n0, p) {
                    let i = choose|i: int| 0 <= i < n0 && #[trigger] branch[i].0 == p && changed_here(branch[i], head, lca);
                    assert(0 <= i < n && branch[i].0 == p && changed_here(branch[i], head, lca));
                } else {
                    if paths_of(m).contains(p) {
                        let k = choose|k: int| 0 <= k < paths_of(m).len() && paths_of(m)[k] == p;
                        if k < paths_of(m0).len() { assert(paths_of(m0)[k] == p); }
                    } else {
                        let k = choose|k: int| 0 <= k < paths_of(c).len() && paths_of(c)[k] == p;
                        if k < paths_of(c0).len() { assert(paths_of(c0)[k] == p); }
                    }
                    assert(branch[n - 1].0 == p && changed_here(branch[n - 1], head, lca));
                }
            }
        }
    }
}

/// A modified file that the head lacks holds the text of the branch's blob
/// at that path, and a conflicting file is one whose three-way merge marked
/// a conflict.
pub proof fn law_compare_contents(branch: Seq<(Seq<char>, Seq<char>)>, head: Map<Seq<char>, Seq<char>>,
    lca: Map<Seq<char>, Seq<char>>, store: Map<Seq<char>, Seq<u8>>, n: nat)
    requires
        n <= branch.len(),
        compare_upto(branch, head, lca, store, n) is Some,
    ensures
        forall|k: int| 0 <= k < compared_modified(branch, head, lca, store, n).len()
            && !head.contains_key(#[trigger] compared_modified(branch, head, lca, store, n)[k].0)
            ==> exists|i: int| 0 <= i < n && branch[i].0 == compared_modified(branch, head, lca, store, n)[k].0
                && #[trigger] blob_text(store, branch[i].1) == Some(compared_modified(branch, head, lca, store, n)[k].1),
        forall|k: int| 0 <= k < compared_conflicts(branch, head, lca, store, n).len()
            ==> exists|i: int| 0 <= i < n && branch[i].0 == #[trigger] compared_conflicts(branch, head, lca, store, n)[k].0
                && head.contains_key(branch[i].0)
                && merged_outcome(store, head[branch[i].0], branch[i].1, lca[branch[i].0])
                    == Some(FileOutcome::Conflict(compared_conflicts(branch, head, lca, store, n)[k].1)),
    decreases n,
{
    if n > 0 {
        lemma_compare_step(branch, head, lca, store, n);
        law_compare_contents(branch, head, lca, store, (n - 1) as nat);
        let m0 = compared_modified(branch, head, lca, store, (n - 1) as nat);
        let c0 = compared_conflicts(branch, head, lca, store, (n - 1) as nat);
        let m = compared_modified(branch, head, lca, store, n);
        let c = compared_conflicts(branch, head, lca, store, n);
        assert forall|k: int| 0 <= k < m.len() && !head.contains_key(#[trigger] m[k].0)
            implies exists|i: int| 0 <= i < n && branch[i].0 == m[k].0 && #[trigger] blob_text(store, branch[i].1) == Some(m[k].1) by {
            if k < m0.len() {
                assert(m[k] == m0[k]);
                let i = choose|i: int| 0 <= i < n - 1 && branch[i].0 == m0[k].0 && #[trigger] blob_text(store, branch[i].1) == Some(m0[k].1);
                assert(0 <= i < n);
            } else {
                assert(blob_text(store, branch[n - 1].1) == Some(m[k].1));
            }
        }
        assert forall|k: int| 0 <= k < c.len()
            implies exists|i: int| 0 <= i < n && branch[i].0 == #[trigger] c[k].0 && head.contains_key(branch[i].0)
                && merged_outcome(store, head[branch[i].0], branch[i].1, lca[branch[i].0]) == Some(FileOutcome::Conflict(c[k].1)) by {
            if k < c0.len() {
                assert(c[k] == c0[k]);
                let i = choose|i: int| 0 <= i < n - 1 && branch[i].0 == #[trigger] c0[k].0 && head.contains_key(branch[i].0)
                    && merged_outcome(store, head[branch[i].0], branch[i].1, lca[branch[i].0]) == Some(FileOutcome::Conflict(c0[k].1));
                assert(0 <= i < n);
            } else {
                assert(branch[n - 1].0 == c[k].0);
            }
        }
    }
}

/// Where no path repeats among the files of the branch, no path is both
/// modified and conflicting.
pub proof fn law_compare_disjoint(branch: Seq<(Seq<char>, Seq<char>)>, head: Map<Seq<char>, Seq<char>>,
    lca: Map<Seq<char>, Seq<char>>, store: Map<Seq<char>, Seq<u8>>, n: nat)
    requires
        n <= branch.len(),
        compare_upto(branch, head, lca, store, n) is Some,
        forall|i: int, j: int| 0 <= i < j < n ==> branch[i].0 != branch[j].0,
    ensures
        forall|p: Seq<char>| !(#[trigger] paths_of(compared_modified(branch, head, lca, store, n)).contains(p)
            && paths_of(compared_conflicts(branch, head, lca, store, n)).contains(p)),
    decreases n,
{
    if n > 0 {
        let n0 = (n - 1) as nat;
        lemma_compare_step(branch, head, lca, store, n);
        law_compare_disjoint(branch, head, lca, store, n0);
        law_compare_files(branch, head, lca, store, n0);
        let m0 = compared_modified(branch, head, lca, store, n0);
        let c0 = compared_conflicts(branch, head, lca, store, n0);
        let m = compared_modified(branch, head, lca, store, n);
        let c = compared_conflicts(branch, head, lca, store, n);
        let e = branch[n - 1];
        assert(!reported(branch, head, lca, store, n0, e.0)) by {
            if reported(branch, head, lca, store, n0, e.0) {
                assert(changed_before(branch, head, lca, n0, e.0));
                let i = choose|i: int| 0 <= i < n0 && #[trigger] branch[i].0 == e.0 && changed_here(branch[i], head, lca);
                assert(branch[i].0 != branch[n - 1].0);
            }
        }
        assert forall|p: Seq<char>| !(#[trigger] paths_of(m).contains(p) && paths_of(c).contains(p)) by {
            assert(!(paths_of(m0).contains(p) && paths_of(c0).contains(p)));
            if paths_of(m).contains(p) && paths_of(c).contains(p) {
                let km = choose|k: int| 0 <= k < paths_of(m).len() && paths_of(m)[k] == p;
                let kc = choose|k: int| 0 <= k < paths_of(c).len() && paths_of(c)[k] == p;
                if km < m0.len() { assert(paths_of(m0)[km] == p); }
                if kc < c0.len() { assert(paths_of(c0)[kc] == p); }
                if km >= m0.len() && kc < c0.len() { assert(reported(branch, head, lca, store, n0, e.0)); }
                if kc >= c0.len() && km < m0.len() { assert(reported(branch, head, lca, store, n0, e.0)); }
            }
        }
    }
}

/// A key whose last occurrence is at `k` maps to the value there.
pub proof fn lemma_assoc_last<V>(s: Seq<(Seq<char>, V)>, key: Seq<char>, k: int)
    requires
        0 <= k < s.len(),
        s[k].0 == key,
        forall|i: int| k < i < s.len() ==> s[i].0 != key,
    ensures
        assoc_map(s).contains_key(key),
        assoc_map(s)[key] == s[k].1,
    decreases s.len(),
{
    if k < s.len() - 1 {
        let t = s.drop_last();
        assert forall|i: int| k < i < t.len() implies t[i].0 != key by {
            assert(t[i] == s[i]);
        }
        lemma_assoc_last(t, key, k);
        assert(s.last().0 == s[s.len() - 1].0);
    }
}

/// Position of the last pair whose path is `key`, if there is one.
fn find_last_path(v: &Vec<(String, GitHash)>, key: &str) -> (r: Option<usize>)
    ensures
        match r {
            Some(k) => k < v@.len() && v@[k as int].0@ == key@
                && forall|i: int| k < i < v@.len() ==> v@[i].0@ != key@,
            None => forall|i: int| 0 <= i < v@.len() ==> v@[i].0@ != key@,
        },
{
    let mut k: usize = v.len();
    while k > 0
        invariant
            k <= v@.len(),
            forall|i: int| k <= i < v@.len() ==> v@[i].0@ != key@,
        decreases k,
    {
        k = k - 1;
        if crate::text::text_eq(v[k].0.as_str(), key) {
            return Some(k);
        }
    }
    None
}

/// The hash mapped to a path by a list of paths and hashes, the last pair
/// for a path counting.
fn lookup_path(v: &Vec<(String, GitHash)>, key: &str) -> (r: Option<GitHash>)
    ensures
        match r {
            Some(h) => assoc_map(hash_pairs(v@)).contains_key(key@) && h@ == assoc_map(hash_pairs(v@))[key@],
            None => !assoc_map(hash_pairs(v@)).contains_key(key@),
        },
{
    let ghost s = hash_pairs(v@);
    match find_last_path(v, key) {
        Some(k) => {
            proof {
                assert forall|i: int| k < i < s.len() implies s[i].0 != key@ by {
                    assert(s[i].0 == v@[i].0@);
                }
                lemma_assoc_last(s, key@, k as int);
            }
            Some(v[k].1.clone())
        },
        None => {
            proof {
                assert forall|i: int| 0 <= i < s.len() implies s[i].0 != key@ by {
                    assert(s[i].0 == v@[i].0@);
                }
                crate::assoc::lemma_assoc_absent(s, key@);
            }
            None
        },
    }
}

impl Merge {
    /// The three-way merge of three texts: the merged text and whether a
    /// conflict was marked.
    pub fn merge_texts(lca_content: &str, head_content: &str, branch_content: &str) -> (r: Option<(String, bool)>)
        requires
            lca_content@.len() < usize::MAX,
            head_content@.len() < usize::MAX,
            branch_content@.len() < usize::MAX,
        ensures
            three_way_spec(lca_content@, head_content@, branch_content@) matches Some((ls, c))
                && r matches Some((t, b)) && t@ == join_lines(ls) && b == c,
    {
        proof { lemma_three_way_defined(lca_content@, head_content@, branch_content@); }
        let mut buffer = String::new();
        match Self::three_way_merge(lca_content, head_content, branch_content, &mut buffer) {
            Ok(c) => Some((buffer, c)),
            Err(_) => None,
        }
    }

    /// Reads the three blobs of a file changed on both sides and merges them.
    fn merge_file(head_hash: &GitHash, branch_hash: &GitHash, lca_hash: &GitHash, store: &ObjectStore) -> (r: Result<(String, bool), ErrorType>)
        ensures
            match merged_outcome(store@, head_hash@, branch_hash@, lca_hash@) {
                Some(FileOutcome::Modified(t)) => r matches Ok((s, c)) && s@ == t && !c,
                Some(FileOutcome::Conflict(t)) => r matches Ok((s, c)) && s@ == t && c,
                _ => r is Err,
            },
    {
        let head_content = match GitObject::read_blob(head_hash, store) {
            Ok(b) => b.get_content(),
            Err(e) => return Err(e),
        };
        let branch_content = match GitObject::read_blob(branch_hash, store) {
            Ok(b) => b.get_content(),
            Err(e) => return Err(e),
        };
        let lca_content = match GitObject::read_blob(lca_hash, store) {
            Ok(b) => b.get_content(),
            Err(e) => return Err(e),
        };
        if lca_content.as_str().unicode_len() == usize::MAX || head_content.as_str().unicode_len() == usize::MAX
            || branch_content.as_str().unicode_len() == usize::MAX {
            return Err(ErrorType::RepositoryError(String::from_str("file too large to merge")));
        }
        match Self::merge_texts(lca_content.as_str(), head_content.as_str(), branch_content.as_str()) {
            Some(m) => Ok(m),
            None => Err(ErrorType::RepositoryError(String::from_str("the changes of both branches cannot be merged line by line"))),
        }
    }

    /// Compares the files of the branch with those of the head and of their
    /// common ancestor. A file only the branch has is taken from the branch; a
    /// file both changed is merged, and goes to the conflicting files where
    /// the merge found a conflict; a file changed by the head only, or alike
    /// on both sides, is left out. Gives the modified and the conflicting
    /// files, in the branch's order.
    pub fn compare_files(
        head_files: Vec<(String, GitHash)>,
        branch_files: Vec<(String, GitHash)>,
        lca_files: Vec<(String, GitHash)>,
        store: &ObjectStore,
    ) -> (r: Result<(Vec<(String, Blob)>, Vec<(String, Blob)>), ErrorType>)
        ensures
            match compare_upto(hash_pairs(branch_files@), assoc_map(hash_pairs(head_files@)),
                assoc_map(hash_pairs(lca_files@)), store@, branch_files@.len()) {
                Some((m, c)) => r matches Ok((rm, rc)) && blob_pairs(rm@) == m && blob_pairs(rc@) == c,
                None => r is Err,
            },
    {
        let ghost bp = hash_pairs(branch_files@);
        let ghost hm = assoc_map(hash_pairs(head_files@));
        let ghost lm = assoc_map(hash_pairs(lca_files@));
        let mut modified: Vec<(String, Blob)> = Vec::new();
        let mut conflicts: Vec<(String, Blob)> = Vec::new();
        let mut k: usize = 0;
        while k < branch_files.len()
            invariant
                k <= branch_files@.len(),
                bp == hash_pairs(branch_files@),
                hm == assoc_map(hash_pairs(head_files@)),
                lm == assoc_map(hash_pairs(lca_files@)),
                compare_upto(bp, hm, lm, store@, k as nat) == Some((blob_pairs(modified@), blob_pairs(conflicts@))),
            decreases branch_files.len() - k,
        {
            let path = &branch_files[k].0;
            let branch_hash = &branch_files[k].1;
            assert(bp[k as int] == (path@, branch_hash@));
            let ghost before = (blob_pairs(modified@), blob_pairs(conflicts@));
            match lookup_path(&head_files, path.as_str()) {
                Some(head_hash) => {
                    if head_hash.same_as(branch_hash) {
                    } else {
                        match lookup_path(&lca_files, path.as_str()) {
                            None => {
                                proof {
                                    assert(compare_upto(bp, hm, lm, store@, (k + 1) as nat) is None);
                                    lemma_compare_none_stays(bp, hm, lm, store@, (k + 1) as nat, branch_files@.len());
                                }
                                return Err(ErrorType::RepositoryError(String::from_str("No common ancestor between branches commits")));
                            },
                            Some(lca_hash) => {
                                if lca_hash.same_as(branch_hash) {
                                } else {
                                    match Self::merge_file(&head_hash, branch_hash, &lca_hash, store) {
                                        Ok((text, conflict)) => {
                                            if conflict {
                                                conflicts.push((path.clone(), Blob::new(text)));
                                                assert(blob_pairs(conflicts@) =~= before.1.push((path@, conflicts@.last().1@)));
                                            } else {
                                                modified.push((path.clone(), Blob::new(text)));
                                                assert(blob_pairs(modified@) =~= before.0.push((path@, modified@.last().1@)));
                                            }
                                        },
                                        Err(e) => {
                                            proof {
                                                lemma_compare_none_stays(bp, hm, lm, store@, (k + 1) as nat, branch_files@.len());
                                            }
                                            return Err(e);
                                        },
                                    }
                                }
                            },
                        }
                    }
                },
                None => {
                    match GitObject::read_blob(branch_hash, store) {
                        Ok(blob) => {
                            modified.push((path.clone(), blob));
                            assert(blob_pairs(modified@) =~= before.0.push((path@, modified@.last().1@)));
                        },
                        Err(e) => {
                            proof {
                                lemma_compare_none_stays(bp, hm, lm, store@, (k + 1) as nat, branch_files@.len());
                            }
                            return Err(e);
                        },
                    }
                },
            }
            k = k + 1;
        }
        Ok((modified, conflicts))
    }
}

/// Once comparing fails it stays failed for longer prefixes.
proof fn lemma_compare_none_stays(
    branch: Seq<(Seq<char>, Seq<char>)>,
    head: Map<Seq<char>, Seq<char>>,
    lca: Map<Seq<char>, Seq<char>>,
    store: Map<Seq<char>, Seq<u8>>,
    n: nat,
    m: nat,
)
    requires
        compare_upto(branch, head, lca, store, n) is None,
        n <= m,
    ensures
        compare_upto(branch, head, lca, store, m) is None,
    decreases m - n,
{
    if n < m {
        lemma_compare_none_stays(branch, head, lca, store, n + 1, m);
    }
}


/// The files of a commit's tree with their paths and hashes.
pub open spec fn commit_files(c: Commit) -> Seq<(Seq<char>, Seq<char>)> {
    entries_files(c.tree_view().entries_view(), Seq::empty())
}

/// Whether the store holds a commit object under `hash`.
pub open spec fn holds_commit(store: Map<Seq<char>, Seq<u8>>, hash: Seq<char>) -> bool {
    match object_parts(store, hash) {
        Some((t, _, _)) => t == ObjectType::Commit,
        None => false,
    }
}

/// What comparing the files of three commits gives.
pub open spec fn compare_commits(head: Commit, branch: Commit, lca: Commit, store: Map<Seq<char>, Seq<u8>>)
    -> Option<(Seq<(Seq<char>, Seq<char>)>, Seq<(Seq<char>, Seq<char>)>)>
{
    compare_upto(commit_files(branch), assoc_map(commit_files(head)), assoc_map(commit_files(lca)), store,
        commit_files(branch).len())
}

/// Whether `c` is a merge commit of the head and branch tips stored under
/// `hash`: its parents are the two tips and the store holds its text.
pub open spec fn merge_commit_of(c: Commit, hash: Seq<char>, head: Seq<char>, branch: Seq<char>, store: Map<Seq<char>, Seq<u8>>) -> bool {
    &&& c.hash_view() == hash
    &&& c.parent_view() == Some(head)
    &&& c.second_parent_view() == Some(branch)
    &&& c.content_view() matches Some(t) && object_parts(store, hash) == Some((ObjectType::Commit, encode_utf8(t).len(), encode_utf8(t)))
}

/// What comparing the files of the commits stored under three hashes gives.
pub open spec fn stored_compare(store: Map<Seq<char>, Seq<u8>>, head: Seq<char>, branch: Seq<char>, lca: Seq<char>)
    -> Option<(Seq<(Seq<char>, Seq<char>)>, Seq<(Seq<char>, Seq<char>)>)>
{
    compare_upto(stored_commit_files(store, branch), assoc_map(stored_commit_files(store, head)),
        assoc_map(stored_commit_files(store, lca)), store, stored_commit_files(store, branch).len())
}

/// Comparing commits whose files are those stored under their hashes is
/// comparing the stored commits.
pub proof fn lemma_compare_stored(head: Commit, branch: Commit, lca: Commit, store: Map<Seq<char>, Seq<u8>>)
    requires
        files_stored(store, head),
        files_stored(store, branch),
        files_stored(store, lca),
    ensures
        compare_commits(head, branch, lca, store) == stored_compare(store, head.hash_view(), branch.hash_view(), lca.hash_view()),
{
}

impl Merge {
    /// Merges the branch's commit into the head's, given their last common
    /// ancestor, which the head's commit is not. The merged files are saved
    /// as blobs. Where no file conflicts, a merge commit with both tips as
    /// parents is made and saved and the head branch moves to it; its message
    /// is the one given or names both branches, its author the user given or
    /// the one of the configuration. Gives the modified and the conflicting
    /// files.
    pub fn merge_into(
        head_branch: &mut Branch,
        branch: &Branch,
        head_commit: &Commit,
        branch_commit: &Commit,
        last_common_ancestor: &Commit,
        store: &mut ObjectStore,
        message: Option<String>,
        user: Option<User>,
        config: &RepoConfig,
    ) -> (r: Result<(Vec<(String, Blob)>, Vec<(String, Blob)>), ErrorType>)
        ensures
            final(head_branch).name_view() == old(head_branch).name_view(),
            final(head_branch).dir_view() == old(head_branch).dir_view(),
            match compare_commits(*head_commit, *branch_commit, *last_common_ancestor, old(store)@) {
                None => r is Err,
                Some((m, c)) => r matches Ok((rm, rc)) ==> blob_pairs(rm@) == m && blob_pairs(rc@) == c,
            },
            compare_commits(*head_commit, *branch_commit, *last_common_ancestor, old(store)@) matches Some((m, c))
                && c.len() > 0 ==> r is Ok,
            compare_commits(*head_commit, *branch_commit, *last_common_ancestor, old(store)@) matches Some((m, c))
                && c.len() == 0 ==> (r is Ok || (user is None && r matches Err(ErrorType::ConfigError(_)))
                    || r matches Err(ErrorType::Parse(_))),
            compare_commits(*head_commit, *branch_commit, *last_common_ancestor, old(store)@) matches Some((m, c))
                && c.len() == 0 && head_commit.content_view() is Some
                ==> (r is Ok || (user is None && r matches Err(ErrorType::ConfigError(_)))),
            r matches Ok((rm, rc)) ==> (rc@.len() > 0 ==> final(head_branch).hash_view() == old(head_branch).hash_view()),
            r matches Ok((rm, rc)) ==> (rc@.len() == 0 ==> holds_commit(final(store)@, final(head_branch).hash_view())),
            r matches Ok((rm, rc)) ==> (rc@.len() == 0 ==> exists|c: Commit| #[trigger] merge_commit_of(c, final(head_branch).hash_view(),
                head_commit.hash_view(), branch_commit.hash_view(), final(store)@)),
            r is Err ==> final(head_branch).hash_view() == old(head_branch).hash_view(),
            user is None && config.name_view() is None ==> (r matches Ok((rm, rc)) ==> rc@.len() > 0),
    {
        let head_files = head_commit.get_files_vec();
        let branch_files = branch_commit.get_files_vec();
        let lca_files = last_common_ancestor.get_files_vec();
        let (modified_files, conflict_files) = match Self::compare_files(head_files, branch_files, lca_files, store) {
            Ok(f) => f,
            Err(e) => return Err(e),
        };
        let mut tree = head_commit.get_tree().clone_tree();
        let ghost content_ok = head_commit.content_view() is Some;
        let mut k: usize = 0;
        while k < modified_files.len()
            invariant
                k <= modified_files@.len(),
                content_ok ==> entries_content(tree.entries_view()) is Some,
            decreases modified_files.len() - k,
        {
            let ghost bh = modified_files@[k as int].1@;
            proof { crate::hash::lemma_hex_converts(sha1_digest(with_header(vstd::utf8::encode_utf8(bh), ObjectType::Blob)), 20); }
            let content = crate::text::text_bytes(modified_files[k].1.get_content().as_str());
            match GitObject::save_blob(content, store) {
                Ok(_) => {},
                Err(e) => return Err(e),
            }
            tree.add(modified_files[k].0.as_str(), modified_files[k].1.get_hash());
            k = k + 1;
        }
        if conflict_files.len() > 0 {
            return Ok((modified_files, conflict_files));
        }
        let message = match message {
            Some(m) => m,
            None => {
                let mut m = String::from_str("Merge branch <");
                push_text(&mut m, branch.get_name().as_str());
                push_text(&mut m, "> into <");
                push_text(&mut m, head_branch.get_name().as_str());
                push_text(&mut m, ">");
                m
            },
        };
        let user = match user {
            Some(u) => u,
            None => match config.get_user() {
                Some(u) => u,
                None => return Err(ErrorType::ConfigError(String::from_str(
                    "User name and mail should be set before commiting (use 'git-rustico config --user-name <name> --user-mail <mail>')"))),
            },
        };
        let commit = match Commit::new(tree, Some(head_commit.get_hash()), Some(branch_commit.get_hash()), message.as_str(), user) {
            Ok(c) => c,
            Err(e) => return Err(e),
        };
        match commit.save(store) {
            Ok(()) => {},
            Err(e) => return Err(e),
        }
        head_branch.set_last_commit_hash(commit.get_hash());
        assert(merge_commit_of(commit, head_branch.hash_view(), head_commit.hash_view(), branch_commit.hash_view(), store@));
        Ok((modified_files, conflict_files))
    }

    /// Merges `branch` into the head branch. Where the head's commit is the
    /// last common ancestor of both tips the head branch just moves to the
    /// branch's commit; otherwise the files are merged as `merge_into` does.
    /// An error where the tips share no commit. The head branch's file is to
    /// be written afterwards with `save`.
    pub fn merge(
        head_branch: &mut Branch,
        branch: Branch,
        store: &mut ObjectStore,
        message: Option<String>,
        user: Option<User>,
        config: &RepoConfig,
    ) -> (r: Result<(Vec<(String, Blob)>, Vec<(String, Blob)>), ErrorType>)
        ensures
            final(head_branch).name_view() == old(head_branch).name_view(),
            final(head_branch).dir_view() == old(head_branch).dir_view(),
            r is Err ==> final(head_branch).hash_view() == old(head_branch).hash_view(),
            r matches Ok((rm, rc)) ==> (rc@.len() > 0 ==> final(head_branch).hash_view() == old(head_branch).hash_view()),
            r matches Ok((rm, rc)) ==> (rc@.len() == 0 ==> final(head_branch).hash_view() == branch.hash_view()
                || holds_commit(final(store)@, final(head_branch).hash_view())),
            !(commit_ok(old(store)@, old(head_branch).hash_view()) && commit_ok(old(store)@, branch.hash_view())) ==> r is Err,
            commit_ok(old(store)@, old(head_branch).hash_view()) && commit_ok(old(store)@, branch.hash_view()) ==>
                match stored_common_ancestor(old(store)@, branch.hash_view(), old(head_branch).hash_view()) {
                    None => r is Err,
                    Some(None) => r is Err,
                    Some(Some(a)) => a == old(head_branch).hash_view() ==> (r matches Ok((rm, rc))
                        && rm@.len() == 0 && rc@.len() == 0
                        && final(head_branch).hash_view() == branch.hash_view() && final(store)@ == old(store)@),
                },
            ({
                &&& commit_ok(old(store)@, old(head_branch).hash_view()) && commit_ok(old(store)@, branch.hash_view())
                &&& stored_common_ancestor(old(store)@, branch.hash_view(), old(head_branch).hash_view()) matches Some(Some(a))
                &&& a != old(head_branch).hash_view()
            }) ==> match stored_compare(old(store)@, old(head_branch).hash_view(), branch.hash_view(),
                stored_common_ancestor(old(store)@, branch.hash_view(), old(head_branch).hash_view())->0->0) {
                None => r is Err,
                Some((m, c)) => if c.len() > 0 {
                    r matches Ok((rm, rc)) && blob_pairs(rm@) == m && blob_pairs(rc@) == c
                        && final(head_branch).hash_view() == old(head_branch).hash_view()
                } else {
                    &&& (r matches Ok((rm, rc)) ==> blob_pairs(rm@) == m && rc@.len() == 0
                        && holds_commit(final(store)@, final(head_branch).hash_view())
                        && exists|mc: Commit| #[trigger] merge_commit_of(mc, final(head_branch).hash_view(),
                            old(head_branch).hash_view(), branch.hash_view(), final(store)@))
                    &&& (r is Ok || (user is None && r matches Err(ErrorType::ConfigError(_))))
                },
            },
    {
        let head_commit = match head_branch.get_last_commit(store) {
            Ok(c) => c,
            Err(e) => return Err(e),
        };
        let branch_commit = match branch.get_last_commit(store) {
            Ok(c) => c,
            Err(e) => return Err(e),
        };
        let ancestor = match branch_commit.last_common_ancestor(&head_commit, store) {
            Ok(Some(c)) => c,
            Ok(None) => return Err(ErrorType::RepositoryError(String::from_str("No common commit ancestor between both branch tips"))),
            Err(e) => return Err(e),
        };
        if ancestor.get_hash().same_as(&head_commit.get_hash()) {
            head_branch.set_last_commit_hash(branch_commit.get_hash());
            Ok((Vec::new(), Vec::new()))
        } else {
            proof { lemma_compare_stored(head_commit, branch_commit, ancestor, store@); }
            Self::merge_into(head_branch, &branch, &head_commit, &branch_commit, &ancestor, store, message, user, config)
        }
    }
}

} // verus!
