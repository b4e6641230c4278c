use vstd::prelude::*;
use crate::text::{views, text_eq, split_char, split_on, join_strings, join_with};

verus! {

/// What `ls-files` lists: the tracked files, or with `--others` the files
/// of the working directory that are not tracked.
pub struct LsFile {
    pub others: bool,
}

/// The texts of `base` that are not among those of `repeat`, in order.
pub open spec fn without(base: Seq<Seq<char>>, repeat: Seq<Seq<char>>) -> Seq<Seq<char>> {
    base.filter(|x: Seq<char>| !repeat.contains(x))
}

/// The tracked files after the first `n` lines of the tree's listing: those
/// staged, then the listed ones neither staged nor changed.
pub open spec fn tracked_upto(listing: Seq<Seq<char>>, not_staged: Seq<Seq<char>>, staged: Seq<Seq<char>>, n: nat) -> Seq<Seq<char>>
    decreases n,
{
    if n == 0 {
        staged
    } else {
        let rest = tracked_upto(listing, not_staged, staged, (n - 1) as nat);
        let f = listing[n - 1];
        if not_staged.contains(f) || staged.contains(f) { rest } else { rest.push(f) }
    }
}

/// The tracked files followed by the first `n` changed files not yet among
/// them.
pub open spec fn add_new_upto(acc: Seq<Seq<char>>, extra: Seq<Seq<char>>, n: nat) -> Seq<Seq<char>>
    decreases n,
{
    if n == 0 {
        acc
    } else {
        let rest = add_new_upto(acc, extra, (n - 1) as nat);
        if rest.contains(extra[n - 1]) { rest } else { rest.push(extra[n - 1]) }
    }
}

/// Whether a text is among a list of strings.
fn contains_text_in(v: &Vec<String>, x: &str) -> (r: bool)
    ensures
        r == views(v@).contains(x@),
{
    let mut k: usize = 0;
    while k < v.len()
        invariant
            k <= v@.len(),
            forall|i: int| 0 <= i < k ==> v@[i]@ != x@,
        decreases v.len() - k,
    {
        if text_eq(v[k].as_str(), x) {
            assert(views(v@)[k as int] == x@);
            return true;
        }
        k = k + 1;
    }
    proof {
        if views(v@).contains(x@) {
            let i = choose|i: int| 0 <= i < views(v@).len() && views(v@)[i] == x@;
            assert(v@[i]@ == x@);
        }
    }
    false
}

impl LsFile {
    /// Reads the arguments: `--others` lists the untracked files.
    pub fn process_arguments(args: &Vec<String>) -> (r: Self)
        ensures
            r.others == views(args@).contains("--others"@),
    {
        LsFile { others: contains_text_in(args, "--others") }
    }

    /// The texts of `vec_base` not among those of `vec_repeat`, in order.
    pub fn filter_no_repeat(vec_base: Vec<String>, vec_repeat: &Vec<String>) -> (r: Vec<String>)
        ensures
            views(r@) == without(views(vec_base@), views(vec_repeat@)),
    {
        let ghost f = |x: Seq<char>| !views(vec_repeat@).contains(x);
        let ghost all = views(vec_base@);
        let mut out: Vec<String> = Vec::new();
        let mut k: usize = 0;
        while k < vec_base.len()
            invariant
                k <= vec_base@.len(),
                all == views(vec_base@),
                f == (|x: Seq<char>| !views(vec_repeat@).contains(x)),
                views(out@) == all.subrange(0, k as int).filter(f),
            decreases vec_base.len() - k,
        {
            let ghost before = views(out@);
            let ghost cur = all.subrange(0, k + 1);
            proof {
                reveal(Seq::filter);
                assert(cur.drop_last() =~= all.subrange(0, k as int));
                assert(cur.last() == vec_base@[k as int]@);
            }
            if !contains_text_in(vec_repeat, vec_base[k].as_str()) {
                out.push(vec_base[k].clone());
                assert(views(out@) =~= before.push(vec_base@[k as int]@));
            }
            k = k + 1;
        }
        assert(all.subrange(0, k as int) =~= all);
        out
    }

    /// The tracked files: those staged, then the files of the head's tree
    /// (one per line of its listing) neither staged nor changed, then the
    /// changed ones not yet listed; a line each.
    pub fn get_trackers(&self, not_staged: &Vec<String>, staged: &Vec<String>, show_file: &str) -> (r: String)
        ensures
            r@ == join_with(add_new_upto(tracked_upto(split_on(show_file@, '\n'), views(not_staged@), views(staged@),
                split_on(show_file@, '\n').len()), views(not_staged@), not_staged@.len()), "\n"@),
    {
        let listing = split_char(show_file, '\n');
        let ghost ls = views(listing@);
        let mut result: Vec<String> = Vec::new();
        let mut i: usize = 0;
        while i < staged.len()
            invariant
                i <= staged@.len(),
                views(result@) == views(staged@).subrange(0, i as int),
            decreases staged.len() - i,
        {
            let ghost before = views(result@);
            result.push(staged[i].clone());
            assert(views(result@) =~= before.push(staged@[i as int]@));
            assert(views(result@) =~= views(staged@).subrange(0, i + 1));
            i = i + 1;
        }
        assert(views(staged@).subrange(0, i as int) =~= views(staged@));
        let mut k: usize = 0;
        while k < listing.len()
            invariant
                k <= listing@.len(),
                ls == views(listing@),
                ls == split_on(show_file@, '\n'),
                views(result@) == tracked_upto(ls, views(not_staged@), views(staged@), k as nat),
            decreases listing.len() - k,
        {
            assert(ls[k as int] == listing@[k as int]@);
            let file = listing[k].as_str();
            if !(contains_text_in(not_staged, file) || contains_text_in(staged, file)) {
                let ghost before = views(result@);
                result.push(listing[k].clone());
                assert(views(result@) =~= before.push(ls[k as int]));
            }
            k = k + 1;
        }
        let ghost acc = views(result@);
        let mut j: usize = 0;
        while j < not_staged.len()
            invariant
                j <= not_staged@.len(),
                views(result@) == add_new_upto(acc, views(not_staged@), j as nat),
            decreases not_staged.len() - j,
        {
            assert(views(not_staged@)[j as int] == not_staged@[j as int]@);
            if !contains_text_in(&result, not_staged[j].as_str()) {
                let ghost before = views(result@);
                result.push(not_staged[j].clone());
                assert(views(result@) =~= before.push(not_staged@[j as int]@));
            }
            j = j + 1;
        }
        join_strings(&result, "\n")
    }

    /// The untracked files: the files of the working directory that are
    /// neither changed nor staged nor in the head's tree (one per line of its
    /// listing); a line each.
    pub fn get_untrackers(&self, dir_files: Vec<String>, not_staged: &Vec<String>, staged: &Vec<String>, show_file: &str) -> (r: String)
        ensures
            r@ == join_with(without(without(without(views(dir_files@), views(not_staged@)), views(staged@)),
                split_on(show_file@, '\n')), "\n"@),
    {
        let filter_not_staged = Self::filter_no_repeat(dir_files, not_staged);
        let filter_staged = Self::filter_no_repeat(filter_not_staged, staged);
        let files = split_char(show_file, '\n');
        let filter_files = Self::filter_no_repeat(filter_staged, &files);
        join_strings(&filter_files, "\n")
    }

    /// What `ls-files` prints, given the changed and the staged files, the
    /// listing of the paths of the head's tree and the files of the working
    /// directory.
    pub fn show_file(args: &Vec<String>, not_staged: &Vec<String>, staged: &Vec<String>, tree_listing: &str,
        dir_files: Vec<String>) -> (r: String)
        ensures
            views(args@).contains("--others"@) ==> r@ == join_with(without(without(without(views(dir_files@),
                views(not_staged@)), views(staged@)), split_on(tree_listing@, '\n')), "\n"@),
            !views(args@).contains("--others"@) ==> r@ == join_with(add_new_upto(tracked_upto(split_on(tree_listing@, '\n'),
                views(not_staged@), views(staged@), split_on(tree_listing@, '\n').len()), views(not_staged@),
                not_staged@.len()), "\n"@),
    {
        let file = Self::process_arguments(args);
        if file.others {
            file.get_untrackers(dir_files, not_staged, staged, tree_listing)
        } else {
            file.get_trackers(not_staged, staged, tree_listing)
        }
    }
}

} // verus!
