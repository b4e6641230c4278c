use vstd::prelude::*;
use crate::text::{lines, lines_of, views, text_eq};

verus! {

/// The files that `.gitignore`-style listing names: one path per line.
pub struct Ignore;

impl Ignore {
    /// The ignored paths of the ignore file's text (`None` where there is no
    /// such file): one per line.
    pub fn get_ignored_files(ignore_text: Option<&str>) -> (r: Vec<String>)
        ensures
            match ignore_text {
                Some(t) => views(r@) == lines(t@),
                None => r@.len() == 0,
            },
    {
        match ignore_text {
            Some(t) => lines_of(t),
            None => Vec::new(),
        }
    }

    /// Whether a path is among the ignored ones.
    pub fn is_ignored(ignored: &Vec<String>, path: &str) -> (r: bool)
        ensures
            r == views(ignored@).contains(path@),
    {
        let mut k: usize = 0;
        while k < ignored.len()
            invariant
                k <= ignored@.len(),
                forall|i: int| 0 <= i < k ==> ignored@[i]@ != path@,
            decreases ignored.len() - k,
        {
            if text_eq(ignored[k].as_str(), path) {
                assert(views(ignored@)[k as int] == path@);
                return true;
            }
            k = k + 1;
        }
        proof {
            if views(ignored@).contains(path@) {
                let i = choose|i: int| 0 <= i < views(ignored@).len() && views(ignored@)[i] == path@;
                assert(ignored@[i]@ == path@);
            }
        }
        false
    }

    /// The paths given that are ignored, in the order given (what
    /// `check-ignore` prints, one per line).
    pub fn check_ignore_command(args: &Vec<String>, ignored: &Vec<String>) -> (r: Vec<String>)
        ensures
            views(r@) == views(args@).filter(|p: Seq<char>| views(ignored@).contains(p)),
    {
        let ghost f = |p: Seq<char>| views(ignored@).contains(p);
        let ghost all = views(args@);
        let mut out: Vec<String> = Vec::new();
        let mut k: usize = 0;
        while k < args.len()
            invariant
                k <= args@.len(),
                all == views(args@),
                f == (|p: Seq<char>| views(ignored@).contains(p)),
                views(out@) == all.subrange(0, k as int).filter(f),
            decreases args.len() - k,
        {
            let ghost before = views(out@);
            let ghost cur = all.subrange(0, k + 1);
            proof {
                reveal(Seq::filter);
                assert(cur.drop_last() =~= all.subrange(0, k as int));
                assert(cur.last() == args@[k as int]@);
            }
            if Self::is_ignored(ignored, args[k].as_str()) {
                out.push(args[k].clone());
                assert(views(out@) =~= before.push(args@[k as int]@));
            }
            k = k + 1;
        }
        assert(all.subrange(0, k as int) =~= all);
        out
    }
}

} // verus!
