use vstd::prelude::*;
use crate::text::{lines, lines_of, views};

verus! {

/// Line-based differences between two texts.
pub struct Diff;

/// What happened to one line between an original text and a modified one.
#[derive(PartialEq, Debug)]
pub enum ModificationType {
    Same(String),
    Add(String),
    Remove(String),
}

/// A line kept, added or removed, as plain text.
pub enum Edit {
    Same(Seq<char>),
    Add(Seq<char>),
    Remove(Seq<char>),
}

impl View for ModificationType {
    type V = Edit;

    open spec fn view(&self) -> Edit {
        match self {
            ModificationType::Same(s) => Edit::Same(s@),
            ModificationType::Add(s) => Edit::Add(s@),
            ModificationType::Remove(s) => Edit::Remove(s@),
        }
    }
}

/// The edits of a vector of modifications.
pub open spec fn edits(v: Seq<ModificationType>) -> Seq<Edit> {
    v.map_values(|m: ModificationType| m@)
}

/// The texts of a slice of string slices.
pub open spec fn str_views(v: Seq<&str>) -> Seq<Seq<char>> {
    v.map_values(|x: &str| x@)
}

/// Length of a longest common subsequence of `a[..i]` and `b[..j]`.
pub open spec fn lcs_len(a: Seq<Seq<char>>, b: Seq<Seq<char>>, i: nat, j: nat) -> nat
    decreases i + j,
{
    if i == 0 || j == 0 {
        0
    } else if a[i - 1] == b[j - 1] {
        lcs_len(a, b, (i - 1) as nat, (j - 1) as nat) + 1
    } else {
        let up = lcs_len(a, b, (i - 1) as nat, j);
        let left = lcs_len(a, b, i, (j - 1) as nat);
        if up >= left { up } else { left }
    }
}

/// The common subsequence of `a[..i]` and `b[..j]` that the table walk picks:
/// from the end, a shared line is kept; otherwise the walk drops the last line
/// of `a` when that keeps strictly more, else the last line of `b`.
pub open spec fn lcs_trace(a: Seq<Seq<char>>, b: Seq<Seq<char>>, i: nat, j: nat) -> Seq<Seq<char>>
    decreases i + j,
{
    if i == 0 || j == 0 {
        Seq::empty()
    } else if a[i - 1] == b[j - 1] {
        lcs_trace(a, b, (i - 1) as nat, (j - 1) as nat).push(a[i - 1])
    } else if lcs_len(a, b, (i - 1) as nat, j) > lcs_len(a, b, i, (j - 1) as nat) {
        lcs_trace(a, b, (i - 1) as nat, j)
    } else {
        lcs_trace(a, b, i, (j - 1) as nat)
    }
}

proof fn lemma_lcs_len_bound(a: Seq<Seq<char>>, b: Seq<Seq<char>>, i: nat, j: nat)
    ensures
        lcs_len(a, b, i, j) <= i,
        lcs_len(a, b, i, j) <= j,
    decreases i + j,
{
    if i > 0 && j > 0 {
        lemma_lcs_len_bound(a, b, (i - 1) as nat, (j - 1) as nat);
        lemma_lcs_len_bound(a, b, (i - 1) as nat, j);
        lemma_lcs_len_bound(a, b, i, (j - 1) as nat);
    }
}

/// Copies string slices into owned strings.
fn owned_lines(v: &[&str]) -> (r: Vec<String>)
    ensures
        views(r@) == str_views(v@),
{
    let mut r: Vec<String> = Vec::new();
    let mut i: usize = 0;
    while i < v.len()
        invariant
            i <= v@.len(),
            views(r@) == str_views(v@.subrange(0, i as int)),
        decreases v.len() - i,
    {
        let ghost old_r = r@;
        let line = String::from_str(v[i]);
        assert(line@ == v@[i as int]@);
        r.push(line);
        i = i + 1;
        assert(views(r@) =~= views(old_r).push(line@));
        assert(str_views(v@.subrange(0, i as int)) =~= str_views(v@.subrange(0, i - 1)).push(v@[i - 1]@));
    }
    assert(v@.subrange(0, v@.len() as int) =~= v@);
    r
}

/// Whether `s` is a subsequence of `t` (matched greedily from the front).
pub open spec fn is_subseq(s: Seq<Seq<char>>, t: Seq<Seq<char>>) -> bool
    decreases t.len(),
{
    if s.len() == 0 {
        true
    } else if t.len() == 0 {
        false
    } else if s[0] == t[0] {
        is_subseq(s.drop_first(), t.drop_first())
    } else {
        is_subseq(s, t.drop_first())
    }
}

/// The edits that walk the original lines `a` and the modified lines `b`
/// along the common lines `l`: before each common line, the original lines
/// that differ from it are removed and the modified lines that differ from it
/// are added; then the common line is kept. What is left after the last common
/// line is removed from `a` and added from `b`.
pub open spec fn diff_walk(a: Seq<Seq<char>>, b: Seq<Seq<char>>, l: Seq<Seq<char>>, i: nat, j: nat, k: nat) -> Seq<Edit>
    decreases
            (if k <= l.len() { l.len() - k } else { 0 }),
            (if i <= a.len() { a.len() - i } else { 0 }) + (if j <= b.len() { b.len() - j } else { 0 }),
{
    if k < l.len() {
        if i < a.len() && a[i as int] != l[k as int] {
            seq![Edit::Remove(a[i as int])] + diff_walk(a, b, l, i + 1, j, k)
        } else if j < b.len() && b[j as int] != l[k as int] {
            seq![Edit::Add(b[j as int])] + diff_walk(a, b, l, i, j + 1, k)
        } else {
            seq![Edit::Same(l[k as int])] + diff_walk(a, b, l, i + 1, j + 1, k + 1)
        }
    } else if i < a.len() {
        seq![Edit::Remove(a[i as int])] + diff_walk(a, b, l, i + 1, j, k)
    } else if j < b.len() {
        seq![Edit::Add(b[j as int])] + diff_walk(a, b, l, i, j + 1, k)
    } else {
        Seq::empty()
    }
}

/// The differences between two texts, line by line.
pub open spec fn diff_spec(original: Seq<char>, modified: Seq<char>) -> Seq<Edit> {
    let a = lines(original);
    let b = lines(modified);
    diff_walk(a, b, lcs_trace(a, b, a.len(), b.len()), 0, 0, 0)
}

proof fn lemma_subseq_extend(s: Seq<Seq<char>>, t: Seq<Seq<char>>, x: Seq<char>)
    requires
        is_subseq(s, t),
    ensures
        is_subseq(s, t.push(x)),
    decreases t.len(),
{
    if s.len() > 0 && t.len() > 0 {
        assert(t.push(x).drop_first() =~= t.drop_first().push(x));
        if s[0] == t[0] {
            lemma_subseq_extend(s.drop_first(), t.drop_first(), x);
        } else {
            lemma_subseq_extend(s, t.drop_first(), x);
        }
    }
}

proof fn lemma_subseq_last(x: Seq<char>, u: Seq<Seq<char>>)
    ensures
        is_subseq(seq![x], u.push(x)),
    decreases u.len(),
{
    let s = seq![x];
    let t = u.push(x);
    assert(s[0] == x);
    assert(s.drop_first() =~= Seq::<Seq<char>>::empty());
    assert(is_subseq(s.drop_first(), t.drop_first()));
    if u.len() > 0 {
        assert(t.drop_first() =~= u.drop_first().push(x));
        assert(t[0] == u[0]);
        if u[0] != x {
            lemma_subseq_last(x, u.drop_first());
        }
    } else {
        assert(t[0] == x);
    }
}

proof fn lemma_subseq_push_both(s: Seq<Seq<char>>, t: Seq<Seq<char>>, x: Seq<char>)
    requires
        is_subseq(s, t),
    ensures
        is_subseq(s.push(x), t.push(x)),
    decreases t.len(),
{
    if s.len() == 0 {
        assert(s.push(x) =~= seq![x]);
        lemma_subseq_last(x, t);
    } else if t.len() > 0 {
        assert(t.push(x).drop_first() =~= t.drop_first().push(x));
        assert(s.push(x).drop_first() =~= s.drop_first().push(x));
        if s[0] == t[0] {
            lemma_subseq_push_both(s.drop_first(), t.drop_first(), x);
        } else {
            lemma_subseq_push_both(s, t.drop_first(), x);
        }
    }
}

/// The common lines that the table walk picks are a subsequence of both inputs.
pub proof fn lemma_lcs_trace_common(a: Seq<Seq<char>>, b: Seq<Seq<char>>, i: nat, j: nat)
    requires
        i <= a.len(),
        j <= b.len(),
    ensures
        is_subseq(lcs_trace(a, b, i, j), a.subrange(0, i as int)),
        is_subseq(lcs_trace(a, b, i, j), b.subrange(0, j as int)),
    decreases i + j,
{
    if i == 0 || j == 0 {
    } else if a[i - 1] == b[j - 1] {
        lemma_lcs_trace_common(a, b, (i - 1) as nat, (j - 1) as nat);
        assert(a.subrange(0, i as int) =~= a.subrange(0, i - 1).push(a[i - 1]));
        assert(b.subrange(0, j as int) =~= b.subrange(0, j - 1).push(b[j - 1]));
        lemma_subseq_push_both(lcs_trace(a, b, (i - 1) as nat, (j - 1) as nat), a.subrange(0, i - 1), a[i - 1]);
        lemma_subseq_push_both(lcs_trace(a, b, (i - 1) as nat, (j - 1) as nat), b.subrange(0, j - 1), a[i - 1]);
    } else if lcs_len(a, b, (i - 1) as nat, j) > lcs_len(a, b, i, (j - 1) as nat) {
        lemma_lcs_trace_common(a, b, (i - 1) as nat, j);
        assert(a.subrange(0, i as int) =~= a.subrange(0, i - 1).push(a[i - 1]));
        lemma_subseq_extend(lcs_trace(a, b, (i - 1) as nat, j), a.subrange(0, i - 1), a[i - 1]);
    } else {
        lemma_lcs_trace_common(a, b, i, (j - 1) as nat);
        assert(b.subrange(0, j as int) =~= b.subrange(0, j - 1).push(b[j - 1]));
        lemma_subseq_extend(lcs_trace(a, b, i, (j - 1) as nat), b.subrange(0, j - 1), b[j - 1]);
    }
}

proof fn lemma_lines_len(s: Seq<char>)
    ensures
        lines(s).len() <= s.len(),
    decreases s.len(),
{
    if s.len() > 0 {
        let k = crate::text::find_char(s, '\n');
        crate::text::lemma_find_char_bound(s, '\n');
        if k < s.len() {
            lemma_lines_len(s.subrange(k as int + 1, s.len() as int));
        }
    }
}

/// The original text's lines that a list of edits keeps or removes.
pub open spec fn originals(e: Seq<Edit>) -> Seq<Seq<char>>
    decreases e.len(),
{
    if e.len() == 0 {
        Seq::empty()
    } else {
        match e[0] {
            Edit::Same(l) => seq![l] + originals(e.drop_first()),
            Edit::Remove(l) => seq![l] + originals(e.drop_first()),
            Edit::Add(_) => originals(e.drop_first()),
        }
    }
}

/// The modified text's lines that a list of edits keeps or adds.
pub open spec fn modifieds(e: Seq<Edit>) -> Seq<Seq<char>>
    decreases e.len(),
{
    if e.len() == 0 {
        Seq::empty()
    } else {
        match e[0] {
            Edit::Same(l) => seq![l] + modifieds(e.drop_first()),
            Edit::Add(l) => seq![l] + modifieds(e.drop_first()),
            Edit::Remove(_) => modifieds(e.drop_first()),
        }
    }
}

/// The lines that a list of edits adds.
pub open spec fn added(e: Seq<Edit>) -> Seq<Seq<char>>
    decreases e.len(),
{
    if e.len() == 0 {
        Seq::empty()
    } else {
        match e[0] {
            Edit::Add(l) => seq![l] + added(e.drop_first()),
            _ => added(e.drop_first()),
        }
    }
}

proof fn lemma_edits_len(e: Seq<Edit>)
    ensures
        e.len() == originals(e).len() + added(e).len(),
    decreases e.len(),
{
    if e.len() > 0 {
        lemma_edits_len(e.drop_first());
    }
}

proof fn lemma_walk_reconstructs(a: Seq<Seq<char>>, b: Seq<Seq<char>>, l: Seq<Seq<char>>, i: nat, j: nat, k: nat)
    requires
        i <= a.len(),
        j <= b.len(),
        k <= l.len(),
        is_subseq(l.subrange(k as int, l.len() as int), a.subrange(i as int, a.len() as int)),
        is_subseq(l.subrange(k as int, l.len() as int), b.subrange(j as int, b.len() as int)),
    ensures
        originals(diff_walk(a, b, l, i, j, k)) == a.subrange(i as int, a.len() as int),
        modifieds(diff_walk(a, b, l, i, j, k)) == b.subrange(j as int, b.len() as int),
    decreases (l.len() - k), (a.len() - i) + (b.len() - j),
{
    let w = diff_walk(a, b, l, i, j, k);
    let ra = a.subrange(i as int, a.len() as int);
    let rb = b.subrange(j as int, b.len() as int);
    let rl = l.subrange(k as int, l.len() as int);
    if k < l.len() {
        if i < a.len() && a[i as int] != l[k as int] {
            assert(ra.drop_first() =~= a.subrange(i as int + 1, a.len() as int));
            lemma_walk_reconstructs(a, b, l, i + 1, j, k);
            let rest = diff_walk(a, b, l, i + 1, j, k);
            assert(w.drop_first() =~= rest);
            assert(originals(w) =~= ra);
        } else if j < b.len() && b[j as int] != l[k as int] {
            assert(rb.drop_first() =~= b.subrange(j as int + 1, b.len() as int));
            lemma_walk_reconstructs(a, b, l, i, j + 1, k);
            let rest = diff_walk(a, b, l, i, j + 1, k);
            assert(w.drop_first() =~= rest);
            assert(modifieds(w) =~= rb);
        } else {
            assert(i < a.len()) by {
                if i == a.len() { assert(ra.len() == 0); }
            }
            assert(j < b.len()) by {
                if j == b.len() { assert(rb.len() == 0); }
            }
            assert(rl.drop_first() =~= l.subrange(k as int + 1, l.len() as int));
            assert(ra.drop_first() =~= a.subrange(i as int + 1, a.len() as int));
            assert(rb.drop_first() =~= b.subrange(j as int + 1, b.len() as int));
            lemma_walk_reconstructs(a, b, l, i + 1, j + 1, k + 1);
            let rest = diff_walk(a, b, l, i + 1, j + 1, k + 1);
            assert(w.drop_first() =~= rest);
            assert(originals(w) =~= ra);
            assert(modifieds(w) =~= rb);
        }
    } else if i < a.len() {
        assert(ra.drop_first() =~= a.subrange(i as int + 1, a.len() as int));
        
        lemma_walk_reconstructs(a, b, l, i + 1, j, k);
        let rest = diff_walk(a, b, l, i + 1, j, k);
        assert(w.drop_first() =~= rest);
        assert(originals(w) =~= ra);
    } else if j < b.len() {
        assert(rb.drop_first() =~= b.subrange(j as int + 1, b.len() as int));
        lemma_walk_reconstructs(a, b, l, i, j + 1, k);
        let rest = diff_walk(a, b, l, i, j + 1, k);
        assert(w.drop_first() =~= rest);
        assert(modifieds(w) =~= rb);
    } else {
        assert(ra =~= Seq::<Seq<char>>::empty());
        assert(rb =~= Seq::<Seq<char>>::empty());
    }
}

/// A diff is a complete account of both texts: the kept and removed lines,
/// in order, are the lines of the original; the kept and added lines are the
/// lines of the modified text; and there are as many entries as original lines
/// plus added lines.
proof fn lemma_lcs_trace_self(a: Seq<Seq<char>>, n: nat)
    requires
        n <= a.len(),
    ensures
        lcs_trace(a, a, n, n) == a.subrange(0, n as int),
    decreases n,
{
    if n > 0 {
        lemma_lcs_trace_self(a, (n - 1) as nat);
        assert(a.subrange(0, n - 1).push(a[n - 1]) =~= a.subrange(0, n as int));
    } else {
        assert(a.subrange(0, 0) =~= Seq::<Seq<char>>::empty());
    }
}

proof fn lemma_diff_walk_self(a: Seq<Seq<char>>, i: nat)
    requires
        i <= a.len(),
    ensures
        diff_walk(a, a, a, i, i, i) == a.subrange(i as int, a.len() as int).map_values(|l: Seq<char>| Edit::Same(l)),
    decreases a.len() - i,
{
    let f = |l: Seq<char>| Edit::Same(l);
    if i < a.len() {
        lemma_diff_walk_self(a, i + 1);
        assert(seq![Edit::Same(a[i as int])] + a.subrange(i as int + 1, a.len() as int).map_values(f)
            =~= a.subrange(i as int, a.len() as int).map_values(f));
    } else {
        assert(a.subrange(i as int, a.len() as int).map_values(f) =~= Seq::<Edit>::empty());
    }
}

/// A text compared with itself: every line is kept.
pub proof fn lemma_diff_self(t: Seq<char>)
    ensures
        diff_spec(t, t) == lines(t).map_values(|l: Seq<char>| Edit::Same(l)),
{
    let a = lines(t);
    lemma_lcs_trace_self(a, a.len());
    assert(a.subrange(0, a.len() as int) =~= a);
    lemma_diff_walk_self(a, 0);
}

pub proof fn lemma_diff_reconstructs(original: Seq<char>, modified: Seq<char>)
    ensures
        originals(diff_spec(original, modified)) == lines(original),
        modifieds(diff_spec(original, modified)) == lines(modified),
        diff_spec(original, modified).len()
            == lines(original).len() + added(diff_spec(original, modified)).len(),
{
    let a = lines(original);
    let b = lines(modified);
    let l = lcs_trace(a, b, a.len(), b.len());
    lemma_lcs_trace_common(a, b, a.len(), b.len());
    assert(a.subrange(0, a.len() as int) =~= a);
    assert(b.subrange(0, b.len() as int) =~= b);
    assert(l.subrange(0, l.len() as int) =~= l);
    lemma_walk_reconstructs(a, b, l, 0, 0, 0);
    lemma_edits_len(diff_spec(original, modified));
}

impl Diff {
    /// Given the lines of two texts, returns a longest common subsequence of
    /// their lines: the one that the classic table walk picks.
    pub fn longest_common_line_subsequence(lines1: &[&str], lines2: &[&str]) -> (r: Vec<String>)
        requires
            lines1@.len() < usize::MAX,
            lines2@.len() < usize::MAX,
        ensures
            views(r@) == lcs_trace(str_views(lines1@), str_views(lines2@),
                lines1@.len() as nat, lines2@.len() as nat),
    {
        let a = owned_lines(lines1);
        let b = owned_lines(lines2);
        assert(views(a@).len() == a@.len());
        assert(str_views(lines1@).len() == lines1@.len());
        assert(views(b@).len() == b@.len());
        assert(str_views(lines2@).len() == lines2@.len());
        Self::lcs_of_lines(&a, &b)
    }

    fn lcs_of_lines(a: &Vec<String>, b: &Vec<String>) -> (r: Vec<String>)
        requires
            a@.len() < usize::MAX,
            b@.len() < usize::MAX,
        ensures
            views(r@) == lcs_trace(views(a@), views(b@), a@.len() as nat, b@.len() as nat),
    {
        let ghost A = views(a@);
        let ghost B = views(b@);
        let len1 = a.len();
        let len2 = b.len();
        let mut rows: Vec<Vec<usize>> = Vec::new();
        let mut first: Vec<usize> = Vec::new();
        let mut j: usize = 0;
        while j <= len2
            invariant
                len2 == b@.len(),
                len2 < usize::MAX,
                j <= len2 + 1,
                first@.len() == j,
                forall|c: int| 0 <= c < j ==> first@[c] == 0,
            decreases len2 + 1 - j,
        {
            first.push(0);
            j = j + 1;
        }
        rows.push(first);
        let mut i: usize = 1;
        while i <= len1
            invariant
                len1 == a@.len(),
                len2 == b@.len(),
                A == views(a@),
                B == views(b@),
                1 <= i <= len1 + 1,
                len1 < usize::MAX,
                len2 < usize::MAX,
                rows@.len() == i,
                forall|r: int| 0 <= r < i ==> #[trigger] rows@[r]@.len() == len2 + 1,
                forall|r: int, c: int| 0 <= r < i && 0 <= c <= len2
                    ==> #[trigger] rows@[r]@[c] == lcs_len(A, B, r as nat, c as nat),
            decreases len1 + 1 - i,
        {
            let mut cur: Vec<usize> = Vec::new();
            cur.push(0);
            let mut j: usize = 1;
            while j <= len2
                invariant
                    len1 == a@.len(),
                    len2 == b@.len(),
                    A == views(a@),
                    B == views(b@),
                    1 <= i <= len1,
                    1 <= j <= len2 + 1,
                    len2 < usize::MAX,
                    rows@.len() == i,
                    forall|r: int| 0 <= r < i ==> #[trigger] rows@[r]@.len() == len2 + 1,
                    forall|r: int, c: int| 0 <= r < i && 0 <= c <= len2
                        ==> #[trigger] rows@[r]@[c] == lcs_len(A, B, r as nat, c as nat),
                    cur@.len() == j,
                    forall|c: int| 0 <= c < j ==> #[trigger] cur@[c] == lcs_len(A, B, i as nat, c as nat),
                decreases len2 + 1 - j,
            {
                proof {
                    lemma_lcs_len_bound(A, B, (i - 1) as nat, (j - 1) as nat);
                    assert(A[i - 1] == a@[i - 1]@);
                    assert(B[j - 1] == b@[j - 1]@);
                }
                let prev = &rows[i - 1];
                let v: usize = if a[i - 1] == b[j - 1] {
                    prev[j - 1] + 1
                } else {
                    let up = prev[j];
                    let left = cur[j - 1];
                    if up >= left { up } else { left }
                };
                cur.push(v);
                j = j + 1;
            }
            rows.push(cur);
            i = i + 1;
        }
        // walk the table back from the bottom right corner
        let mut acc: Vec<String> = Vec::new();
        let mut i: usize = len1;
        let mut j: usize = len2;
        while i > 0 && j > 0
            invariant
                len1 == a@.len(),
                len2 == b@.len(),
                A == views(a@),
                B == views(b@),
                i <= len1,
                j <= len2,
                rows@.len() == len1 + 1,
                forall|r: int| 0 <= r <= len1 ==> #[trigger] rows@[r]@.len() == len2 + 1,
                forall|r: int, c: int| 0 <= r <= len1 && 0 <= c <= len2
                    ==> #[trigger] rows@[r]@[c] == lcs_len(A, B, r as nat, c as nat),
                lcs_trace(A, B, len1 as nat, len2 as nat)
                    == lcs_trace(A, B, i as nat, j as nat) + views(acc@).reverse(),
            decreases i + j,
        {
            proof {
                assert(A[i - 1] == a@[i - 1]@);
                assert(B[j - 1] == b@[j - 1]@);
            }
            if a[i - 1] == b[j - 1] {
                let ghost old_acc = views(acc@);
                acc.push(a[i - 1].clone());
                proof {
                    assert(views(acc@) =~= old_acc.push(A[i - 1]));
                    assert(views(acc@).reverse() =~= seq![A[i - 1]] + old_acc.reverse());
                    assert(lcs_trace(A, B, i as nat, j as nat)
                        == lcs_trace(A, B, (i - 1) as nat, (j - 1) as nat).push(A[i - 1]));
                    assert(lcs_trace(A, B, i as nat, j as nat) + old_acc.reverse()
                        =~= lcs_trace(A, B, (i - 1) as nat, (j - 1) as nat) + views(acc@).reverse());
                }
                i = i - 1;
                j = j - 1;
            } else if rows[i - 1][j] > rows[i][j - 1] {
                i = i - 1;
            } else {
                j = j - 1;
            }
        }
        proof {
            assert(lcs_trace(A, B, i as nat, j as nat) =~= Seq::<Seq<char>>::empty());
            assert(lcs_trace(A, B, len1 as nat, len2 as nat) =~= views(acc@).reverse());
        }
        // reverse the collected lines
        let mut lcs: Vec<String> = Vec::new();
        let mut k: usize = acc.len();
        while k > 0
            invariant
                k <= acc@.len(),
                views(lcs@) == views(acc@).reverse().subrange(0, (acc@.len() - k) as int),
            decreases k,
        {
            k = k - 1;
            let ghost old_l = views(lcs@);
            let line = acc[k].clone();
            lcs.push(line);
            assert(views(lcs@) =~= old_l.push(acc@[k as int]@));
            assert(views(acc@).reverse()[acc@.len() - 1 - k] == acc@[k as int]@);
            assert(views(lcs@) =~= views(acc@).reverse().subrange(0, (acc@.len() - k) as int));
        }
        assert(views(acc@).reverse().subrange(0, acc@.len() as int) =~= views(acc@).reverse());
        lcs
    }

    /// Given two texts (the second a modified version of the first), tells what
    /// happened to each line: kept in both, removed from the original or added
    /// in the modified version, following a longest common subsequence of lines.
    pub fn diff(original: &str, modified: &str) -> (r: Vec<ModificationType>)
        requires
            original@.len() < usize::MAX,
            modified@.len() < usize::MAX,
        ensures
            edits(r@) == diff_spec(original@, modified@),
    {
        let ol = lines_of(original);
        let ml = lines_of(modified);
        let ghost A = views(ol@);
        let ghost B = views(ml@);
        proof {
            lemma_lines_len(original@);
            lemma_lines_len(modified@);
            assert(A.len() == ol@.len());
            assert(B.len() == ml@.len());
        }
        let lcs = Self::lcs_of_lines(&ol, &ml);
        let ghost L = views(lcs@);
        proof {
            lemma_lcs_trace_common(A, B, A.len(), B.len());
            assert(A.subrange(0, A.len() as int) =~= A);
            assert(B.subrange(0, B.len() as int) =~= B);
            assert(A.subrange(0, A.len() as int) =~= A);
            assert(L.subrange(0, L.len() as int) =~= L);
            assert(L.len() == lcs@.len());
        }
        let mut diff: Vec<ModificationType> = Vec::new();
        let mut i: usize = 0;
        let mut j: usize = 0;
        let mut k: usize = 0;
        while k < lcs.len()
            invariant
                A == views(ol@),
                B == views(ml@),
                L == views(lcs@),
                A.len() == ol@.len(),
                B.len() == ml@.len(),
                L.len() == lcs@.len(),
                i <= ol@.len(),
                j <= ml@.len(),
                k <= lcs@.len(),
                is_subseq(L.subrange(k as int, L.len() as int), A.subrange(i as int, A.len() as int)),
                is_subseq(L.subrange(k as int, L.len() as int), B.subrange(j as int, B.len() as int)),
                diff_walk(A, B, L, 0, 0, 0) == edits(diff@) + diff_walk(A, B, L, i as nat, j as nat, k as nat),
            decreases lcs.len() - k,
        {
            let line = &lcs[k];
            assert(L[k as int] == line@);
            while i < ol.len() && ol[i] != *line
                invariant
                    A == views(ol@),
                    B == views(ml@),
                    L == views(lcs@),
                    A.len() == ol@.len(),
                    B.len() == ml@.len(),
                    L.len() == lcs@.len(),
                    i <= ol@.len(),
                    j <= ml@.len(),
                    k < lcs@.len(),
                    line@ == L[k as int],
                    is_subseq(L.subrange(k as int, L.len() as int), A.subrange(i as int, A.len() as int)),
                    is_subseq(L.subrange(k as int, L.len() as int), B.subrange(j as int, B.len() as int)),
                    diff_walk(A, B, L, 0, 0, 0) == edits(diff@) + diff_walk(A, B, L, i as nat, j as nat, k as nat),
                decreases ol.len() - i,
            {
                assert(A[i as int] == ol@[i as int]@);
                let ghost old_d = edits(diff@);
                diff.push(ModificationType::Remove(ol[i].clone()));
                proof {
                    assert(edits(diff@) =~= old_d.push(Edit::Remove(A[i as int])));
                    assert(A.subrange(i as int, A.len() as int).drop_first() =~= A.subrange(i + 1, A.len() as int));
                    assert(diff_walk(A, B, L, i as nat, j as nat, k as nat)
                        == seq![Edit::Remove(A[i as int])] + diff_walk(A, B, L, (i + 1) as nat, j as nat, k as nat));
                    assert(diff_walk(A, B, L, 0, 0, 0) =~= edits(diff@) + diff_walk(A, B, L, (i + 1) as nat, j as nat, k as nat));
                }
                i = i + 1;
            }
            proof {
                assert(i < ol@.len()) by {
                    if i == ol@.len() {
                        assert(A.subrange(i as int, A.len() as int).len() == 0);
                    }
                }
                assert(A[i as int] == L[k as int]);
            }
            while j < ml.len() && ml[j] != *line
                invariant
                    A == views(ol@),
                    B == views(ml@),
                    L == views(lcs@),
                    A.len() == ol@.len(),
                    B.len() == ml@.len(),
                    L.len() == lcs@.len(),
                    i < ol@.len(),
                    j <= ml@.len(),
                    k < lcs@.len(),
                    line@ == L[k as int],
                    A[i as int] == L[k as int],
                    is_subseq(L.subrange(k as int, L.len() as int), A.subrange(i as int, A.len() as int)),
                    is_subseq(L.subrange(k as int, L.len() as int), B.subrange(j as int, B.len() as int)),
                    diff_walk(A, B, L, 0, 0, 0) == edits(diff@) + diff_walk(A, B, L, i as nat, j as nat, k as nat),
                decreases ml.len() - j,
            {
                assert(B[j as int] == ml@[j as int]@);
                let ghost old_d = edits(diff@);
                diff.push(ModificationType::Add(ml[j].clone()));
                proof {
                    assert(edits(diff@) =~= old_d.push(Edit::Add(B[j as int])));
                    assert(B.subrange(j as int, B.len() as int).drop_first() =~= B.subrange(j + 1, B.len() as int));
                    assert(diff_walk(A, B, L, i as nat, j as nat, k as nat)
                        == seq![Edit::Add(B[j as int])] + diff_walk(A, B, L, i as nat, (j + 1) as nat, k as nat));
                    assert(diff_walk(A, B, L, 0, 0, 0) =~= edits(diff@) + diff_walk(A, B, L, i as nat, (j + 1) as nat, k as nat));
                }
                j = j + 1;
            }
            proof {
                assert(j < ml@.len()) by {
                    if j == ml@.len() {
                        assert(B.subrange(j as int, B.len() as int).len() == 0);
                    }
                }
                assert(B[j as int] == L[k as int]);
            }
            let ghost old_d = edits(diff@);
            diff.push(ModificationType::Same(line.clone()));
            proof {
                assert(edits(diff@) =~= old_d.push(Edit::Same(L[k as int])));
                assert(diff_walk(A, B, L, i as nat, j as nat, k as nat)
                    == seq![Edit::Same(L[k as int])] + diff_walk(A, B, L, (i + 1) as nat, (j + 1) as nat, (k + 1) as nat));
                assert(diff_walk(A, B, L, 0, 0, 0) =~= edits(diff@) + diff_walk(A, B, L, (i + 1) as nat, (j + 1) as nat, (k + 1) as nat));
                assert(L.subrange(k as int, L.len() as int).drop_first() =~= L.subrange(k + 1, L.len() as int));
                assert(A.subrange(i as int, A.len() as int).drop_first() =~= A.subrange(i + 1, A.len() as int));
                assert(B.subrange(j as int, B.len() as int).drop_first() =~= B.subrange(j + 1, B.len() as int));
            }
            i = i + 1;
            j = j + 1;
            k = k + 1;
        }
        while i < ol.len()
            invariant
                A == views(ol@),
                B == views(ml@),
                L == views(lcs@),
                A.len() == ol@.len(),
                B.len() == ml@.len(),
                L.len() == lcs@.len(),
                i <= ol@.len(),
                j <= ml@.len(),
                k == lcs@.len(),
                diff_walk(A, B, L, 0, 0, 0) == edits(diff@) + diff_walk(A, B, L, i as nat, j as nat, k as nat),
            decreases ol.len() - i,
        {
            assert(A[i as int] == ol@[i as int]@);
            let ghost old_d = edits(diff@);
            diff.push(ModificationType::Remove(ol[i].clone()));
            proof {
                assert(edits(diff@) =~= old_d.push(Edit::Remove(A[i as int])));
                assert(diff_walk(A, B, L, 0, 0, 0) =~= edits(diff@) + diff_walk(A, B, L, (i + 1) as nat, j as nat, k as nat));
            }
            i = i + 1;
        }
        while j < ml.len()
            invariant
                A == views(ol@),
                B == views(ml@),
                L == views(lcs@),
                A.len() == ol@.len(),
                B.len() == ml@.len(),
                L.len() == lcs@.len(),
                i == ol@.len(),
                j <= ml@.len(),
                k == lcs@.len(),
                diff_walk(A, B, L, 0, 0, 0) == edits(diff@) + diff_walk(A, B, L, i as nat, j as nat, k as nat),
            decreases ml.len() - j,
        {
            assert(B[j as int] == ml@[j as int]@);
            let ghost old_d = edits(diff@);
            diff.push(ModificationType::Add(ml[j].clone()));
            proof {
                assert(edits(diff@) =~= old_d.push(Edit::Add(B[j as int])));
                assert(diff_walk(A, B, L, 0, 0, 0) =~= edits(diff@) + diff_walk(A, B, L, i as nat, (j + 1) as nat, k as nat));
            }
            j = j + 1;
        }
        assert(diff_walk(A, B, L, 0, 0, 0) =~= edits(diff@));
        diff
    }
}

} // verus!
