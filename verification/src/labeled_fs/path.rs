//! Slash-separated paths.

use vstd::prelude::*;
use vstd::string::StrSliceExecFns;

verus! {

/// The character that separates the components of a path.
pub const SEPARATOR: char = '/';

/// How many characters of `s` come before its first separator.
pub open spec fn first_separator(s: Seq<char>) -> int
    decreases s.len(),
{
    if s.len() == 0 || s[0] == SEPARATOR {
        0
    } else {
        1 + first_separator(s.skip(1))
    }
}

/// The run of characters that stands for the directory that it is in, and
/// so for no step.
pub const HERE: char = '.';

/// What a run of characters between separators names: itself, or nothing
/// if it is empty or the single character [`HERE`].
pub open spec fn named(piece: Seq<char>) -> Seq<Seq<char>> {
    if piece.len() == 0 || piece == seq![HERE] {
        Seq::empty()
    } else {
        seq![piece]
    }
}

/// The components of a path: its maximal runs of characters other than the
/// separator, in order, but for the runs that are the single character
/// [`HERE`]. Leading, trailing and repeated separators count for nothing, so
/// the root path has no components.
pub open spec fn path_components(s: Seq<char>) -> Seq<Seq<char>>
    decreases s.len(),
{
    if s.len() == 0 {
        Seq::empty()
    } else {
        let n = first_separator(s);
        if n <= 0 {
            path_components(s.skip(1))
        } else if n < s.len() {
            named(s.take(n)) + path_components(s.skip(n + 1))
        } else {
            named(s)
        }
    }
}

/// The first separator lies within the path, and no separator comes
/// before it.
pub proof fn lemma_first_separator(s: Seq<char>)
    ensures
        0 <= first_separator(s) <= s.len(),
        first_separator(s) < s.len() ==> s[first_separator(s)] == SEPARATOR,
        forall|k: int| 0 <= k < first_separator(s) ==> s[k] != SEPARATOR,
    decreases s.len(),
{
    if s.len() > 0 && s[0] != SEPARATOR {
        let t = s.skip(1);
        lemma_first_separator(t);
        assert forall|k: int| 0 <= k < first_separator(s) implies s[k] != SEPARATOR by {
            if k > 0 {
                assert(t[k - 1] == s[k]);
            }
        }
    }
}

/// Where the first `n` characters hold no separator and a separator or the
/// end follows, the first separator is at `n`.
pub proof fn lemma_first_separator_at(s: Seq<char>, n: int)
    requires
        0 <= n <= s.len(),
        forall|k: int| 0 <= k < n ==> s[k] != SEPARATOR,
        n < s.len() ==> s[n] == SEPARATOR,
    ensures
        first_separator(s) == n,
    decreases n,
{
    if n > 0 {
        let t = s.skip(1);
        assert forall|k: int| 0 <= k < n - 1 implies t[k] != SEPARATOR by {
            assert(t[k] == s[k + 1]);
        }
        lemma_first_separator_at(t, n - 1);
    }
}

/// No component is empty, none holds a separator, and none is the single
/// character [`HERE`].
pub proof fn lemma_path_components(s: Seq<char>)
    ensures
        forall|i: int|
            0 <= i < path_components(s).len() ==> (#[trigger] path_components(s)[i]).len() > 0
                && !path_components(s)[i].contains(SEPARATOR) && path_components(s)[i] != seq![
                HERE,
            ],
    decreases s.len(),
{
    if s.len() > 0 {
        let n = first_separator(s);
        lemma_first_separator(s);
        if n == 0 {
            lemma_path_components(s.skip(1));
        } else if n < s.len() {
            let rest = path_components(s.skip(n + 1));
            lemma_path_components(s.skip(n + 1));
            let head = named(s.take(n));
            assert forall|i: int| 0 <= i < path_components(s).len() implies (
            #[trigger] path_components(s)[i]).len() > 0 && !path_components(s)[i].contains(
                SEPARATOR,
            ) && path_components(s)[i] != seq![HERE] by {
                if i >= head.len() {
                    assert(path_components(s)[i] == rest[i - head.len()]);
                } else {
                    assert(path_components(s)[i] == s.take(n));
                }
            }
        }
    }
}

/// The components of the path `path`.
pub fn split_path(path: &str) -> (r: Vec<String>)
    ensures
        r.deep_view() == path_components(path@),
{
    let n = path.unicode_len();
    let mut out: Vec<String> = Vec::new();
    let mut start: usize = 0;
    let ghost s = path@;
    assert(s.skip(0) =~= s);
    assert(out.deep_view() =~= Seq::<Seq<char>>::empty());
    while start < n
        invariant
            0 <= start <= n,
            n == s.len(),
            s == path@,
            out.deep_view() + path_components(s.skip(start as int)) == path_components(s),
        decreases n - start,
    {
        let ghost rest = s.skip(start as int);
        let mut end: usize = start;
        while end < n && path.get_char(end) != SEPARATOR
            invariant
                start <= end <= n,
                n == s.len(),
                s == path@,
                forall|k: int| start <= k < end ==> s[k] != SEPARATOR,
            decreases n - end,
        {
            end += 1;
        }
        proof {
            assert forall|k: int| 0 <= k < end - start implies rest[k] != SEPARATOR by {
                assert(rest[k] == s[start + k]);
            }
            if end < n {
                assert(rest[end - start] == s[end as int]);
            }
            lemma_first_separator_at(rest, end - start);
        }
        let ghost before = out.deep_view();
        let ghost run = rest.take(end - start);
        let here = end - start == 1 && path.get_char(start) == HERE;
        proof {
            if end > start {
                assert(run[0] == s[start as int]);
            }
            assert(here == (run =~= seq![HERE]));
        }
        if end > start && !here {
            let piece = path.substring_char(start, end).to_owned();
            assert(piece@ =~= run);
            out.push(piece);
            assert(out.deep_view() =~= before.push(run));
        }
        assert(out.deep_view() =~= before + named(run));
        if end < n {
            proof {
                assert(rest.skip(end - start + 1) =~= s.skip(end + 1));
                if end == start {
                    assert(path_components(rest) == path_components(rest.skip(1)));
                } else {
                    assert(path_components(rest) == named(run) + path_components(
                        s.skip(end + 1),
                    ));
                }
                assert(out.deep_view() + path_components(s.skip(end + 1)) =~= before
                    + path_components(rest));
            }
            start = end + 1;
        } else {
            proof {
                assert(run =~= rest);
                assert(path_components(rest) == named(rest));
                assert(s.skip(n as int) =~= Seq::<char>::empty());
                assert(out.deep_view() + path_components(s.skip(n as int)) =~= before
                    + path_components(rest));
            }
            start = n;
        }
    }
    assert(s.skip(n as int) =~= Seq::<char>::empty());
    assert(out.deep_view() + Seq::<Seq<char>>::empty() =~= out.deep_view());
    out
}

/// The path of a single separator has no components.
pub proof fn lemma_root_path()
    ensures
        path_components(seq![SEPARATOR]) == Seq::<Seq<char>>::empty(),
{
    let s = seq![SEPARATOR];
    assert(first_separator(s) == 0);
    assert(s.skip(1) =~= Seq::<char>::empty());
    assert(path_components(s.skip(1)) =~= Seq::<Seq<char>>::empty());
}

} // verus!
