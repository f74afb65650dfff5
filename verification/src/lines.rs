//! Splitting a text into lines.
//!
//! A line is a record ending right after a newline character; the newline is
//! kept as part of the line.  The final line of a text may lack a newline.

use vstd::prelude::*;

verus! {

/// Position of the first newline in the text, or its length if there is none.
pub open spec fn first_newline(s: Seq<char>) -> int
    decreases s.len(),
{
    if s.len() == 0 {
        0
    } else if s[0] == '\n' {
        0
    } else {
        1 + first_newline(s.drop_first())
    }
}

pub proof fn lemma_first_newline_bounds(s: Seq<char>)
    ensures
        0 <= first_newline(s) <= s.len(),
        forall|i: int| 0 <= i < first_newline(s) ==> s[i] != '\n',
        first_newline(s) < s.len() ==> s[first_newline(s)] == '\n',
    decreases s.len(),
{
    if s.len() > 0 && s[0] != '\n' {
        let t = s.drop_first();
        lemma_first_newline_bounds(t);
        assert forall|i: int| 0 <= i < first_newline(s) implies s[i] != '\n' by {
            if i > 0 {
                assert(t[i - 1] != '\n');
            }
        }
    }
}

/// The first newline is the unique position with no newline before it
/// that either carries a newline or ends the text.
pub proof fn lemma_first_newline_at(s: Seq<char>, k: int)
    requires
        0 <= k <= s.len(),
        forall|i: int| 0 <= i < k ==> s[i] != '\n',
        k == s.len() || s[k] == '\n',
    ensures
        first_newline(s) == k,
    decreases k,
{
    if k == 0 {
    } else {
        let t = s.drop_first();
        assert(forall|i: int| 0 <= i < k - 1 ==> #[trigger] t[i] != '\n');
        lemma_first_newline_at(t, k - 1);
    }
}

/// The lines of a text: each line ends right after a newline character,
/// which it keeps; the last line may lack one.  An empty text has no lines.
pub open spec fn lines_of(s: Seq<char>) -> Seq<Seq<char>>
    decreases s.len(),
    via lines_of_decreases
{
    if s.len() == 0 {
        Seq::empty()
    } else {
        let k = first_newline(s);
        if k == s.len() {
            seq![s]
        } else {
            seq![s.subrange(0, k + 1)] + lines_of(s.skip(k + 1))
        }
    }
}

#[via_fn]
proof fn lines_of_decreases(s: Seq<char>) {
    lemma_first_newline_bounds(s);
}

/// A well-formed line: nonempty, with a newline nowhere but possibly at its end.
pub open spec fn valid_line(l: Seq<char>) -> bool {
    l.len() > 0 && forall|i: int| 0 <= i < l.len() - 1 ==> l[i] != '\n'
}

/// A well-formed line split: every line well formed, and every line except
/// the last ends with a newline.
pub open spec fn valid_lines(ls: Seq<Seq<char>>) -> bool {
    &&& forall|i: int| 0 <= i < ls.len() ==> valid_line(#[trigger] ls[i])
    &&& forall|i: int| 0 <= i < ls.len() - 1 ==> (#[trigger] ls[i]).last() == '\n'
}

/// Splitting any text yields a well-formed line split.
pub proof fn lemma_lines_of_valid(s: Seq<char>)
    ensures
        valid_lines(lines_of(s)),
    decreases s.len(),
{
    lemma_first_newline_bounds(s);
    if s.len() > 0 {
        let k = first_newline(s);
        if k == s.len() {
            assert(valid_line(s));
        } else {
            let rest = s.skip(k + 1);
            lemma_lines_of_valid(rest);
            let head = s.subrange(0, k + 1);
            assert(valid_line(head));
            assert(head.last() == '\n');
            let ls = lines_of(s);
            assert(forall|i: int| 1 <= i < ls.len() ==> ls[i] == #[trigger] lines_of(rest)[i - 1]);
        }
    }
}

/// Splitting the concatenation of a well-formed line split returns exactly
/// those lines.
pub proof fn lemma_flatten_lines_of(ls: Seq<Seq<char>>)
    requires
        valid_lines(ls),
    ensures
        lines_of(ls.flatten()) == ls,
    decreases ls.len(),
{
    if ls.len() == 0 {
        assert(ls.flatten() =~= Seq::<char>::empty());
        assert(lines_of(ls.flatten()) =~= ls);
    } else {
        let head = ls.first();
        let rest = ls.drop_first();
        let s = ls.flatten();
        assert(s == head + rest.flatten());
        assert(head.len() > 0);
        assert(s.len() > 0) by {
            assert(s.len() == head.len() + rest.flatten().len());
        }
        if ls.len() == 1 {
            assert(rest.flatten() =~= Seq::<char>::empty());
            assert(s =~= head);
            assert(forall|i: int| 0 <= i < s.len() - 1 ==> s[i] != '\n');
            if head.last() == '\n' {
                lemma_first_newline_at(s, s.len() - 1);
                assert(s.subrange(0, s.len() as int) =~= s);
                assert(s.skip(s.len() as int) =~= Seq::<char>::empty());
                assert(lines_of(s.skip(s.len() as int)) =~= Seq::<Seq<char>>::empty());
                assert(lines_of(s) == seq![s.subrange(0, s.len() as int)] + lines_of(s.skip(s.len() as int)));
                assert(lines_of(s) =~= ls);
            } else {
                assert(s[s.len() - 1] != '\n');
                lemma_first_newline_at(s, s.len() as int);
                assert(lines_of(s) == seq![s]);
                assert(lines_of(s) =~= ls);
            }
        } else {
            assert(head.last() == '\n');
            assert(forall|i: int| 0 <= i < head.len() - 1 ==> head[i] != '\n');
            assert(forall|i: int| 0 <= i < head.len() - 1 ==> s[i] == head[i]);
            assert(s[head.len() - 1] == head.last());
            lemma_first_newline_at(s, head.len() - 1);
            assert(s.subrange(0, head.len() as int) =~= head);
            assert(s.skip(head.len() as int) =~= rest.flatten());
            assert(forall|i: int| 0 <= i < rest.len() ==> rest[i] == #[trigger] ls[i + 1]);
            assert(valid_lines(rest));
            lemma_flatten_lines_of(rest);
            assert(lines_of(s) =~= seq![head] + rest);
            assert(seq![head] + rest =~= ls);
        }
    }
}

/// A suffix of a well-formed line split is well formed.
pub proof fn lemma_valid_lines_skip(ls: Seq<Seq<char>>, n: int)
    requires
        valid_lines(ls),
        0 <= n <= ls.len(),
    ensures
        valid_lines(ls.skip(n)),
{
    let t = ls.skip(n);
    assert(forall|i: int| 0 <= i < t.len() ==> t[i] == #[trigger] ls[i + n]);
}

/// A prefix of a well-formed line split is well formed.
pub proof fn lemma_valid_lines_take(ls: Seq<Seq<char>>, n: int)
    requires
        valid_lines(ls),
        0 <= n <= ls.len(),
    ensures
        valid_lines(ls.take(n)),
{
    let t = ls.take(n);
    assert(forall|i: int| 0 <= i < t.len() ==> t[i] == #[trigger] ls[i]);
}

/// Splits a text into its lines.  Each line keeps its terminating newline;
/// the final line may lack one.  The lines concatenate back to the text.
pub fn split_lines(text: &str) -> (lines: Vec<String>)
    ensures
        lines.deep_view() == lines_of(text@),
{
    let n = text.unicode_len();
    let mut lines: Vec<String> = Vec::new();
    let mut start: usize = 0;
    let mut i: usize = 0;
    proof {
        assert(text@.skip(0) =~= text@);
        assert(lines.deep_view() =~= Seq::<Seq<char>>::empty());
        assert(lines.deep_view() + lines_of(text@) =~= lines_of(text@));
    }
    while i < n
        invariant
            n == text@.len(),
            0 <= start <= i <= n,
            forall|j: int| start <= j < i ==> text@[j] != '\n',
            lines.deep_view() + lines_of(text@.skip(start as int)) == lines_of(text@),
        decreases n - i,
    {
        let c = text.get_char(i);
        if c == '\n' {
            let line = text.substring_char(start, i + 1);
            let ghost old_lines = lines.deep_view();
            lines.push(String::from_str(line));
            proof {
                let s = text@.skip(start as int);
                assert(forall|j: int| 0 <= j < i - start ==> s[j] == text@[j + start] && #[trigger] s[j] != '\n');
                assert(s[i - start] == '\n');
                lemma_first_newline_at(s, i - start);
                assert(s.subrange(0, i - start + 1) =~= text@.subrange(start as int, i + 1));
                assert(s.skip(i - start + 1) =~= text@.skip(i + 1));
                assert(lines_of(s) == seq![text@.subrange(start as int, i + 1)] + lines_of(text@.skip(i + 1)));
                assert(lines.deep_view() =~= old_lines.push(text@.subrange(start as int, i + 1)));
                assert(lines.deep_view() + lines_of(text@.skip(i + 1)) =~= old_lines + lines_of(text@.skip(start as int)));
            }
            start = i + 1;
        }
        i += 1;
    }
    if start < n {
        let line = text.substring_char(start, n);
        let ghost old_lines = lines.deep_view();
        lines.push(String::from_str(line));
        proof {
            let s = text@.skip(start as int);
            assert(forall|j: int| 0 <= j < s.len() ==> s[j] == text@[j + start] && #[trigger] s[j] != '\n');
            lemma_first_newline_at(s, s.len() as int);
            assert(s =~= text@.subrange(start as int, n as int));
            assert(lines_of(s) == seq![s]);
            assert(lines.deep_view() =~= old_lines.push(s));
            assert(lines.deep_view() =~= old_lines + lines_of(s));
        }
    } else {
        proof {
            assert(text@.skip(start as int) =~= Seq::<char>::empty());
            assert(lines.deep_view() + lines_of(text@.skip(start as int)) =~= lines.deep_view());
        }
    }
    lines
}

} // verus!
