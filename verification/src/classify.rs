//! Classifying single lines: blank lines and comment lines.

use vstd::prelude::*;

verus! {

/// A blank character: space, tab, newline or carriage return.
pub open spec fn blank_char(c: char) -> bool {
    c == ' ' || c == '\t' || c == '\n' || c == '\r'
}

/// Text is blank when every one of its characters is blank;
/// empty text is blank.
pub open spec fn blank_text(s: Seq<char>) -> bool {
    forall|i: int| 0 <= i < s.len() ==> blank_char(s[i])
}

/// The text with its leading run of blank characters removed.
pub open spec fn strip_leading_blanks(s: Seq<char>) -> Seq<char>
    decreases s.len(),
{
    if s.len() > 0 && blank_char(s[0]) {
        strip_leading_blanks(s.drop_first())
    } else {
        s
    }
}

/// A line is a comment when, after stripping its leading blank characters,
/// it starts with one of the given prefixes.  With no prefixes configured,
/// no line is a comment.
pub open spec fn comment_line(s: Seq<char>, prefixes: Seq<Seq<char>>) -> bool {
    exists|k: int| 0 <= k < prefixes.len() && prefixes[k].is_prefix_of(strip_leading_blanks(s))
}

/// A separator line: blank, or a comment under the given prefixes.
/// Runs of separator lines are what may split one block from the next.
pub open spec fn separator_line(s: Seq<char>, prefixes: Seq<Seq<char>>) -> bool {
    blank_text(s) || comment_line(s, prefixes)
}

/// With no prefixes configured, no line whatsoever is a comment.
pub proof fn lemma_no_prefixes_no_comment(s: Seq<char>)
    ensures
        !comment_line(s, Seq::<Seq<char>>::empty()),
{
}

/// An empty line is never a comment, as long as no configured prefix is
/// itself the empty string.  (An empty prefix is a prefix of everything,
/// so it would make every line a comment, the empty line included.)
pub proof fn lemma_empty_line_not_comment(prefixes: Seq<Seq<char>>)
    requires
        forall|k: int| 0 <= k < prefixes.len() ==> (#[trigger] prefixes[k]).len() > 0,
    ensures
        !comment_line(Seq::<char>::empty(), prefixes),
{
    assert(strip_leading_blanks(Seq::<char>::empty()) == Seq::<char>::empty());
}

/// Stripping leading blank characters removes exactly the leading blank run:
/// if the first `j` characters are blank and the character at `j` (if any)
/// is not, the result is the text from `j` on.
pub proof fn lemma_strip_leading_blanks_at(s: Seq<char>, j: int)
    requires
        0 <= j <= s.len(),
        forall|i: int| 0 <= i < j ==> blank_char(s[i]),
        j == s.len() || !blank_char(s[j]),
    ensures
        strip_leading_blanks(s) == s.skip(j),
    decreases j,
{
    if j == 0 {
        assert(s.skip(0) =~= s);
    } else {
        let t = s.drop_first();
        assert(blank_char(s[0]));
        assert(forall|i: int| 0 <= i < j - 1 ==> blank_char(#[trigger] t[i]));
        lemma_strip_leading_blanks_at(t, j - 1);
        assert(t.skip(j - 1) =~= s.skip(j));
    }
}

/// True iff every character of the line is blank (space, tab, newline or
/// carriage return); the empty line is blank.
pub fn is_blank(s: &str) -> (r: bool)
    ensures
        r == blank_text(s@),
{
    let n = s.unicode_len();
    let mut i: usize = 0;
    while i < n
        invariant
            n == s@.len(),
            0 <= i <= n,
            forall|j: int| 0 <= j < i ==> blank_char(s@[j]),
        decreases n - i,
    {
        let c = s.get_char(i);
        if !(c == ' ' || c == '\t' || c == '\n' || c == '\r') {
            assert(!blank_char(s@[i as int]));
            return false;
        }
        i += 1;
    }
    true
}

/// True iff the prefix occurs in `s` starting at character position `j`.
fn matches_at(s: &str, j: usize, prefix: &str) -> (r: bool)
    requires
        j <= s@.len(),
    ensures
        r == prefix@.is_prefix_of(s@.skip(j as int)),
{
    let n = s.unicode_len();
    let m = prefix.unicode_len();
    if m > n - j {
        return false;
    }
    let mut i: usize = 0;
    while i < m
        invariant
            n == s@.len(),
            m == prefix@.len(),
            j <= n,
            m <= n - j,
            0 <= i <= m,
            forall|t: int| 0 <= t < i ==> prefix@[t] == s@[j + t],
        decreases m - i,
    {
        let a = s.get_char(j + i);
        let b = prefix.get_char(i);
        if a != b {
            assert(s@.skip(j as int)[i as int] == s@[j + i]);
            return false;
        }
        i += 1;
    }
    assert(prefix@ =~= s@.skip(j as int).subrange(0, m as int));
    true
}

/// True iff the line is a comment: after removing its leading blank
/// characters it starts with one of the given prefixes.  With an empty
/// prefix list the answer is always false.
pub fn is_comment(s: &str, comments: &Vec<String>) -> (r: bool)
    ensures
        r == comment_line(s@, comments.deep_view()),
        comments@.len() == 0 ==> !r,
{
    let ghost prefixes = comments.deep_view();
    let n = s.unicode_len();
    let mut j: usize = 0;
    loop
        invariant
            n == s@.len(),
            0 <= j <= n,
            forall|i: int| 0 <= i < j ==> blank_char(s@[i]),
        ensures
            0 <= j <= n,
            forall|i: int| 0 <= i < j ==> blank_char(s@[i]),
            j == n || !blank_char(s@[j as int]),
        decreases n - j,
    {
        if j >= n {
            break;
        }
        let c = s.get_char(j);
        if c == ' ' || c == '\t' || c == '\n' || c == '\r' {
            j += 1;
        } else {
            break;
        }
    }
    proof {
        lemma_strip_leading_blanks_at(s@, j as int);
    }
    let mut k: usize = 0;
    while k < comments.len()
        invariant
            0 <= k <= comments.len(),
            j <= s@.len(),
            prefixes == comments.deep_view(),
            s@.skip(j as int) == strip_leading_blanks(s@),
            forall|t: int| 0 <= t < k ==> !(#[trigger] prefixes[t]).is_prefix_of(strip_leading_blanks(s@)),
        decreases comments.len() - k,
    {
        let prefix: &String = &comments[k];
        assert(prefix@ == prefixes[k as int]);
        if matches_at(s, j, prefix.as_str()) {
            return true;
        }
        k += 1;
    }
    false
}

} // verus!
