//! Trimming blank lines from a block's text.

use vstd::prelude::*;
use crate::classify::blank_text;
use crate::classify::is_blank;
use crate::lines::lemma_flatten_lines_of;
use crate::lines::lemma_lines_of_valid;
use crate::lines::lemma_valid_lines_skip;
use crate::lines::lemma_valid_lines_take;
use crate::lines::lines_of;
use crate::lines::split_lines;

verus! {

/// The line split with its leading run of blank lines removed.
pub open spec fn drop_leading_blank_lines(ls: Seq<Seq<char>>) -> Seq<Seq<char>>
    decreases ls.len(),
{
    if ls.len() > 0 && blank_text(ls[0]) {
        drop_leading_blank_lines(ls.drop_first())
    } else {
        ls
    }
}

/// The line split with its trailing run of blank lines removed.
pub open spec fn drop_trailing_blank_lines(ls: Seq<Seq<char>>) -> Seq<Seq<char>>
    decreases ls.len(),
{
    if ls.len() > 0 && blank_text(ls.last()) {
        drop_trailing_blank_lines(ls.drop_last())
    } else {
        ls
    }
}

/// The line split without any blank line, wherever it stood.
pub open spec fn without_blank_lines(ls: Seq<Seq<char>>) -> Seq<Seq<char>>
    decreases ls.len(),
{
    if ls.len() == 0 {
        Seq::empty()
    } else if blank_text(ls[0]) {
        without_blank_lines(ls.drop_first())
    } else {
        seq![ls[0]] + without_blank_lines(ls.drop_first())
    }
}

/// The text of a block with leading and trailing blank lines removed:
/// what `clean` returns.
pub open spec fn cleaned(s: Seq<char>) -> Seq<char> {
    drop_trailing_blank_lines(drop_leading_blank_lines(lines_of(s))).flatten()
}

/// Dropping leading blank lines removes exactly the leading blank run.
pub proof fn lemma_drop_leading_at(ls: Seq<Seq<char>>, j: int)
    requires
        0 <= j <= ls.len(),
        forall|i: int| 0 <= i < j ==> blank_text(#[trigger] ls[i]),
        j == ls.len() || !blank_text(ls[j]),
    ensures
        drop_leading_blank_lines(ls) == ls.skip(j),
    decreases j,
{
    if j == 0 {
        assert(ls.skip(0) =~= ls);
    } else {
        let t = ls.drop_first();
        assert(forall|i: int| 0 <= i < j - 1 ==> blank_text(#[trigger] t[i]));
        lemma_drop_leading_at(t, j - 1);
        assert(t.skip(j - 1) =~= ls.skip(j));
    }
}

/// Dropping trailing blank lines removes exactly the trailing blank run.
pub proof fn lemma_drop_trailing_at(ls: Seq<Seq<char>>, j: int)
    requires
        0 <= j <= ls.len(),
        forall|i: int| j <= i < ls.len() ==> blank_text(#[trigger] ls[i]),
        j == 0 || !blank_text(ls[j - 1]),
    ensures
        drop_trailing_blank_lines(ls) == ls.take(j),
    decreases ls.len(),
{
    if j == ls.len() {
        if ls.len() > 0 && blank_text(ls.last()) {
            assert(!blank_text(ls[j - 1]));
            assert(false);
        }
        assert(ls.take(j) =~= ls);
    } else {
        assert(blank_text(ls.last()));
        let t = ls.drop_last();
        assert(forall|i: int| j <= i < t.len() ==> blank_text(#[trigger] t[i]));
        assert(j == 0 || !blank_text(t[j - 1]));
        lemma_drop_trailing_at(t, j);
        assert(t.take(j) =~= ls.take(j));
    }
}

/// After dropping leading blank lines, the first line (if any) is not blank.
pub proof fn lemma_drop_leading_first(ls: Seq<Seq<char>>)
    ensures
        drop_leading_blank_lines(ls).len() > 0 ==> !blank_text(drop_leading_blank_lines(ls)[0]),
    decreases ls.len(),
{
    if ls.len() > 0 && blank_text(ls[0]) {
        lemma_drop_leading_first(ls.drop_first());
    }
}

/// After dropping trailing blank lines, the last line (if any) is not blank.
pub proof fn lemma_drop_trailing_last(ls: Seq<Seq<char>>)
    ensures
        drop_trailing_blank_lines(ls).len() > 0 ==> !blank_text(drop_trailing_blank_lines(ls).last()),
    decreases ls.len(),
{
    if ls.len() > 0 && blank_text(ls.last()) {
        lemma_drop_trailing_last(ls.drop_last());
    }
}

/// Dropping leading blank lines yields a suffix of the split.
pub proof fn lemma_drop_leading_is_skip(ls: Seq<Seq<char>>)
    ensures
        exists|j: int|
            0 <= j <= ls.len() && drop_leading_blank_lines(ls) == ls.skip(j),
    decreases ls.len(),
{
    if ls.len() > 0 && blank_text(ls[0]) {
        let t = ls.drop_first();
        lemma_drop_leading_is_skip(t);
        let j = choose|j: int| 0 <= j <= t.len() && drop_leading_blank_lines(t) == t.skip(j);
        assert(t.skip(j) =~= ls.skip(j + 1));
        assert(drop_leading_blank_lines(ls) == ls.skip(j + 1));
    } else {
        assert(ls.skip(0) =~= ls);
        assert(drop_leading_blank_lines(ls) == ls.skip(0));
    }
}

/// Dropping trailing blank lines yields a prefix of the split.
pub proof fn lemma_drop_trailing_is_take(ls: Seq<Seq<char>>)
    ensures
        exists|j: int|
            0 <= j <= ls.len() && drop_trailing_blank_lines(ls) == ls.take(j),
    decreases ls.len(),
{
    if ls.len() > 0 && blank_text(ls.last()) {
        let t = ls.drop_last();
        lemma_drop_trailing_is_take(t);
        let j = choose|j: int| 0 <= j <= t.len() && drop_trailing_blank_lines(t) == t.take(j);
        assert(t.take(j) =~= ls.take(j));
        assert(drop_trailing_blank_lines(ls) == ls.take(j));
    } else {
        assert(ls.take(ls.len() as int) =~= ls);
        assert(drop_trailing_blank_lines(ls) == ls.take(ls.len() as int));
    }
}

/// Cleaning is idempotent: cleaning an already cleaned block changes nothing.
pub proof fn lemma_clean_idempotent(s: Seq<char>)
    ensures
        cleaned(cleaned(s)) == cleaned(s),
{
    let ls = lines_of(s);
    lemma_lines_of_valid(s);
    let a = drop_leading_blank_lines(ls);
    let b = drop_trailing_blank_lines(a);
    lemma_drop_leading_is_skip(ls);
    let j1 = choose|j: int| 0 <= j <= ls.len() && drop_leading_blank_lines(ls) == ls.skip(j);
    lemma_valid_lines_skip(ls, j1);
    lemma_drop_trailing_is_take(a);
    let j2 = choose|j: int| 0 <= j <= a.len() && drop_trailing_blank_lines(a) == a.take(j);
    lemma_valid_lines_take(a, j2);
    lemma_flatten_lines_of(b);
    lemma_drop_leading_first(ls);
    if b.len() > 0 {
        assert(b[0] == a[0]);
        assert(!blank_text(b[0]));
    }
    assert(drop_leading_blank_lines(b) == b);
    lemma_drop_trailing_last(a);
    assert(drop_trailing_blank_lines(b) == b);
}

/// Concatenates `lines[lo..hi]` into one string.
fn concat_lines(lines: &Vec<String>, lo: usize, hi: usize) -> (r: String)
    requires
        lo <= hi <= lines.len(),
    ensures
        r@ == lines.deep_view().subrange(lo as int, hi as int).flatten(),
{
    let mut r = String::new();
    let mut k: usize = lo;
    proof {
        assert(lines.deep_view().subrange(lo as int, lo as int) =~= Seq::<Seq<char>>::empty());
        assert(r@ =~= lines.deep_view().subrange(lo as int, lo as int).flatten());
    }
    while k < hi
        invariant
            lo <= k <= hi <= lines.len(),
            r@ == lines.deep_view().subrange(lo as int, k as int).flatten(),
        decreases hi - k,
    {
        let line: &String = &lines[k];
        r.append(line.as_str());
        proof {
            let dv = lines.deep_view();
            assert(dv.subrange(lo as int, k + 1) =~= dv.subrange(lo as int, k as int).push(dv[k as int]));
            Seq::lemma_flatten_push(dv.subrange(lo as int, k as int), dv[k as int]);
        }
        k += 1;
    }
    r
}

/// Finds the number of leading blank lines of the split.
fn count_leading_blank(lines: &Vec<String>) -> (lo: usize)
    ensures
        lo <= lines.len(),
        forall|i: int| 0 <= i < lo ==> blank_text(#[trigger] lines.deep_view()[i]),
        lo == lines.len() || !blank_text(lines.deep_view()[lo as int]),
{
    let mut lo: usize = 0;
    loop
        invariant
            0 <= lo <= lines.len(),
            forall|i: int| 0 <= i < lo ==> blank_text(#[trigger] lines.deep_view()[i]),
        ensures
            0 <= lo <= lines.len(),
            forall|i: int| 0 <= i < lo ==> blank_text(#[trigger] lines.deep_view()[i]),
            lo == lines.len() || !blank_text(lines.deep_view()[lo as int]),
        decreases lines.len() - lo,
    {
        if lo >= lines.len() {
            break;
        }
        if !is_blank(lines[lo].as_str()) {
            break;
        }
        lo += 1;
    }
    lo
}

/// Removes the blank lines at the beginning of a text, stopping at its
/// first non-blank line.
pub fn remove_blank_at_beginning(s: &str) -> (r: String)
    ensures
        r@ == drop_leading_blank_lines(lines_of(s@)).flatten(),
{
    let lines = split_lines(s);
    let lo = count_leading_blank(&lines);
    let r = concat_lines(&lines, lo, lines.len());
    proof {
        lemma_drop_leading_at(lines.deep_view(), lo as int);
        assert(lines.deep_view().subrange(lo as int, lines.deep_view().len() as int) =~= lines.deep_view().skip(lo as int));
    }
    r
}

/// Removes the blank lines at the end of a text, stopping at its last
/// non-blank line.
pub fn remove_blank_at_end(s: &str) -> (r: String)
    ensures
        r@ == drop_trailing_blank_lines(lines_of(s@)).flatten(),
{
    let lines = split_lines(s);
    let mut hi: usize = lines.len();
    loop
        invariant
            0 <= hi <= lines.len(),
            forall|i: int| hi <= i < lines.len() ==> blank_text(#[trigger] lines.deep_view()[i]),
        ensures
            0 <= hi <= lines.len(),
            forall|i: int| hi <= i < lines.len() ==> blank_text(#[trigger] lines.deep_view()[i]),
            hi == 0 || !blank_text(lines.deep_view()[hi - 1]),
        decreases hi,
    {
        if hi == 0 {
            break;
        }
        if !is_blank(lines[hi - 1].as_str()) {
            break;
        }
        hi -= 1;
    }
    let r = concat_lines(&lines, 0, hi);
    proof {
        lemma_drop_trailing_at(lines.deep_view(), hi as int);
        assert(lines.deep_view().subrange(0, hi as int) =~= lines.deep_view().take(hi as int));
    }
    r
}

/// Removes blank lines at the beginning and at the end of a text.
/// The line terminators of the lines that stay are preserved.
pub fn clean(s: &str) -> (r: String)
    ensures
        r@ == cleaned(s@),
{
    let t = remove_blank_at_beginning(s);
    let r = remove_blank_at_end(t.as_str());
    proof {
        let ls = lines_of(s@);
        lemma_lines_of_valid(s@);
        lemma_drop_leading_is_skip(ls);
        let j = choose|j: int| 0 <= j <= ls.len() && drop_leading_blank_lines(ls) == ls.skip(j);
        lemma_valid_lines_skip(ls, j);
        lemma_flatten_lines_of(drop_leading_blank_lines(ls));
    }
    r
}

/// Removes every blank line of a text, wherever it stands.  The lines
/// that stay keep their own line terminators, so the result is exactly
/// the input text minus its blank lines.
pub fn clean_all_blank(s: &str) -> (r: String)
    ensures
        r@ == without_blank_lines(lines_of(s@)).flatten(),
{
    let lines = split_lines(s);
    let mut r = String::new();
    let mut k: usize = 0;
    proof {
        let dv = lines.deep_view();
        assert(dv.skip(0) =~= dv);
    }
    while k < lines.len()
        invariant
            0 <= k <= lines.len(),
            r@ + without_blank_lines(lines.deep_view().skip(k as int)).flatten()
                == without_blank_lines(lines.deep_view()).flatten(),
        decreases lines.len() - k,
    {
        let ghost dv = lines.deep_view();
        let ghost pre = r@;
        let line: &String = &lines[k];
        let blank = is_blank(line.as_str());
        if !blank {
            r.append(line.as_str());
        }
        proof {
            let cur = dv.skip(k as int);
            assert(cur[0] == dv[k as int]);
            assert(cur.drop_first() =~= dv.skip(k + 1));
            if blank_text(dv[k as int]) {
                assert(without_blank_lines(cur) == without_blank_lines(dv.skip(k + 1)));
            } else {
                assert(without_blank_lines(cur) == seq![cur[0]] + without_blank_lines(dv.skip(k + 1)));
                assert((seq![cur[0]] + without_blank_lines(dv.skip(k + 1))).drop_first()
                    =~= without_blank_lines(dv.skip(k + 1)));
                assert(without_blank_lines(cur).flatten()
                    == cur[0] + without_blank_lines(dv.skip(k + 1)).flatten());
                assert(pre + without_blank_lines(cur).flatten()
                    =~= (pre + cur[0]) + without_blank_lines(dv.skip(k + 1)).flatten());
            }
        }
        k += 1;
    }
    proof {
        assert(lines.deep_view().skip(lines.deep_view().len() as int) =~= Seq::<Seq<char>>::empty());
        assert(r@ + Seq::<char>::empty() =~= r@);
    }
    r
}

} // verus!
