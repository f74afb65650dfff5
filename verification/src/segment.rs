//! The block segmenter: a streaming state machine that walks the lines of a
//! text and yields one block at a time.
//!
//! A block gathers lines until a run of at least `tolerance` separator
//! lines (blank lines, or comment lines when prefixes are configured) is
//! closed by a content line.  With a positive tolerance that content line
//! is stashed as the lookahead and replayed as the first line of the next
//! block; with tolerance zero it stays at the end of the block it closes.
//! Separator lines before the first content line of the whole stream are
//! discarded.  A gathered block made of separator lines only is garbage:
//! it is never yielded, and it ends the iteration.

use vstd::prelude::*;
use crate::classify::is_blank;
use crate::classify::is_comment;
use crate::classify::separator_line;
use crate::lines::lines_of;
use crate::lines::split_lines;

verus! {

/// Every line of the split is a separator line (blank or comment).
pub open spec fn all_separators(ls: Seq<Seq<char>>, prefixes: Seq<Seq<char>>) -> bool {
    forall|i: int| 0 <= i < ls.len() ==> separator_line(#[trigger] ls[i], prefixes)
}

/// The line split with its leading run of separator lines removed.
pub open spec fn skip_leading_separators(ls: Seq<Seq<char>>, prefixes: Seq<Seq<char>>) -> Seq<Seq<char>>
    decreases ls.len(),
{
    if ls.len() > 0 && separator_line(ls[0], prefixes) {
        skip_leading_separators(ls.drop_first(), prefixes)
    } else {
        ls
    }
}

/// One block gathered from the front of the remaining lines, given the
/// number of separator lines seen just before this point within the block.
/// Returns the block's lines, the lines left for the next block (a stashed
/// boundary line stays at their front), and whether a boundary line was
/// stashed rather than consumed.
pub open spec fn gather(cur: Seq<Seq<char>>, tolerance: nat, prefixes: Seq<Seq<char>>, run: nat)
    -> (Seq<Seq<char>>, Seq<Seq<char>>, bool)
    decreases cur.len(),
{
    if cur.len() == 0 {
        (Seq::empty(), cur, false)
    } else {
        let l = cur[0];
        if separator_line(l, prefixes) {
            let sub = gather(cur.drop_first(), tolerance, prefixes, run + 1);
            (seq![l] + sub.0, sub.1, sub.2)
        } else if run >= tolerance {
            if tolerance == 0 {
                (seq![l], cur.drop_first(), false)
            } else {
                (Seq::empty(), cur, true)
            }
        } else {
            let sub = gather(cur.drop_first(), tolerance, prefixes, 0);
            (seq![l] + sub.0, sub.1, sub.2)
        }
    }
}

/// Gathering a block consumes at least one line, except when a boundary
/// line is stashed immediately, which a run below the tolerance excludes.
pub proof fn lemma_gather_consumes(cur: Seq<Seq<char>>, tolerance: nat, prefixes: Seq<Seq<char>>, run: nat)
    ensures
        gather(cur, tolerance, prefixes, run).1.len() <= cur.len(),
        cur.len() > 0 && (tolerance == 0 || run < tolerance)
            ==> gather(cur, tolerance, prefixes, run).1.len() < cur.len(),
    decreases cur.len(),
{
    if cur.len() > 0 {
        let l = cur[0];
        if separator_line(l, prefixes) {
            lemma_gather_consumes(cur.drop_first(), tolerance, prefixes, run + 1);
        } else if run >= tolerance {
        } else {
            lemma_gather_consumes(cur.drop_first(), tolerance, prefixes, 0);
        }
    }
}

/// The blocks yielded one after another from the remaining lines, leading
/// separator lines already skipped.  The sequence ends at the first
/// garbage block: one made of separator lines only.
pub open spec fn blocks_from(cur: Seq<Seq<char>>, tolerance: nat, prefixes: Seq<Seq<char>>) -> Seq<Seq<Seq<char>>>
    decreases cur.len(),
    via blocks_from_decreases
{
    if cur.len() == 0 {
        Seq::empty()
    } else {
        let step = gather(cur, tolerance, prefixes, 0);
        if all_separators(step.0, prefixes) {
            Seq::empty()
        } else {
            seq![step.0] + blocks_from(step.1, tolerance, prefixes)
        }
    }
}

#[via_fn]
proof fn blocks_from_decreases(cur: Seq<Seq<char>>, tolerance: nat, prefixes: Seq<Seq<char>>) {
    lemma_gather_consumes(cur, tolerance, prefixes, 0);
}

/// All blocks of a text under the given tolerance and comment prefixes,
/// as the segmenter yields them.
pub open spec fn blocks_of(s: Seq<char>, tolerance: nat, prefixes: Seq<Seq<char>>) -> Seq<Seq<Seq<char>>> {
    blocks_from(skip_leading_separators(lines_of(s), prefixes), tolerance, prefixes)
}

/// Skipping leading separator lines discards a leading all-separator run
/// wholesale.
proof fn lemma_skip_leading_concat(pre: Seq<Seq<char>>, ls: Seq<Seq<char>>, prefixes: Seq<Seq<char>>)
    requires
        all_separators(pre, prefixes),
    ensures
        skip_leading_separators(pre + ls, prefixes) == skip_leading_separators(ls, prefixes),
    decreases pre.len(),
{
    if pre.len() == 0 {
        assert(pre + ls =~= ls);
    } else {
        assert((pre + ls)[0] == pre[0]);
        assert(separator_line(pre[0], prefixes));
        assert((pre + ls).drop_first() =~= pre.drop_first() + ls);
        assert(forall|i: int| 0 <= i < pre.drop_first().len()
            ==> separator_line(#[trigger] pre.drop_first()[i], prefixes));
        lemma_skip_leading_concat(pre.drop_first(), ls, prefixes);
    }
}

/// Separator lines at the very start of a stream never appear in any
/// produced block and never count toward any tolerance run: a stream with
/// a leading run of separator lines yields exactly the blocks of the
/// stream without it.
pub proof fn lemma_leading_separators_ignored(
    pre: Seq<Seq<char>>,
    ls: Seq<Seq<char>>,
    tolerance: nat,
    prefixes: Seq<Seq<char>>,
)
    requires
        all_separators(pre, prefixes),
    ensures
        blocks_from(skip_leading_separators(pre + ls, prefixes), tolerance, prefixes)
            == blocks_from(skip_leading_separators(ls, prefixes), tolerance, prefixes),
{
    lemma_skip_leading_concat(pre, ls, prefixes);
}

/// At tolerance zero a gathered block is either garbage (separator lines
/// only) or a run of separator lines closed by exactly one content line;
/// no boundary line is ever stashed for the next block.
proof fn lemma_gather_tolerance_zero(cur: Seq<Seq<char>>, prefixes: Seq<Seq<char>>, run: nat)
    ensures
        ({
            let step = gather(cur, 0, prefixes, run);
            &&& !step.2
            &&& all_separators(step.0, prefixes) || (step.0.len() >= 1 && !separator_line(
                step.0.last(),
                prefixes,
            ) && forall|j: int|
                0 <= j < step.0.len() - 1 ==> separator_line(#[trigger] step.0[j], prefixes))
        }),
    decreases cur.len(),
{
    if cur.len() > 0 {
        let l = cur[0];
        if separator_line(l, prefixes) {
            lemma_gather_tolerance_zero(cur.drop_first(), prefixes, run + 1);
            let sub = gather(cur.drop_first(), 0, prefixes, run + 1);
            let b = gather(cur, 0, prefixes, run).0;
            assert(b == seq![l] + sub.0);
            assert(b[0] == l);
            assert(forall|j: int| 1 <= j < b.len() ==> b[j] == #[trigger] sub.0[j - 1]);
            if all_separators(sub.0, prefixes) {
                assert(all_separators(b, prefixes));
            } else {
                assert(b.last() == sub.0.last());
            }
        }
    }
}

/// At tolerance zero, every content line closes the block it stands in:
/// each produced block is a (possibly empty) run of separator lines
/// closed by exactly one content line, which stays at the end of the
/// block it closes rather than being carried to the following one.
pub proof fn lemma_tolerance_zero_blocks(cur: Seq<Seq<char>>, prefixes: Seq<Seq<char>>)
    ensures
        forall|i: int| 0 <= i < blocks_from(cur, 0, prefixes).len() ==> ({
            let b = #[trigger] blocks_from(cur, 0, prefixes)[i];
            &&& b.len() >= 1
            &&& !separator_line(b.last(), prefixes)
            &&& forall|j: int| 0 <= j < b.len() - 1 ==> separator_line(#[trigger] b[j], prefixes)
        }),
    decreases cur.len(),
{
    if cur.len() > 0 {
        let step = gather(cur, 0, prefixes, 0);
        lemma_gather_tolerance_zero(cur, prefixes, 0);
        if !all_separators(step.0, prefixes) {
            lemma_gather_consumes(cur, 0, prefixes, 0);
            lemma_tolerance_zero_blocks(step.1, prefixes);
            let bs = blocks_from(cur, 0, prefixes);
            assert(bs[0] == step.0);
            assert forall|i: int| 0 <= i < bs.len() implies ({
                let b = #[trigger] bs[i];
                &&& b.len() >= 1
                &&& !separator_line(b.last(), prefixes)
                &&& forall|j: int| 0 <= j < b.len() - 1 ==> separator_line(#[trigger] b[j], prefixes)
            }) by {
                if i > 0 {
                    assert(bs[i] == blocks_from(step.1, 0, prefixes)[i - 1]);
                }
            }
        }
    }
}

/// The block segmenter.  It owns the lines of its input, a cursor into
/// them, and a one-line lookahead stash; once exhausted it is not
/// reusable.
pub struct Blocks {
    lines: Vec<String>,
    pos: usize,
    last_line: Option<String>,
    tolerable: usize,
    started: bool,
    comments: Vec<String>,
}

impl Blocks {
    /// The configured tolerance.
    pub closed spec fn tolerance(self) -> nat {
        self.tolerable as nat
    }

    /// The configured comment prefixes.
    pub closed spec fn prefixes(self) -> Seq<Seq<char>> {
        self.comments.deep_view()
    }

    /// The lines not yet consumed, a stashed lookahead line first.
    pub closed spec fn pending(self) -> Seq<Seq<char>> {
        match self.last_line {
            Some(l) => seq![l@] + self.lines.deep_view().skip(self.pos as int),
            None => self.lines.deep_view().skip(self.pos as int),
        }
    }

    /// The lines the next call will gather from: before the first content
    /// line of the stream has been seen, the leading separator lines are
    /// discarded first.
    pub closed spec fn upcoming(self) -> Seq<Seq<char>> {
        if self.started {
            self.pending()
        } else {
            skip_leading_separators(self.pending(), self.prefixes())
        }
    }

    /// The segmenter's internal invariant.
    pub closed spec fn well_formed(self) -> bool {
        &&& self.pos <= self.lines.len()
        &&& (self.last_line is Some ==> self.started)
    }

    /// A segmenter over the lines of the given text, with the given
    /// tolerance and no comment prefixes.
    pub fn new(tolerable: usize, stream: &str) -> (r: Blocks)
        ensures
            r.well_formed(),
            r.tolerance() == tolerable as nat,
            r.prefixes() == Seq::<Seq<char>>::empty(),
            r.upcoming() == skip_leading_separators(lines_of(stream@), Seq::<Seq<char>>::empty()),
    {
        let r = Blocks {
            lines: split_lines(stream),
            pos: 0,
            last_line: None,
            tolerable,
            started: false,
            comments: Vec::new(),
        };
        proof {
            assert(r.comments.deep_view() =~= Seq::<Seq<char>>::empty());
            assert(r.lines.deep_view().skip(0) =~= lines_of(stream@));
        }
        r
    }

    /// A segmenter over the lines of the given text, with the given
    /// tolerance, treating lines that start with one of the given
    /// prefixes (after leading blanks) as blank for separation.
    pub fn new_with_comments(tolerable: usize, stream: &str, comments: &Vec<String>) -> (r: Blocks)
        ensures
            r.well_formed(),
            r.tolerance() == tolerable as nat,
            r.prefixes() == comments.deep_view(),
            r.upcoming() == skip_leading_separators(lines_of(stream@), comments.deep_view()),
    {
        let r = Blocks {
            lines: split_lines(stream),
            pos: 0,
            last_line: None,
            tolerable,
            started: false,
            comments: comments.clone(),
        };
        proof {
            assert(r.comments.deep_view() =~= comments.deep_view());
            assert(r.lines.deep_view().skip(0) =~= lines_of(stream@));
        }
        r
    }

    /// Gathers and returns the next block, or `None` when only garbage
    /// (separator lines, or nothing) remains.  The text of a yielded
    /// block is the concatenation of its lines, terminators kept.
    pub fn next(&mut self) -> (r: Option<String>)
        requires
            old(self).well_formed(),
        ensures
            final(self).well_formed(),
            final(self).tolerance() == old(self).tolerance(),
            final(self).prefixes() == old(self).prefixes(),
            ({
                let step = gather(old(self).upcoming(), old(self).tolerance(), old(self).prefixes(), 0);
                &&& final(self).upcoming() == step.1
                &&& match r {
                    Some(text) => text@ == step.0.flatten()
                        && !all_separators(step.0, old(self).prefixes()),
                    None => all_separators(step.0, old(self).prefixes()),
                }
            }),
    {
        let ghost cur0 = old(self).upcoming();
        let ghost tol = old(self).tolerance();
        let ghost pfx = old(self).prefixes();
        let ghost dv = self.lines.deep_view();

        if self.last_line.is_none() && !self.started {
            loop
                invariant
                    self.lines == old(self).lines,
                    self.tolerable == old(self).tolerable,
                    self.comments == old(self).comments,
                    dv == self.lines.deep_view(),
                    pfx == self.prefixes(),
                    self.last_line is None,
                    !self.started,
                    self.pos <= self.lines.len(),
                    skip_leading_separators(dv.skip(self.pos as int), pfx) == cur0,
                ensures
                    self.lines == old(self).lines,
                    self.tolerable == old(self).tolerable,
                    self.comments == old(self).comments,
                    self.last_line is None,
                    !self.started,
                    self.pos <= self.lines.len(),
                    skip_leading_separators(dv.skip(self.pos as int), pfx) == cur0,
                    self.pos == self.lines.len()
                        || !separator_line(dv[self.pos as int], pfx),
                decreases self.lines.len() - self.pos,
            {
                if self.pos >= self.lines.len() {
                    break;
                }
                let line: &String = &self.lines[self.pos];
                if is_blank(line.as_str()) || is_comment(line.as_str(), &self.comments) {
                    proof {
                        let cur = dv.skip(self.pos as int);
                        assert(cur[0] == dv[self.pos as int]);
                        assert(cur.drop_first() =~= dv.skip(self.pos + 1));
                        assert(skip_leading_separators(cur, pfx)
                            == skip_leading_separators(dv.skip(self.pos + 1), pfx));
                    }
                    self.pos += 1;
                } else {
                    break;
                }
            }
            if self.pos < self.lines.len() {
                self.started = true;
                proof {
                    let cur = dv.skip(self.pos as int);
                    assert(cur[0] == dv[self.pos as int]);
                    assert(skip_leading_separators(cur, pfx) == cur);
                }
            } else {
                proof {
                    assert(dv.skip(self.pos as int) =~= Seq::<Seq<char>>::empty());
                }
            }
        }
        proof {
            assert(self.pending() == cur0);
        }

        let mut block = String::new();
        let mut blank_counter: usize = 0;
        let mut saw_content = false;
        let ghost mut bl: Seq<Seq<char>> = Seq::empty();
        let ghost mut run: nat = 0;
        proof {
            assert(bl + gather(self.pending(), tol, pfx, run).0 =~= gather(cur0, tol, pfx, 0).0);
            assert(bl.flatten() =~= Seq::<char>::empty());
        }
        loop
            invariant_except_break
                blank_counter == if run >= tol { self.tolerable } else { run as usize },
                gather(cur0, tol, pfx, 0).0 == bl + gather(self.pending(), tol, pfx, run).0,
                gather(cur0, tol, pfx, 0).1 == gather(self.pending(), tol, pfx, run).1,
                gather(cur0, tol, pfx, 0).2 == gather(self.pending(), tol, pfx, run).2,
            invariant
                self.lines == old(self).lines,
                self.tolerable == old(self).tolerable,
                self.comments == old(self).comments,
                dv == self.lines.deep_view(),
                pfx == self.prefixes(),
                tol == self.tolerance(),
                self.pos <= self.lines.len(),
                self.last_line is Some ==> self.started,
                self.started || self.pending().len() == 0,
                block@ == bl.flatten(),
                saw_content == !all_separators(bl, pfx),
            ensures
                self.lines == old(self).lines,
                self.tolerable == old(self).tolerable,
                self.comments == old(self).comments,
                self.pos <= self.lines.len(),
                self.last_line is Some ==> self.started,
                self.started || self.pending().len() == 0,
                gather(cur0, tol, pfx, 0).0 == bl,
                gather(cur0, tol, pfx, 0).1 == self.pending(),
                block@ == bl.flatten(),
                saw_content == !all_separators(bl, pfx),
            decreases
                self.lines.len() - self.pos + (if self.last_line is Some { 1int } else { 0int }),
        {
            let ghost pending_old = self.pending();
            let line: String;
            if self.last_line.is_some() {
                line = self.last_line.take().unwrap();
                proof {
                    assert(pending_old[0] == line@);
                    assert(pending_old.drop_first() =~= self.pending());
                }
            } else {
                if self.pos >= self.lines.len() {
                    proof {
                        assert(pending_old =~= Seq::<Seq<char>>::empty());
                        assert(bl + Seq::<Seq<char>>::empty() =~= bl);
                    }
                    break;
                }
                line = self.lines[self.pos].clone();
                proof {
                    assert(pending_old[0] == dv[self.pos as int]);
                    assert(pending_old.drop_first() =~= dv.skip(self.pos + 1));
                }
                self.pos += 1;
            }
            let ghost pending_new = self.pending();
            proof {
                assert(pending_old[0] == line@);
                assert(pending_old.drop_first() == pending_new);
                assert(pending_old.len() > 0);
            }
            let sep = is_blank(line.as_str()) || is_comment(line.as_str(), &self.comments);
            if sep {
                block.append(line.as_str());
                if blank_counter < self.tolerable {
                    blank_counter += 1;
                }
                proof {
                    let sub = gather(pending_new, tol, pfx, run + 1);
                    assert(gather(pending_old, tol, pfx, run)
                        == (seq![line@] + sub.0, sub.1, sub.2));
                    Seq::lemma_flatten_push(bl, line@);
                    assert(bl.push(line@) + sub.0 =~= bl + (seq![line@] + sub.0));
                    let bl2 = bl.push(line@);
                    assert(forall|i: int| 0 <= i < bl.len() ==> bl2[i] == #[trigger] bl[i]);
                    assert(bl2[bl2.len() - 1] == line@);
                    assert(all_separators(bl2, pfx) <==> all_separators(bl, pfx));
                    bl = bl2;
                    run = run + 1;
                }
            } else {
                if blank_counter >= self.tolerable {
                    if self.tolerable == 0 {
                        block.append(line.as_str());
                        saw_content = true;
                        proof {
                            assert(gather(pending_old, tol, pfx, run)
                                == (seq![line@], pending_new, false));
                            Seq::lemma_flatten_push(bl, line@);
                            assert(bl.push(line@) =~= bl + seq![line@]);
                            let bl2 = bl.push(line@);
                            assert(!separator_line(bl2[bl2.len() - 1], pfx));
                            bl = bl2;
                        }
                        break;
                    } else {
                        self.last_line = Some(line);
                        proof {
                            assert(gather(pending_old, tol, pfx, run)
                                == (Seq::<Seq<char>>::empty(), pending_old, true));
                            assert(bl + Seq::<Seq<char>>::empty() =~= bl);
                            assert(self.pending() =~= pending_old);
                        }
                        break;
                    }
                } else {
                    block.append(line.as_str());
                    saw_content = true;
                    blank_counter = 0;
                    proof {
                        let sub = gather(pending_new, tol, pfx, 0);
                        assert(gather(pending_old, tol, pfx, run)
                            == (seq![line@] + sub.0, sub.1, sub.2));
                        Seq::lemma_flatten_push(bl, line@);
                        assert(bl.push(line@) + sub.0 =~= bl + (seq![line@] + sub.0));
                        let bl2 = bl.push(line@);
                        assert(!separator_line(bl2[bl2.len() - 1], pfx));
                        bl = bl2;
                        run = 0;
                    }
                }
            }
        }
        proof {
            if !self.started {
                assert(self.upcoming() == skip_leading_separators(self.pending(), pfx));
                assert(self.pending().len() == 0);
                assert(self.upcoming() == self.pending());
            }
        }
        if saw_content {
            Some(block)
        } else {
            None
        }
    }
}

} // verus!
