//! Counting blocks without materializing their text.
//!
//! The counter recomputes block boundaries independently of the segmenter
//! and on purpose ignores comment prefixes: it is a blank-line-only count.
//! Its run counter is seeded at the tolerance itself, so content standing
//! before any blank line still opens the first block.

use vstd::prelude::*;
use crate::classify::blank_text;
use crate::classify::is_blank;
use crate::lines::lines_of;
use crate::lines::split_lines;

verus! {

/// The number of blocks that the remaining lines yield, given the
/// tolerance, the number of blank lines seen just before this point, and
/// the count gathered so far.  A content line opens a new block exactly
/// when the blank run before it has reached the tolerance; every content
/// line resets the run.
pub open spec fn count_from(ls: Seq<Seq<char>>, tolerance: nat, run: nat, acc: nat) -> nat
    decreases ls.len(),
{
    if ls.len() == 0 {
        acc
    } else if blank_text(ls[0]) {
        count_from(ls.drop_first(), tolerance, run + 1, acc)
    } else {
        count_from(ls.drop_first(), tolerance, 0, if run >= tolerance { acc + 1 } else { acc })
    }
}

/// The number of blocks in a text under the given tolerance, with the run
/// counter seeded at the tolerance and the count at zero.
pub open spec fn block_count(s: Seq<char>, tolerance: nat) -> nat {
    count_from(lines_of(s), tolerance, tolerance, 0)
}

/// Returns the number of blocks in the text, for the given tolerance: the
/// number of non-blank lines before which at least `tolerance` consecutive
/// blank lines stand (content at the very start of the text always opens
/// the first block).  Comment prefixes play no role here.
pub fn count_blocks(tolerance: usize, stream: &str) -> (count: usize)
    ensures
        count == block_count(stream@, tolerance as nat),
{
    let lines = split_lines(stream);
    let ghost dv = lines.deep_view();
    let mut blank_counter: usize = tolerance;
    let ghost mut run: nat = tolerance as nat;
    let mut final_counter: usize = 0;
    let mut k: usize = 0;
    proof {
        assert(dv.skip(0) =~= dv);
    }
    while k < lines.len()
        invariant
            0 <= k <= lines.len(),
            dv == lines.deep_view(),
            final_counter <= k,
            blank_counter == if run >= tolerance as nat { tolerance } else { run as usize },
            count_from(dv.skip(k as int), tolerance as nat, run, final_counter as nat)
                == count_from(dv, tolerance as nat, tolerance as nat, 0),
        decreases lines.len() - k,
    {
        let ghost cur = dv.skip(k as int);
        proof {
            assert(cur[0] == dv[k as int]);
            assert(cur.drop_first() =~= dv.skip(k + 1));
        }
        let line: &String = &lines[k];
        if is_blank(line.as_str()) {
            if blank_counter < tolerance {
                blank_counter += 1;
            }
            proof {
                run = run + 1;
            }
        } else {
            if blank_counter >= tolerance {
                final_counter += 1;
            }
            blank_counter = 0;
            proof {
                run = 0;
            }
        }
        k += 1;
    }
    proof {
        assert(dv.skip(dv.len() as int) =~= Seq::<Seq<char>>::empty());
    }
    final_counter
}

/// The number of blocks in the text, for the given tolerance:
/// an alias of [`count_blocks`], kept under its older name.
pub fn blank_lines(tolerance: usize, stream: &str) -> (count: usize)
    ensures
        count == block_count(stream@, tolerance as nat),
{
    count_blocks(tolerance, stream)
}

} // verus!
