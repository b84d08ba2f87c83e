//! Where the parser stands after a given run of characters: the line and
//! the column that diagnostics report.

use vstd::prelude::*;

verus! {

/// The number of columns by which a character that is not a line feed moves
/// the cursor: a tab counts for four, anything else for one.
pub open spec fn char_width(c: char) -> nat {
    if c == '\t' {
        4
    } else {
        1
    }
}

/// The line on which the cursor stands once `consumed` has been read: one
/// more than the number of line feeds in it.
pub open spec fn line_after(consumed: Seq<char>) -> nat
    decreases consumed.len(),
{
    if consumed.len() == 0 {
        1
    } else if consumed.last() == '\n' {
        line_after(consumed.drop_last()) + 1
    } else {
        line_after(consumed.drop_last())
    }
}

/// The column at which the cursor stands once `consumed` has been read: the
/// widths of the characters that follow the last line feed, added up.
pub open spec fn column_after(consumed: Seq<char>) -> nat
    decreases consumed.len(),
{
    if consumed.len() == 0 {
        0
    } else if consumed.last() == '\n' {
        0
    } else {
        column_after(consumed.drop_last()) + char_width(consumed.last())
    }
}

/// What one more character does to the place of the cursor: a line feed
/// starts the next line at column zero, a tab moves four columns on, and any
/// other character one.
pub proof fn lemma_position_step(consumed: Seq<char>, c: char)
    ensures
        line_after(consumed.push(c)) == if c == '\n' {
            line_after(consumed) + 1
        } else {
            line_after(consumed)
        },
        column_after(consumed.push(c)) == if c == '\n' {
            0
        } else if c == '\t' {
            column_after(consumed) + 4
        } else {
            column_after(consumed) + 1
        },
{
    assert(consumed.push(c).drop_last() =~= consumed);
}

/// The line is never less than one and grows by at most one per character;
/// the column grows by at most four per character.
pub proof fn lemma_position_bounds(consumed: Seq<char>)
    ensures
        1 <= line_after(consumed) <= 1 + consumed.len(),
        column_after(consumed) <= 4 * consumed.len(),
    decreases consumed.len(),
{
    if consumed.len() > 0 {
        lemma_position_bounds(consumed.drop_last());
    }
}

/// Reading on never takes the cursor back to an earlier line.
pub proof fn lemma_line_monotonic(text: Seq<char>, i: int, j: int)
    requires
        0 <= i <= j <= text.len(),
    ensures
        line_after(text.take(i)) <= line_after(text.take(j)),
    decreases j - i,
{
    if i < j {
        lemma_line_monotonic(text, i, j - 1);
        assert(text.take(j).drop_last() =~= text.take(j - 1));
    }
}

} // verus!
