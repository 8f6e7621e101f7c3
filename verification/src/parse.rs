//! Reading a puzzle from its flat text form.

use vstd::prelude::*;
use vstd::string::StrSliceExecFns;
use crate::bitcube::digits;
use crate::puzzle::Puzzle;

verus! {

/// Why a text is not a puzzle.
#[derive(Debug, Clone, Copy, PartialEq, Eq, Structural)]
pub enum ParseError {
    /// The text does not have 81 characters.
    WrongLength,
    /// The text has 81 characters, and one of them is neither `.` nor a digit of 1 to 9.
    InvalidCharacter,
}

/// The characters that stand for a cell: `.` for an unknown cell, a digit of
/// 1 to 9 for a known one.
pub open spec fn is_cell_char(c: char) -> bool {
    c == '.' || ('1' <= c && c <= '9')
}

/// The candidates that a character stands for.
pub open spec fn char_candidates(c: char) -> Set<int> {
    if c == '.' {
        digits()
    } else {
        set![c as int - '0' as int]
    }
}

/// A text of 81 cell characters.
pub open spec fn is_puzzle_text(text: Seq<char>) -> bool {
    text.len() == 81 && forall|i: int| 0 <= i < 81 ==> is_cell_char(#[trigger] text[i])
}

/// The grid that a puzzle text stands for.
pub open spec fn text_grid(text: Seq<char>) -> Seq<Set<int>> {
    Seq::new(81, |i: int| char_candidates(text[i]))
}

/// Reads a puzzle from 81 characters in row-major order.
pub fn parse_puzzle(flat: &str) -> (parsed: Result<Puzzle, ParseError>)
    ensures
        match parsed {
            Ok(puzzle) => is_puzzle_text(flat@) && puzzle@ == text_grid(flat@),
            Err(ParseError::WrongLength) => flat@.len() != 81,
            Err(ParseError::InvalidCharacter) => flat@.len() == 81 && !is_puzzle_text(flat@),
        },
{
    if flat.unicode_len() != 81 {
        return Err(ParseError::WrongLength);
    }
    let mut p = Puzzle::new();
    let mut i: usize = 0;
    for c in it: flat.chars()
        invariant
            flat@.len() == 81,
            i == it.index(),
            it.seq() == flat@,
            forall|j: int| 0 <= j < i ==> is_cell_char(#[trigger] flat@[j]),
            forall|j: int| 0 <= j < i ==> p@[j] == char_candidates(flat@[j]),
            forall|j: int| i <= j < 81 ==> p@[j] == digits(),
    {
        if c != '.' {
            if c < '1' || c > '9' {
                return Err(ParseError::InvalidCharacter);
            }
            let val = (c as u32 - '0' as u32) as usize;
            let ghost before = p@;
            p.storage[i].set_value(val);
            assert(p@ =~= before.update(i as int, set![val as int]));
        }
        i += 1;
    }
    assert(p@ =~= text_grid(flat@));
    Ok(p)
}

} // verus!
