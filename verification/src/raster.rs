//! What the tokens of the raster files stand for.

use crate::game::agent::{Agent, AgentType};
use crate::game::game::Model;
use crate::game::grid::{LoadError, Terrain};
use vstd::prelude::*;

verus! {

/// The characters that the rasters are read by.
pub const PLUS: u8 = 43;

pub const DOT: u8 = 46;

pub const DIGIT_0: u8 = 48;

pub const DIGIT_1: u8 = 49;

pub const DIGIT_2: u8 = 50;

pub const DIGIT_3: u8 = 51;

pub const DIGIT_4: u8 = 52;

pub const DIGIT_5: u8 = 53;

pub const DIGIT_6: u8 = 54;

pub const DIGIT_9: u8 = 57;

pub const LETTER_C: u8 = 99;

pub const SPACE: u8 = 32;

/// `b` is one of the characters `0` to `9`.
pub open spec fn is_digit(b: u8) -> bool {
    48 <= b <= 57
}

/// Every byte of `text` is a digit.
pub open spec fn all_digits(text: Seq<u8>) -> bool {
    forall|i: int| 0 <= i < text.len() ==> is_digit(#[trigger] text[i])
}

/// The number that a string of digits writes in base ten.
pub open spec fn digits_value(digits: Seq<u8>) -> int
    decreases digits.len(),
{
    if digits.len() == 0 {
        0
    } else {
        digits_value(digits.drop_last()) * 10 + (digits.last() - 48)
    }
}

/// `text` without a leading plus sign.
pub open spec fn unsigned_body(text: Seq<u8>) -> Seq<u8> {
    if text.len() > 0 && text[0] == 43 {
        text.skip(1)
    } else {
        text
    }
}

/// The number that `text` writes: an optional plus sign and then one digit or
/// more, with a value that fits in 32 bits. Anything else writes no number.
pub open spec fn decimal_u32(text: Seq<u8>) -> Option<u32> {
    let body = unsigned_body(text);
    if body.len() > 0 && all_digits(body) && digits_value(body) <= u32::MAX {
        Some(digits_value(body) as u32)
    } else {
        None
    }
}

/// A string of digits is worth no less than any of its beginnings.
proof fn lemma_value_grows(digits: Seq<u8>, n: int)
    requires
        all_digits(digits),
        0 <= n <= digits.len(),
    ensures
        0 <= digits_value(digits.take(n)) <= digits_value(digits),
    decreases digits.len() - n,
{
    if n == digits.len() {
        assert(digits.take(n) =~= digits);
        lemma_value_nonnegative(digits);
    } else {
        lemma_value_grows(digits, n + 1);
        let longer = digits.take(n + 1);
        assert(longer.drop_last() =~= digits.take(n));
        assert(is_digit(digits[n]));
        assert(all_digits(digits.take(n))) by {
            assert forall|i: int| 0 <= i < digits.take(n).len() implies is_digit(
                #[trigger] digits.take(n)[i],
            ) by {
                assert(is_digit(digits[i]));
            }
        }
        lemma_value_nonnegative(digits.take(n));
    }
}

proof fn lemma_value_nonnegative(digits: Seq<u8>)
    requires
        all_digits(digits),
    ensures
        digits_value(digits) >= 0,
    decreases digits.len(),
{
    if digits.len() > 0 {
        assert(all_digits(digits.drop_last())) by {
            assert forall|i: int| 0 <= i < digits.drop_last().len() implies is_digit(
                #[trigger] digits.drop_last()[i],
            ) by {
                assert(is_digit(digits[i]));
            }
        }
        lemma_value_nonnegative(digits.drop_last());
        assert(is_digit(digits[digits.len() - 1]));
    }
}

/// Reads `text` as a number in base ten.
pub fn parse_u32(text: &[u8]) -> (number: Option<u32>)
    ensures
        number == decimal_u32(text@),
{
    let start: usize = if text.len() > 0 && text[0] == PLUS {
        1
    } else {
        0
    };
    let ghost body = unsigned_body(text@);
    assert(body =~= text@.skip(start as int));
    if start == text.len() {
        return None;
    }
    let mut value: u64 = 0;
    let mut i: usize = start;
    assert(body.take(0) =~= Seq::<u8>::empty());
    while i < text.len()
        invariant
            start <= i <= text@.len(),
            body == unsigned_body(text@),
            body == text@.skip(start as int),
            body.len() > 0,
            all_digits(body.take(i - start)),
            value == digits_value(body.take(i - start)),
            value <= u32::MAX,
        decreases text@.len() - i,
    {
        let b = text[i];
        let ghost seen = body.take(i - start);
        let ghost next = body.take(i - start + 1);
        assert(next.drop_last() =~= seen && next.last() == b);
        if b < DIGIT_0 || b > DIGIT_9 {
            assert(!is_digit(body[i - start]));
            return None;
        }
        let digit = (b - DIGIT_0) as u64;
        value = value * 10 + digit;
        assert(value == digits_value(next));
        assert(all_digits(next)) by {
            assert forall|k: int| 0 <= k < next.len() implies is_digit(#[trigger] next[k]) by {
                if k < seen.len() {
                    assert(seen[k] == next[k]);
                }
            }
        }
        if value > u32::MAX as u64 {
            proof {
                if all_digits(body) {
                    lemma_value_grows(body, i - start + 1);
                }
            }
            return None;
        }
        i = i + 1;
    }
    assert(body.take(i - start) =~= body);
    Some(value as u32)
}

/// The population that a token of a population raster gives a cell: its
/// number, and zero where it writes none.
pub open spec fn count_of(token: Seq<u8>) -> u32 {
    match decimal_u32(token) {
        Some(n) => n,
        None => 0u32,
    }
}

/// Reads a token of a population raster.
pub fn read_count(token: &[u8]) -> (count: u32)
    ensures
        count == count_of(token@),
{
    match parse_u32(token) {
        Some(n) => n,
        None => 0,
    }
}

/// What a token of a grid raster stands for: the terrain of the cell, and the
/// age class of the agent that stands on it, if any.
///
/// - `0` and `0.0` are blocked cells and `1` is a road.
/// - `20` and a number is the shelter with that number; `20` and anything
///   else is an error.
/// - `3`, `4`, `5` and `6` are an adult, a child, a teen and an elder, each
///   on a road.
/// - `c` and a cost is other ground. The cost is a decimal fraction, which
///   the caller reads and rounds up; where it could not be read, the cell is
///   blocked.
/// - Anything else is a blocked cell.
pub open spec fn cell_of_token(token: Seq<u8>, custom_cost: Option<u32>) -> Result<
    (Terrain, Option<AgentType>),
    LoadError,
> {
    if token == seq![48u8] || token == seq![48u8, 46u8, 48u8] {
        Ok((Terrain::Blocked, None))
    } else if token == seq![49u8] {
        Ok((Terrain::Road, None))
    } else if token.len() >= 2 && token[0] == 50 && token[1] == 48 {
        match decimal_u32(token.skip(2)) {
            Some(shelter_id) => Ok((Terrain::Shelter(shelter_id), None)),
            None => Err(LoadError::InvalidShelter),
        }
    } else if token == seq![51u8] {
        Ok((Terrain::Road, Some(AgentType::Adult)))
    } else if token == seq![52u8] {
        Ok((Terrain::Road, Some(AgentType::Child)))
    } else if token == seq![53u8] {
        Ok((Terrain::Road, Some(AgentType::Teen)))
    } else if token == seq![54u8] {
        Ok((Terrain::Road, Some(AgentType::Elder)))
    } else if token.len() >= 1 && token[0] == 99 {
        match custom_cost {
            Some(cost) => Ok((Terrain::Custom(cost), None)),
            None => Ok((Terrain::Blocked, None)),
        }
    } else {
        Ok((Terrain::Blocked, None))
    }
}

/// Reads a token of a grid raster. `custom_cost` is the cost that follows a
/// leading `c`, rounded up, if the caller could read one.
pub fn read_cell(token: &[u8], custom_cost: Option<u32>) -> (cell: Result<
    (Terrain, Option<AgentType>),
    LoadError,
>)
    ensures
        cell == cell_of_token(token@, custom_cost),
{
    let n = token.len();
    if n == 1 && token[0] == DIGIT_0 {
        assert(token@ =~= seq![48u8]);
        return Ok((Terrain::Blocked, None));
    }
    if n == 3 && token[0] == DIGIT_0 && token[1] == DOT && token[2] == DIGIT_0 {
        assert(token@ =~= seq![48u8, 46u8, 48u8]);
        return Ok((Terrain::Blocked, None));
    }
    assert(token@ != seq![48u8] && token@ != seq![48u8, 46u8, 48u8]) by {
        if token@ == seq![48u8] {
            assert(seq![48u8].len() == 1 && seq![48u8][0] == 48u8);
        }
        if token@ == seq![48u8, 46u8, 48u8] {
            let s = seq![48u8, 46u8, 48u8];
            assert(s.len() == 3 && s[0] == 48u8 && s[1] == 46u8 && s[2] == 48u8);
        }
    }
    if n >= 2 && token[0] == DIGIT_2 && token[1] == DIGIT_0 {
        assert(token@ != seq![49u8]) by {
            assert(seq![49u8].len() == 1);
        }
        let rest = vstd::slice::slice_subrange(token, 2, n);
        assert(rest@ =~= token@.skip(2));
        return match parse_u32(rest) {
            Some(shelter_id) => Ok((Terrain::Shelter(shelter_id), None)),
            None => Err(LoadError::InvalidShelter),
        };
    }
    if n == 1 {
        let b = token[0];
        assert(token@ =~= seq![b]);
        assert(forall|c: u8| seq![b] == seq![c] ==> b == c) by {
            assert forall|c: u8| seq![b] == seq![c] implies b == c by {
                assert(seq![b][0] == seq![c][0]);
            }
        }
        if b == DIGIT_1 {
            return Ok((Terrain::Road, None));
        }
        if b == DIGIT_3 {
            return Ok((Terrain::Road, Some(AgentType::Adult)));
        }
        if b == DIGIT_4 {
            return Ok((Terrain::Road, Some(AgentType::Child)));
        }
        if b == DIGIT_5 {
            return Ok((Terrain::Road, Some(AgentType::Teen)));
        }
        if b == DIGIT_6 {
            return Ok((Terrain::Road, Some(AgentType::Elder)));
        }
    } else {
        assert(forall|c: u8| token@ != seq![c]) by {
            assert forall|c: u8| token@ != seq![c] by {
                assert(seq![c].len() == 1);
            }
        }
    }
    if n >= 1 && token[0] == LETTER_C {
        return match custom_cost {
            Some(cost) => Ok((Terrain::Custom(cost), None)),
            None => Ok((Terrain::Blocked, None)),
        };
    }
    Ok((Terrain::Blocked, None))
}

/// The populations that the first `ncols` tokens of a line give.
pub open spec fn counts_of_row(line: Seq<Vec<u8>>, ncols: int) -> Seq<u32> {
    Seq::new(ncols as nat, |x: int| count_of(line[x]@))
}

/// The rows of populations that the first `m` lines give: one for every line
/// of `ncols` tokens or more, in their order. A shorter line gives none.
pub open spec fn counts_of_rows(lines: Seq<Vec<Vec<u8>>>, ncols: int, m: int) -> Seq<Seq<u32>>
    decreases m,
{
    if m <= 0 {
        Seq::empty()
    } else {
        let before = counts_of_rows(lines, ncols, m - 1);
        if lines[m - 1]@.len() >= ncols {
            before.push(counts_of_row(lines[m - 1]@, ncols))
        } else {
            before
        }
    }
}

/// Reads the lines of a population raster that follow its header. Every line
/// of `ncols` tokens or more gives a row, of which the first `ncols` tokens
/// count; the shorter lines are passed over. The reading fails unless this
/// gives `nrows` rows.
pub fn read_counts(lines: &Vec<Vec<Vec<u8>>>, ncols: u32, nrows: u32) -> (outcome: Result<
    Vec<Vec<u32>>,
    LoadError,
>)
    ensures
        match outcome {
            Ok(population) => {
                let rows = counts_of_rows(lines@, ncols as int, lines@.len() as int);
                &&& rows.len() == nrows
                &&& population@.len() == nrows
                &&& forall|y: int| 0 <= y < nrows ==> (#[trigger] population@[y])@ == rows[y]
            },
            Err(e) => e == LoadError::DimensionMismatch && counts_of_rows(
                lines@,
                ncols as int,
                lines@.len() as int,
            ).len() != nrows,
        },
{
    let mut population: Vec<Vec<u32>> = Vec::new();
    let width = ncols as usize;
    let mut y: usize = 0;
    while y < lines.len()
        invariant
            y <= lines@.len(),
            width == ncols,
            population@.len() == counts_of_rows(lines@, ncols as int, y as int).len(),
            forall|r: int|
                0 <= r < population@.len() ==> (#[trigger] population@[r])@ == counts_of_rows(
                    lines@,
                    ncols as int,
                    y as int,
                )[r],
        decreases lines@.len() - y,
    {
        let line = &lines[y];
        let ghost before = counts_of_rows(lines@, ncols as int, y as int);
        if line.len() >= width {
            let mut row: Vec<u32> = Vec::new();
            let mut x: usize = 0;
            while x < width
                invariant
                    x <= width,
                    width <= line@.len(),
                    row@.len() == x,
                    forall|c: int| 0 <= c < x ==> (#[trigger] row@[c]) == count_of(line@[c]@),
                decreases width - x,
            {
                row.push(read_count(line[x].as_slice()));
                x = x + 1;
            }
            assert(row@ =~= counts_of_row(line@, ncols as int));
            let ghost earlier = population@;
            population.push(row);
            assert forall|r: int| 0 <= r < population@.len() implies (#[trigger] population@[r])@
                == before.push(counts_of_row(line@, ncols as int))[r] by {
                if r < before.len() {
                    assert(population@[r] == earlier[r]);
                }
            }
        }
        y = y + 1;
    }
    if population.len() != nrows as usize {
        return Err(LoadError::DimensionMismatch);
    }
    Ok(population)
}

/// A token of a grid raster: its text, and the cost that follows a leading
/// `c`, rounded up, where the text has one that could be read.
pub struct Token {
    pub text: Vec<u8>,
    pub cost: Option<u32>,
}

/// Where the reading of a grid raster failed, and why: the token at place
/// `x` of line `y` stands for nothing.
#[derive(Debug, Clone, Copy, PartialEq, Eq)]
pub struct Misread {
    pub x: usize,
    pub y: usize,
    pub error: LoadError,
}

/// What `token` stands for.
pub open spec fn token_cell(token: Token) -> Result<(Terrain, Option<AgentType>), LoadError> {
    cell_of_token(token.text@, token.cost)
}

/// The line gives a row of `ncols` cells: it has that many tokens or more.
pub open spec fn counts(line: Seq<Token>, ncols: int) -> bool {
    line.len() >= ncols
}

/// Some token that gives a cell stands for nothing.
pub open spec fn unreadable(lines: Seq<Vec<Token>>, ncols: int) -> bool {
    exists|x: int, y: int|
        0 <= y < lines.len() && counts(lines[y]@, ncols) && 0 <= x < ncols && (
        #[trigger] token_cell(lines[y]@[x])) is Err
}

/// The token at place `x` of line `y` is the first that gives a cell and
/// stands for nothing, line by line and from left to right.
pub open spec fn first_unreadable(lines: Seq<Vec<Token>>, ncols: int, x: int, y: int) -> bool {
    &&& 0 <= y < lines.len()
    &&& counts(lines[y]@, ncols)
    &&& 0 <= x < ncols
    &&& token_cell(lines[y]@[x]) is Err
    &&& forall|c: int, r: int|
        0 <= r <= y && counts(lines[r]@, ncols) && 0 <= c < ncols && (r < y || c < x) ==> (
        #[trigger] token_cell(lines[r]@[c])) is Ok
}

/// The terrain that `lines` give cell `(x, y)`: what the token of the cell
/// stands for, and a blocked cell where the raster has no such line or the
/// line is too short.
pub open spec fn terrain_read(lines: Seq<Vec<Token>>, ncols: int, x: int, y: int) -> Terrain {
    if y < lines.len() && counts(lines[y]@, ncols) {
        match token_cell(lines[y]@[x]) {
            Ok((terrain, _)) => terrain,
            Err(_) => Terrain::Blocked,
        }
    } else {
        Terrain::Blocked
    }
}

/// The agents that the first `n` tokens of line `y` place, from left to
/// right, each as `(x, y, age class)`.
pub open spec fn agents_of_row(line: Seq<Token>, y: int, n: int) -> Seq<(u32, u32, AgentType)>
    decreases n,
{
    if n <= 0 {
        Seq::empty()
    } else {
        let before = agents_of_row(line, y, n - 1);
        match token_cell(line[n - 1]) {
            Ok((_, Some(agent_type))) => before.push(((n - 1) as u32, y as u32, agent_type)),
            _ => before,
        }
    }
}

/// The agents that the first `m` lines place, line by line; a line that is
/// too short places none.
pub open spec fn agents_of_rows(lines: Seq<Vec<Token>>, ncols: int, m: int) -> Seq<
    (u32, u32, AgentType),
>
    decreases m,
{
    if m <= 0 {
        Seq::empty()
    } else {
        let before = agents_of_rows(lines, ncols, m - 1);
        if counts(lines[m - 1]@, ncols) {
            before + agents_of_row(lines[m - 1]@, m - 1, ncols)
        } else {
            before
        }
    }
}

/// `nrows` rows of `ncols` blocked cells.
pub fn blocked_rows(ncols: u32, nrows: u32) -> (terrain: Vec<Vec<Terrain>>)
    ensures
        terrain@.len() == nrows,
        forall|y: int| 0 <= y < nrows ==> (#[trigger] terrain@[y])@.len() == ncols,
        forall|x: int, y: int|
            0 <= y < nrows && 0 <= x < ncols ==> (#[trigger] terrain@[y]@[x]) == Terrain::Blocked,
{
    let mut terrain: Vec<Vec<Terrain>> = Vec::new();
    let mut y: u32 = 0;
    while y < nrows
        invariant
            y <= nrows,
            terrain@.len() == y,
            forall|r: int| 0 <= r < y ==> (#[trigger] terrain@[r])@.len() == ncols,
            forall|c: int, r: int|
                0 <= r < y && 0 <= c < ncols ==> (#[trigger] terrain@[r]@[c]) == Terrain::Blocked,
        decreases nrows - y,
    {
        let mut row: Vec<Terrain> = Vec::new();
        let mut x: u32 = 0;
        while x < ncols
            invariant
                x <= ncols,
                row@.len() == x,
                forall|c: int| 0 <= c < x ==> (#[trigger] row@[c]) == Terrain::Blocked,
            decreases ncols - x,
        {
            row.push(Terrain::Blocked);
            x = x + 1;
        }
        terrain.push(row);
        y = y + 1;
    }
    terrain
}

/// Reads the lines of a grid raster that follow its header: the terrain of
/// `nrows` rows of `ncols` cells, and the agents that the tokens place, line
/// by line and from left to right.
///
/// Line `y` gives row `y`, and of its tokens the first `ncols` count. A line
/// with fewer tokens is passed over, and a row without a line stays blocked.
/// A token that names a shelter without a number fails the reading, and the
/// first such token is reported.
///
/// No line with `ncols` tokens may stand below row `nrows`.
pub fn read_rows(lines: &Vec<Vec<Token>>, ncols: u32, nrows: u32) -> (outcome: Result<
    (Vec<Vec<Terrain>>, Vec<(u32, u32, AgentType)>),
    Misread,
>)
    requires
        forall|y: int|
            0 <= y < lines@.len() && ncols > 0 && counts((#[trigger] lines@[y])@, ncols as int)
                ==> y < nrows,
    ensures
        match outcome {
            Ok((terrain, positions)) => {
                &&& !unreadable(lines@, ncols as int)
                &&& terrain@.len() == nrows
                &&& forall|y: int| 0 <= y < nrows ==> (#[trigger] terrain@[y])@.len() == ncols
                &&& forall|x: int, y: int|
                    0 <= y < nrows && 0 <= x < ncols ==> (#[trigger] terrain@[y]@[x])
                        == terrain_read(lines@, ncols as int, x, y)
                &&& positions@ == agents_of_rows(lines@, ncols as int, lines@.len() as int)
            },
            Err(misread) => {
                &&& first_unreadable(lines@, ncols as int, misread.x as int, misread.y as int)
                &&& token_cell(lines@[misread.y as int]@[misread.x as int]) == Err::<
                    (Terrain, Option<AgentType>),
                    LoadError,
                >(misread.error)
                &&& misread.error == LoadError::InvalidShelter
            },
        },
{
    let mut terrain = blocked_rows(ncols, nrows);
    let mut positions: Vec<(u32, u32, AgentType)> = Vec::new();
    let width = ncols as usize;
    let mut y: usize = 0;
    while y < lines.len()
        invariant
            y <= lines@.len(),
            width == ncols,
            forall|r: int|
                0 <= r < lines@.len() && ncols > 0 && counts((#[trigger] lines@[r])@, ncols as int)
                    ==> r < nrows,
            terrain@.len() == nrows,
            forall|r: int| 0 <= r < nrows ==> (#[trigger] terrain@[r])@.len() == ncols,
            forall|c: int, r: int|
                0 <= r < nrows && 0 <= c < ncols ==> (#[trigger] terrain@[r]@[c]) == if r < y {
                    terrain_read(lines@, ncols as int, c, r)
                } else {
                    Terrain::Blocked
                },
            forall|c: int, r: int|
                0 <= r < y && counts(lines@[r]@, ncols as int) && 0 <= c < ncols ==> (
                #[trigger] token_cell(lines@[r]@[c])) is Ok,
            positions@ == agents_of_rows(lines@, ncols as int, y as int),
        decreases lines@.len() - y,
    {
        let line = &lines[y];
        if line.len() >= width {
            let mut x: usize = 0;
            while x < width
                invariant
                    x <= width,
                    width == ncols,
                    y < lines@.len(),
                    line@ == lines@[y as int]@,
                    counts(line@, ncols as int),
                    ncols > 0 ==> y < nrows,
                    terrain@.len() == nrows,
                    forall|r: int| 0 <= r < nrows ==> (#[trigger] terrain@[r])@.len() == ncols,
                    forall|c: int, r: int|
                        0 <= r < nrows && 0 <= c < ncols ==> (#[trigger] terrain@[r]@[c]) == if r
                            < y || (r == y && c < x) {
                            terrain_read(lines@, ncols as int, c, r)
                        } else {
                            Terrain::Blocked
                        },
                    forall|c: int, r: int|
                        0 <= r < y && counts(lines@[r]@, ncols as int) && 0 <= c < ncols ==> (
                        #[trigger] token_cell(lines@[r]@[c])) is Ok,
                    forall|c: int| 0 <= c < x ==> (#[trigger] token_cell(line@[c])) is Ok,
                    positions@ == agents_of_rows(lines@, ncols as int, y as int) + agents_of_row(
                        line@,
                        y as int,
                        x as int,
                    ),
                decreases width - x,
            {
                let token = &line[x];
                match read_cell(token.text.as_slice(), token.cost) {
                    Err(error) => {
                        assert(token_cell(lines@[y as int]@[x as int]) is Err);
                        assert forall|c: int, r: int|
                            0 <= r <= y && counts(lines@[r]@, ncols as int) && 0 <= c < ncols && (r
                                < y || c < x) implies (#[trigger] token_cell(lines@[r]@[c])) is Ok by {
                            if r == y {
                                assert(token_cell(line@[c]) is Ok);
                            }
                        }
                        return Err(Misread { x, y, error });
                    },
                    Ok((cell, agent)) => {
                        terrain[y][x] = cell;
                        if let Some(agent_type) = agent {
                            positions.push((x as u32, y as u32, agent_type));
                        }
                    },
                }
                x = x + 1;
            }
            assert forall|c: int, r: int|
                0 <= r < y + 1 && counts(lines@[r]@, ncols as int) && 0 <= c < ncols implies (
            #[trigger] token_cell(lines@[r]@[c])) is Ok by {
                if r == y {
                    assert(token_cell(line@[c]) is Ok);
                }
            }
        }
        y = y + 1;
    }
    Ok((terrain, positions))
}

/// The digits that write `n` in base ten, without leading zeros.
pub open spec fn decimal_digits(n: nat) -> Seq<u8>
    decreases n,
{
    if n < 10 {
        seq![(48 + n) as u8]
    } else {
        decimal_digits(n / 10).push((48 + n % 10) as u8)
    }
}

/// The digits that write `n` in two places or more: one zero before a single
/// digit.
pub open spec fn padded_digits(n: nat) -> Seq<u8> {
    if n < 10 {
        seq![48u8] + decimal_digits(n)
    } else {
        decimal_digits(n)
    }
}

/// What is written is read back: the digits of `n` are digits and write `n`.
pub proof fn lemma_digits_read_back(n: nat)
    ensures
        decimal_digits(n).len() > 0,
        all_digits(decimal_digits(n)),
        digits_value(decimal_digits(n)) == n,
        unsigned_body(decimal_digits(n)) == decimal_digits(n),
        n <= u32::MAX ==> decimal_u32(decimal_digits(n)) == Some(n as u32),
    decreases n,
{
    let digits = decimal_digits(n);
    if n < 10 {
        assert(digits.drop_last() =~= Seq::<u8>::empty());
        assert(digits_value(digits.drop_last()) == 0);
        assert(digits.last() == (48 + n) as u8);
    } else {
        lemma_digits_read_back(n / 10);
        let front = decimal_digits(n / 10);
        assert(digits.drop_last() =~= front);
        assert(digits.last() == (48 + n % 10) as u8);
        assert forall|i: int| 0 <= i < digits.len() implies is_digit(#[trigger] digits[i]) by {
            if i < front.len() {
                assert(digits[i] == front[i]);
            }
        }
        assert(digits[0] == front[0]);
    }
    assert(is_digit(digits[0]));
}

/// With a zero in front the digits of `n` still write `n`.
pub proof fn lemma_padded_read_back(n: nat)
    requires
        n <= u32::MAX,
    ensures
        decimal_u32(padded_digits(n)) == Some(n as u32),
{
    lemma_digits_read_back(n);
    if n < 10 {
        let digits = padded_digits(n);
        assert(digits =~= seq![48u8, (48 + n) as u8]);
        assert(digits.drop_last() =~= seq![48u8]);
        assert(seq![48u8].drop_last() =~= Seq::<u8>::empty());
        assert(digits_value(Seq::<u8>::empty()) == 0);
        assert(digits_value(seq![48u8]) == 0);
        assert(digits_value(digits) == n);
        assert(unsigned_body(digits) == digits);
    }
}

/// Writes `n` in base ten.
pub fn write_decimal(n: u32) -> (digits: Vec<u8>)
    ensures
        digits@ == decimal_digits(n as nat),
    decreases n,
{
    if n < 10 {
        let mut digits: Vec<u8> = Vec::new();
        digits.push(DIGIT_0 + n as u8);
        assert(digits@ =~= decimal_digits(n as nat));
        digits
    } else {
        let mut digits = write_decimal(n / 10);
        digits.push(DIGIT_0 + (n % 10) as u8);
        digits
    }
}

/// The token that shows a cell without an agent: `0` for a blocked cell, `1`
/// for a road, `20` and the number of a shelter in two places or more, and
/// `c` and the cost of other ground.
pub open spec fn terrain_token(terrain: Terrain) -> Seq<u8> {
    match terrain {
        Terrain::Blocked => seq![48u8],
        Terrain::Road => seq![49u8],
        Terrain::Shelter(shelter_id) => seq![50u8, 48u8] + padded_digits(shelter_id as nat),
        Terrain::Custom(cost) => seq![99u8] + decimal_digits(cost as nat),
    }
}

/// The token that shows an agent: `3` for a child, `4` for a teen, `5` for an
/// adult, `6` for an elder, and `5` for any other class.
pub open spec fn class_token(agent_type: AgentType) -> Seq<u8> {
    match agent_type {
        AgentType::Child => seq![51u8],
        AgentType::Teen => seq![52u8],
        AgentType::Adult => seq![53u8],
        AgentType::Elder => seq![54u8],
        AgentType::Custom(_) => seq![53u8],
    }
}

/// The age class of the first of `agents` with identifier `id`.
pub open spec fn class_of(agents: Seq<Agent>, id: usize) -> Option<AgentType>
    decreases agents.len(),
{
    if agents.len() == 0 {
        None
    } else if agents[0].id == id {
        Some(agents[0].agent_type)
    } else {
        class_of(agents.skip(1), id)
    }
}

/// The token that shows a cell of terrain `terrain` on which `occupants`
/// stand: the class of the first occupant, `0` where no agent has its
/// identifier, and the terrain where nobody stands on the cell.
pub open spec fn shown_token(terrain: Terrain, occupants: Seq<usize>, agents: Seq<Agent>) -> Seq<u8> {
    if occupants.len() == 0 {
        terrain_token(terrain)
    } else {
        match class_of(agents, occupants[0]) {
            Some(agent_type) => class_token(agent_type),
            None => seq![48u8],
        }
    }
}

/// The token for a cell without an agent.
pub fn write_terrain(terrain: Terrain) -> (token: Vec<u8>)
    ensures
        token@ == terrain_token(terrain),
{
    let mut token: Vec<u8> = Vec::new();
    match terrain {
        Terrain::Blocked => {
            token.push(DIGIT_0);
        },
        Terrain::Road => {
            token.push(DIGIT_1);
        },
        Terrain::Shelter(shelter_id) => {
            token.push(DIGIT_2);
            token.push(DIGIT_0);
            if shelter_id < 10 {
                token.push(DIGIT_0);
            }
            let mut digits = write_decimal(shelter_id);
            token.append(&mut digits);
        },
        Terrain::Custom(cost) => {
            token.push(LETTER_C);
            let mut digits = write_decimal(cost);
            token.append(&mut digits);
        },
    }
    assert(token@ =~= terrain_token(terrain));
    token
}

/// The age class of the first of `agents` with identifier `id`.
pub fn find_class(agents: &Vec<Agent>, id: usize) -> (found: Option<AgentType>)
    ensures
        found == class_of(agents@, id),
{
    let mut i: usize = 0;
    assert(agents@.skip(0) =~= agents@);
    while i < agents.len()
        invariant
            i <= agents@.len(),
            class_of(agents@, id) == class_of(agents@.skip(i as int), id),
        decreases agents@.len() - i,
    {
        let ghost rest = agents@.skip(i as int);
        assert(rest[0] == agents@[i as int]);
        if agents[i].id == id {
            return Some(agents[i].agent_type);
        }
        assert(rest.skip(1) =~= agents@.skip(i as int + 1));
        i = i + 1;
    }
    assert(agents@.skip(i as int).len() == 0);
    None
}

/// The token that shows a cell of the raster of a model.
pub fn write_cell(terrain: Terrain, occupants: &Vec<usize>, agents: &Vec<Agent>) -> (token: Vec<u8>)
    ensures
        token@ == shown_token(terrain, occupants@, agents@),
{
    if occupants.len() == 0 {
        return write_terrain(terrain);
    }
    let mut token: Vec<u8> = Vec::new();
    let code = match find_class(agents, occupants[0]) {
        Some(AgentType::Child) => DIGIT_3,
        Some(AgentType::Teen) => DIGIT_4,
        Some(AgentType::Adult) => DIGIT_5,
        Some(AgentType::Elder) => DIGIT_6,
        Some(AgentType::Custom(_)) => DIGIT_5,
        None => DIGIT_0,
    };
    token.push(code);
    assert(token@ =~= shown_token(terrain, occupants@, agents@));
    token
}

/// The first `n` tokens of row `y` of the raster of a model, with a space
/// between one token and the next.
pub open spec fn row_text(model: &Model, y: int, n: int) -> Seq<u8>
    decreases n,
{
    if n <= 0 {
        Seq::empty()
    } else {
        let token = shown_token(
            model.grid.terrain@[y]@[n - 1],
            model.grid.agents_in_cell@[y]@[n - 1]@,
            model.agents@,
        );
        if n == 1 {
            token
        } else {
            row_text(model, y, n - 1) + seq![32u8] + token
        }
    }
}

/// Writes row `y` of the raster of the model: one token for every cell, in
/// their order, with a space between one and the next.
pub fn write_row(model: &Model, y: usize) -> (line: Vec<u8>)
    requires
        y < model.grid.terrain@.len(),
        y < model.grid.agents_in_cell@.len(),
        model.grid.terrain@[y as int]@.len() >= model.grid.width,
        model.grid.agents_in_cell@[y as int]@.len() >= model.grid.width,
    ensures
        line@ == row_text(model, y as int, model.grid.width as int),
{
    let mut line: Vec<u8> = Vec::new();
    let width = model.grid.width as usize;
    let mut x: usize = 0;
    while x < width
        invariant
            x <= width,
            width == model.grid.width,
            y < model.grid.terrain@.len(),
            y < model.grid.agents_in_cell@.len(),
            model.grid.terrain@[y as int]@.len() >= width,
            model.grid.agents_in_cell@[y as int]@.len() >= width,
            line@ == row_text(model, y as int, x as int),
        decreases width - x,
    {
        if x > 0 {
            line.push(SPACE);
        }
        let mut token = write_cell(
            model.grid.terrain[y][x],
            &model.grid.agents_in_cell[y][x],
            &model.agents,
        );
        let ghost shown = token@;
        let ghost so_far = row_text(model, y as int, x as int);
        line.append(&mut token);
        assert(line@ =~= row_text(model, y as int, x as int + 1)) by {
            if x > 0 {
                assert(line@ =~= so_far + seq![32u8] + shown);
            } else {
                assert(so_far =~= Seq::<u8>::empty());
                assert(line@ =~= shown);
            }
        }
        x = x + 1;
    }
    line
}

/// What is written for a cell without an agent is read back as the terrain
/// of the cell, the cost of other ground being the one that was written.
pub proof fn lemma_terrain_read_back(terrain: Terrain)
    ensures
        cell_of_token(
            terrain_token(terrain),
            match terrain {
                Terrain::Custom(cost) => Some(cost),
                _ => None,
            },
        ) == Ok::<(Terrain, Option<AgentType>), LoadError>((terrain, None)),
{
    let token = terrain_token(terrain);
    match terrain {
        Terrain::Blocked => {},
        Terrain::Road => {
            assert(token.len() == 1 && token[0] == 49u8);
            assert(seq![48u8][0] == 48u8);
            assert(seq![48u8, 46u8, 48u8].len() == 3);
        },
        Terrain::Shelter(shelter_id) => {
            lemma_padded_read_back(shelter_id as nat);
            lemma_digits_read_back(shelter_id as nat);
            assert(token.len() >= 3);
            assert(token[0] == 50u8 && token[1] == 48u8);
            assert(token.skip(2) =~= padded_digits(shelter_id as nat));
            assert(seq![48u8].len() == 1);
            assert(seq![49u8].len() == 1);
            assert(seq![48u8, 46u8, 48u8][0] == 48u8);
        },
        Terrain::Custom(cost) => {
            lemma_digits_read_back(cost as nat);
            assert(token.len() >= 2);
            assert(token[0] == 99u8);
            assert(seq![48u8].len() == 1);
            assert(seq![49u8].len() == 1);
            assert(seq![51u8].len() == 1);
            assert(seq![52u8].len() == 1);
            assert(seq![53u8].len() == 1);
            assert(seq![54u8].len() == 1);
            assert(seq![48u8, 46u8, 48u8][0] == 48u8);
        },
    }
}

/// The number by which a display tells the terrains apart: 0 for a blocked
/// cell, 1 for other ground, 2 for a road and 3 for a shelter.
pub fn display_code(terrain: Terrain) -> (code: i32)
    ensures
        code == match terrain {
            Terrain::Blocked => 0i32,
            Terrain::Custom(_) => 1i32,
            Terrain::Road => 2i32,
            Terrain::Shelter(_) => 3i32,
        },
{
    match terrain {
        Terrain::Blocked => 0,
        Terrain::Custom(_) => 1,
        Terrain::Road => 2,
        Terrain::Shelter(_) => 3,
    }
}

} // verus!
