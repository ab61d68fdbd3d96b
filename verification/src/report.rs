use vstd::prelude::*;
use vstd::string::StringExecFns;
use crate::hex::{hex_char, hex_digit, hex_u8};
use crate::move_path::MovePath;
use crate::piece::Piece;
use crate::state::State;

verus! {

/// A number written in decimal, without leading zeros.
pub open spec fn decimal_text(n: nat) -> Seq<char>
    decreases n,
{
    if n < 10 {
        seq![hex_char(n as int)]
    } else {
        decimal_text(n / 10).push(hex_char((n % 10) as int))
    }
}

/// The line that tells step `index` of a solution: which piece is moved, and how.
pub open spec fn step_text(index: nat, piece: Piece, path: MovePath) -> Seq<char> {
    "step "@ + decimal_text(index) + ": Move piece #"@ + hex_u8(piece.id as int) + ": "@
        + path.spec_text()
}

/// The lines that tell the first `n` states of a path: one line for each state that was
/// reached by moving a piece, numbered by its place in the path.
pub open spec fn step_lines(path: Seq<State>, n: nat) -> Seq<Seq<char>>
    decreases n,
{
    if n == 0 {
        Seq::empty()
    } else {
        let before = step_lines(path, (n - 1) as nat);
        match path[n - 1].piece {
            Some(piece) => before.push(step_text((n - 1) as nat, piece, path[n - 1].path)),
            None => before,
        }
    }
}

/// The lines that tell the outcome of a search for a solution.
pub open spec fn report_lines(result: Option<Seq<State>>) -> Seq<Seq<char>> {
    match result {
        Some(path) => step_lines(path, path.len()),
        None => seq!["path not found."@],
    }
}

/// The texts as sequences of characters.
pub open spec fn texts(lines: Seq<String>) -> Seq<Seq<char>> {
    Seq::new(lines.len(), |i: int| lines[i]@)
}

/// Writes a number in decimal.
pub fn decimal(n: usize) -> (r: String)
    ensures
        r@ == decimal_text(n as nat),
    decreases n,
{
    if n < 10 {
        String::from_str(hex_digit(n as u8))
    } else {
        let mut r = decimal(n / 10);
        r.append(hex_digit((n % 10) as u8));
        r
    }
}

/// Writes the line that tells one step of a solution.
pub fn describe_step(index: usize, piece: Piece, path: &MovePath) -> (r: String)
    ensures
        r@ == step_text(index as nat, piece, *path),
{
    let mut line = String::from_str("step ");
    let number = decimal(index);
    line.append(number.as_str());
    line.append(": Move piece #");
    let label = piece.render();
    line.append(label.as_str());
    line.append(": ");
    let how = path.render();
    line.append(how.as_str());
    line
}

/// Writes the outcome of a search for a solution, line by line: the steps of the path
/// that was found, or the one line that says that there is none.
pub fn describe(result: &Option<Vec<State>>) -> (lines: Vec<String>)
    ensures
        texts(lines@) == report_lines(
            match *result {
                Some(path) => Some(path@),
                None => None,
            },
        ),
{
    let mut lines: Vec<String> = Vec::new();
    match result {
        None => {
            lines.push(String::from_str("path not found."));
            assert(texts(lines@) =~= seq!["path not found."@]);
        },
        Some(path) => {
            let mut i: usize = 0;
            assert(texts(lines@) =~= step_lines(path@, 0));
            while i < path.len()
                invariant
                    i <= path@.len(),
                    texts(lines@) == step_lines(path@, i as nat),
                decreases path@.len() - i,
            {
                let state = &path[i];
                let ghost before = lines@;
                if let Some(piece) = state.piece {
                    let line = describe_step(i, piece, &state.path);
                    lines.push(line);
                    assert(texts(lines@) =~= texts(before).push(line@));
                }
                i += 1;
            }
        },
    }
    lines
}

} // verus!
