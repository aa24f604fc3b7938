//! A simpler, quote-unaware view of a line: split at every `;` and trim each
//! piece of its surrounding whitespace.

use crate::lexer::{exclusive_separate_at_positions, is_space_char};
use crate::model::{
    last_nonspace, lemma_last_nonspace, lemma_next_nonspace, lemma_semi_positions_props,
    lemma_split_at_positions_len, next_nonspace, semi_positions_from, spec_semi_positions,
    spec_split_trim, spec_trim, split_at_positions,
};
use vstd::prelude::*;
use vstd::string::StrSliceExecFns;

verus! {

/// First non-whitespace position in `string` at or after `from`, or the
/// length of `string` if there is none.
fn next_nonspace_pos(string: &str, from: usize) -> (r: usize)
    requires
        from as int <= string@.len(),
    ensures
        r as int == next_nonspace(string@, from as int),
{
    let n = string.unicode_len();
    let mut i: usize = from;
    while i < n
        invariant
            n == string@.len(),
            from <= i <= n,
            next_nonspace(string@, from as int) == next_nonspace(string@, i as int),
        decreases n - i,
    {
        if !is_space_char(string.get_char(i)) {
            return i;
        }
        i += 1;
    }
    i
}

/// Last non-whitespace position in `string`; requires one to exist.
fn last_nonspace_pos(string: &str) -> (r: usize)
    requires
        next_nonspace(string@, 0) < string@.len(),
    ensures
        r as int == last_nonspace(string@, string@.len() - 1),
{
    let n = string.unicode_len();
    let mut i: usize = n;
    while i > 0
        invariant
            n == string@.len(),
            i <= n,
            forall|j: int| i <= j < n ==> crate::model::is_space(string@[j]),
        decreases i,
    {
        i -= 1;
        if !is_space_char(string.get_char(i)) {
            proof {
                lemma_last_nonspace(string@, n as int - 1);
            }
            return i;
        }
    }
    proof {
        lemma_next_nonspace(string@, 0);
        assert(false);
    }
    0
}

/// `string` with its leading and trailing whitespace removed.
fn trim_str(string: &str) -> (r: String)
    ensures
        r@ == spec_trim(string@),
{
    let n = string.unicode_len();
    let a = next_nonspace_pos(string, 0);
    proof {
        lemma_next_nonspace(string@, 0);
    }
    if a == n {
        String::new()
    } else {
        let b = last_nonspace_pos(string);
        proof {
            lemma_last_nonspace(string@, n as int - 1);
        }
        string.substring_char(a, b + 1).to_owned()
    }
}

/// Positions of every `;` in the line, in increasing order.
fn find_semi_positions(string: &str) -> (positions: Vec<usize>)
    ensures
        positions@ == spec_semi_positions(string@),
        forall|k: int| 0 <= k < positions@.len() ==> (#[trigger] positions@[k] as int)
            < string@.len(),
        forall|a: int, b: int|
            0 <= a < b < positions@.len() ==> #[trigger] positions@[a] < #[trigger] positions@[b],
{
    let n = string.unicode_len();
    let mut positions: Vec<usize> = Vec::new();
    let mut i: usize = 0;
    proof {
        assert(positions@ + semi_positions_from(string@, 0) =~= semi_positions_from(string@, 0));
    }
    while i < n
        invariant
            n == string@.len(),
            i <= n,
            positions@ + semi_positions_from(string@, i as int) == spec_semi_positions(string@),
        decreases n - i,
    {
        let ghost prev = positions@;
        if string.get_char(i) == ';' {
            positions.push(i);
            proof {
                assert(positions@ =~= prev + seq![i as usize]);
                assert(prev + seq![i as usize] + semi_positions_from(string@, i + 1) =~= prev
                    + semi_positions_from(string@, i as int));
            }
        }
        i += 1;
    }
    proof {
        lemma_semi_positions_props(string@, 0);
        assert(positions@ + semi_positions_from(string@, n as int) =~= positions@);
    }
    positions
}

/// Splits the line at every `;` — with no regard to escaping or quoting —
/// and trims each resulting piece of its surrounding whitespace.
pub fn get_commands_from_line(line: &str) -> (r: Vec<String>)
    ensures
        r.deep_view() == spec_split_trim(line@),
        r@.len() == spec_semi_positions(line@).len() + 1,
{
    proof {
        lemma_split_at_positions_len(line@, spec_semi_positions(line@), 0);
    }
    let positions = find_semi_positions(line);
    let pieces = exclusive_separate_at_positions(line, positions);
    let ghost trimmed = spec_split_trim(line@);
    let mut result: Vec<String> = Vec::new();
    let mut k: usize = 0;
    proof {
        assert(trimmed.len() == pieces.deep_view().len());
        assert(result.deep_view() =~= trimmed.subrange(0, 0));
    }
    while k < pieces.len()
        invariant
            pieces.deep_view() == split_at_positions(line@, spec_semi_positions(line@), 0),
            trimmed == spec_split_trim(line@),
            trimmed.len() == pieces.deep_view().len(),
            k <= pieces@.len(),
            result.deep_view() == trimmed.subrange(0, k as int),
        decreases pieces@.len() - k,
    {
        let ghost prev = result.deep_view();
        let piece = trim_str(pieces[k].as_str());
        result.push(piece);
        proof {
            assert(trimmed[k as int] == spec_trim(pieces.deep_view()[k as int]));
            assert(result.deep_view() =~= prev.push(piece@));
            assert(prev.push(piece@) =~= trimmed.subrange(0, k as int + 1));
        }
        k += 1;
    }
    proof {
        assert(trimmed.subrange(0, k as int) =~= trimmed);
    }
    result
}

/// Splits one command string at every `;` and trims the pieces, exactly as
/// `get_commands_from_line` does to a whole line.
pub fn parse_command(command: &str) -> (r: Vec<String>)
    ensures
        r.deep_view() == spec_split_trim(command@),
        r@.len() == spec_semi_positions(command@).len() + 1,
{
    get_commands_from_line(command)
}

} // verus!
