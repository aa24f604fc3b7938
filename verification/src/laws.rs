//! General laws of the interpreter, proved once and for all inputs: how the
//! quote-balance check relates to the number of delimiter occurrences, and
//! that building a command from a well-formed segment's tokens reproduces the
//! segment's words exactly.

use crate::model::{
    count_occ, first_index_of, good_prefix, has_char, last_index_of, lemma_count_occ_add,
    lemma_count_occ_single, lemma_count_occ_zero, lemma_occurrence_bounds, mark_tokens,
    quit_word, spec_atomic_tokens, spec_balanced, spec_build_command, spec_items, spec_quote_ok,
    token_ok_at, token_text, CommandModel, TokenModel,
};
use vstd::prelude::*;

verus! {

/// Between its first and last occurrence, the delimiter occurs exactly twice
/// less often than in the whole string.
proof fn lemma_count_between(s: Seq<char>, c: char)
    requires
        has_char(s, c),
        first_index_of(s, c) < last_index_of(s, c),
    ensures
        count_occ(s, c) == count_occ(
            s.subrange(first_index_of(s, c) + 1, last_index_of(s, c)),
            c,
        ) + 2,
{
    let f = first_index_of(s, c);
    let l = last_index_of(s, c);
    lemma_occurrence_bounds(s, c);
    let pre = s.subrange(0, f);
    let mid = s.subrange(f + 1, l);
    let post = s.subrange(l + 1, s.len() as int);
    assert(s =~= pre + seq![s[f]] + mid + seq![s[l]] + post);
    lemma_count_occ_add(pre + seq![s[f]] + mid + seq![s[l]], post, c);
    lemma_count_occ_add(pre + seq![s[f]] + mid, seq![s[l]], c);
    lemma_count_occ_add(pre + seq![s[f]], mid, c);
    lemma_count_occ_add(pre, seq![s[f]], c);
    lemma_count_occ_single(s[f], c);
    lemma_count_occ_single(s[l], c);
    if has_char(pre, c) {
        let j = choose|j: int| 0 <= j < pre.len() && pre[j] == c;
        assert(s[j] == c);
        assert(false);
    }
    if has_char(post, c) {
        let j = choose|j: int| 0 <= j < post.len() && post[j] == c;
        assert(s[l + 1 + j] == c);
        assert(false);
    }
    lemma_count_occ_zero(pre, c);
    lemma_count_occ_zero(post, c);
}

/// The outside-in balance check passes exactly when the delimiter occurs an
/// even number of times in the string.
pub proof fn lemma_balanced_iff_even_count(s: Seq<char>, c: char)
    ensures
        spec_balanced(s, c) <==> count_occ(s, c) % 2 == 0,
    decreases s.len(),
{
    let f = first_index_of(s, c);
    let l = last_index_of(s, c);
    lemma_occurrence_bounds(s, c);
    if f < 0 {
        lemma_count_occ_zero(s, c);
    } else if f == l {
        let pre = s.subrange(0, f);
        let post = s.subrange(f + 1, s.len() as int);
        assert(s =~= pre + seq![s[f]] + post);
        lemma_count_occ_add(pre + seq![s[f]], post, c);
        lemma_count_occ_add(pre, seq![s[f]], c);
        lemma_count_occ_single(s[f], c);
        if has_char(pre, c) {
            let j = choose|j: int| 0 <= j < pre.len() && pre[j] == c;
            assert(s[j] == c);
            assert(false);
        }
        if has_char(post, c) {
            let j = choose|j: int| 0 <= j < post.len() && post[j] == c;
            assert(s[f + 1 + j] == c);
            assert(false);
        }
        lemma_count_occ_zero(pre, c);
        lemma_count_occ_zero(post, c);
        assert(count_occ(s, c) == 1);
    } else {
        lemma_count_between(s, c);
        lemma_balanced_iff_even_count(s.subrange(f + 1, l), c);
    }
}

/// A string in which a delimiter never occurs is balanced for that delimiter.
pub proof fn lemma_no_delimiter_balanced(s: Seq<char>, c: char)
    requires
        forall|i: int| 0 <= i < s.len() ==> s[i] != c,
    ensures
        spec_balanced(s, c),
{
    lemma_occurrence_bounds(s, c);
}

/// A string in which the delimiter occurs an odd number of times is never
/// balanced.
pub proof fn lemma_odd_count_unbalanced(s: Seq<char>, c: char)
    requires
        count_occ(s, c) % 2 == 1,
    ensures
        !spec_balanced(s, c),
{
    lemma_balanced_iff_even_count(s, c);
}

/// Round trip from a well-formed segment to an executable command: building a
/// command from the tokens the segment produces reproduces the segment's
/// items exactly — the first item as the program name, the following items,
/// quoted literal included verbatim, as the arguments, in order.
pub proof fn lemma_tokenize_build_round_trip(s: Seq<char>)
    requires
        spec_quote_ok(s),
        spec_items(s).len() > 0,
        spec_items(s)[0] != quit_word(),
        forall|j: int|
            0 <= j < spec_items(s).len() ==> !has_char(#[trigger] spec_items(s)[j], '\0'),
    ensures
        spec_build_command(spec_atomic_tokens(s)) == Some(
            CommandModel {
                prog: spec_items(s)[0],
                args: spec_items(s).subrange(1, spec_items(s).len() as int),
            },
        ),
{
    let items = spec_items(s);
    let tm = spec_atomic_tokens(s);
    assert(tm == mark_tokens(items));
    assert(tm.len() == items.len());
    assert forall|j: int| 0 <= j < tm.len() implies token_ok_at(#[trigger] tm[j], j) && !has_char(
        token_text(tm[j]),
        '\0',
    ) by {
        assert(!has_char(spec_items(s)[j], '\0'));
    }
    assert(good_prefix(tm, tm.len() as int));
    let built_args = tm.subrange(1, tm.len() as int).map_values(|t: TokenModel| token_text(t));
    assert(built_args =~= items.subrange(1, items.len() as int));
    assert(token_text(tm[0]) == items[0]);
    assert(spec_build_command(tm) == Some(
        CommandModel { prog: items[0], args: items.subrange(1, items.len() as int) },
    ));
}

} // verus!
