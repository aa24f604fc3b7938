//! The mathematical model of the interpreter: occurrence search, the
//! quote-balance relation, whitespace word splitting, separator scanning and
//! line splitting, all as functions over `Seq<char>`.

use vstd::prelude::*;

verus! {

/// Index of the first occurrence of `c` in `s` at or after position `i`,
/// or `-1` if there is none.
pub open spec fn first_from(s: Seq<char>, c: char, i: int) -> int
    decreases s.len() - i when 0 <= i
{
    if i >= s.len() {
        -1
    } else if s[i] == c {
        i
    } else {
        first_from(s, c, i + 1)
    }
}

/// Index of the first occurrence of `c` in `s`, or `-1` if there is none.
pub open spec fn first_index_of(s: Seq<char>, c: char) -> int {
    first_from(s, c, 0)
}

/// Index of the last occurrence of `c` in `s` at or before position `i`,
/// or `-1` if there is none.
pub open spec fn last_from(s: Seq<char>, c: char, i: int) -> int
    decreases i + 1 when i < s.len()
{
    if i < 0 {
        -1
    } else if s[i] == c {
        i
    } else {
        last_from(s, c, i - 1)
    }
}

/// Index of the last occurrence of `c` in `s`, or `-1` if there is none.
pub open spec fn last_index_of(s: Seq<char>, c: char) -> int {
    last_from(s, c, s.len() - 1)
}

/// Whether `c` occurs anywhere in `s`.
pub open spec fn has_char(s: Seq<char>, c: char) -> bool {
    exists|i: int| 0 <= i < s.len() && s[i] == c
}

pub proof fn lemma_first_from(s: Seq<char>, c: char, i: int)
    requires
        0 <= i,
    ensures
        first_from(s, c, i) == -1 ==> forall|j: int| i <= j < s.len() ==> s[j] != c,
        first_from(s, c, i) != -1 ==> {
            let r = first_from(s, c, i);
            &&& i <= r < s.len()
            &&& s[r] == c
            &&& forall|j: int| i <= j < r ==> s[j] != c
        },
    decreases s.len() - i,
{
    if i < s.len() && s[i] != c {
        lemma_first_from(s, c, i + 1);
    }
}

pub proof fn lemma_last_from(s: Seq<char>, c: char, i: int)
    requires
        i < s.len(),
    ensures
        last_from(s, c, i) == -1 ==> forall|j: int| 0 <= j <= i ==> s[j] != c,
        last_from(s, c, i) != -1 ==> {
            let r = last_from(s, c, i);
            &&& 0 <= r <= i
            &&& s[r] == c
            &&& forall|j: int| r < j <= i ==> s[j] != c
        },
    decreases i + 1,
{
    if i >= 0 && s[i] != c {
        lemma_last_from(s, c, i - 1);
    }
}

/// The first and last occurrence, characterized together: both exist or
/// neither does, and every occurrence lies between them.
pub proof fn lemma_occurrence_bounds(s: Seq<char>, c: char)
    ensures
        first_index_of(s, c) == -1 <==> !has_char(s, c),
        last_index_of(s, c) == -1 <==> !has_char(s, c),
        has_char(s, c) ==> {
            let f = first_index_of(s, c);
            let l = last_index_of(s, c);
            &&& 0 <= f <= l < s.len()
            &&& s[f] == c
            &&& s[l] == c
            &&& forall|j: int| 0 <= j < f ==> s[j] != c
            &&& forall|j: int| l < j < s.len() ==> s[j] != c
        },
{
    lemma_first_from(s, c, 0);
    lemma_last_from(s, c, s.len() - 1);
}

/// `p` is the first occurrence of `c` exactly when `s[p] == c` and nothing
/// before `p` is `c`.
pub proof fn lemma_first_index_is(s: Seq<char>, c: char, p: int)
    requires
        0 <= p < s.len(),
        s[p] == c,
        forall|j: int| 0 <= j < p ==> s[j] != c,
    ensures
        first_index_of(s, c) == p,
{
    lemma_occurrence_bounds(s, c);
}

/// `p` is the last occurrence of `c` exactly when `s[p] == c` and nothing
/// after `p` is `c`.
pub proof fn lemma_last_index_is(s: Seq<char>, c: char, p: int)
    requires
        0 <= p < s.len(),
        s[p] == c,
        forall|j: int| p < j < s.len() ==> s[j] != c,
    ensures
        last_index_of(s, c) == p,
{
    lemma_occurrence_bounds(s, c);
}

/// How many times `c` occurs in `s`.
pub open spec fn count_occ(s: Seq<char>, c: char) -> nat
    decreases s.len(),
{
    if s.len() == 0 {
        0
    } else {
        (if s[0] == c { 1nat } else { 0nat }) + count_occ(s.drop_first(), c)
    }
}

pub proof fn lemma_count_occ_add(a: Seq<char>, b: Seq<char>, c: char)
    ensures
        count_occ(a + b, c) == count_occ(a, c) + count_occ(b, c),
    decreases a.len(),
{
    if a.len() == 0 {
        assert(a + b =~= b);
    } else {
        assert((a + b).drop_first() =~= a.drop_first() + b);
        assert((a + b)[0] == a[0]);
        lemma_count_occ_add(a.drop_first(), b, c);
    }
}

pub proof fn lemma_count_occ_zero(s: Seq<char>, c: char)
    ensures
        (count_occ(s, c) == 0) <==> !has_char(s, c),
    decreases s.len(),
{
    if s.len() > 0 {
        lemma_count_occ_zero(s.drop_first(), c);
        if count_occ(s, c) == 0 {
            assert forall|i: int| 0 <= i < s.len() implies s[i] != c by {
                if i > 0 {
                    assert(s.drop_first()[i - 1] == s[i]);
                }
            }
        } else {
            if s[0] == c {
            } else {
                assert(has_char(s.drop_first(), c));
                let i = choose|i: int| 0 <= i < s.drop_first().len() && s.drop_first()[i] == c;
                assert(s[i + 1] == c);
            }
        }
    }
}

pub proof fn lemma_count_occ_single(x: char, c: char)
    ensures
        count_occ(seq![x], c) == if x == c { 1nat } else { 0nat },
{
    assert(seq![x].drop_first() =~= Seq::<char>::empty());
    assert(count_occ(seq![x], c) == (if seq![x][0] == c { 1nat } else { 0nat }) + count_occ(
        seq![x].drop_first(),
        c,
    ));
}

/// The outside-in pairing rule: a delimiter is balanced when its occurrences
/// pair off from the extremes inward. No occurrence is balanced; a first
/// occurrence equal to the last one (a lone delimiter) is not; otherwise the
/// text strictly between the outermost pair decides.
pub open spec fn spec_balanced(s: Seq<char>, c: char) -> bool
    decreases s.len() via spec_balanced_decreases
{
    let f = first_index_of(s, c);
    let l = last_index_of(s, c);
    if f < 0 {
        true
    } else if f == l {
        false
    } else {
        spec_balanced(s.subrange(f + 1, l), c)
    }
}

#[via_fn]
proof fn spec_balanced_decreases(s: Seq<char>, c: char) {
    let f = first_index_of(s, c);
    let l = last_index_of(s, c);
    if f >= 0 && f != l {
        lemma_occurrence_bounds(s, c);
    }
}

/// The whitespace characters on which words are split and lines are trimmed:
/// the Unicode White_Space set, as `char::is_whitespace` defines it.
pub open spec fn is_space(c: char) -> bool {
    ||| c == ' '
    ||| c == '\t'
    ||| c == '\n'
    ||| c == '\u{b}'
    ||| c == '\u{c}'
    ||| c == '\r'
    ||| c == '\u{85}'
    ||| c == '\u{a0}'
    ||| c == '\u{1680}'
    ||| c == '\u{2000}'
    ||| c == '\u{2001}'
    ||| c == '\u{2002}'
    ||| c == '\u{2003}'
    ||| c == '\u{2004}'
    ||| c == '\u{2005}'
    ||| c == '\u{2006}'
    ||| c == '\u{2007}'
    ||| c == '\u{2008}'
    ||| c == '\u{2009}'
    ||| c == '\u{200a}'
    ||| c == '\u{2028}'
    ||| c == '\u{2029}'
    ||| c == '\u{202f}'
    ||| c == '\u{205f}'
    ||| c == '\u{3000}'
}

/// The first position at or after `i` holding a whitespace character, or the
/// length of `s` if there is none.
pub open spec fn next_space(s: Seq<char>, i: int) -> int
    decreases s.len() - i when 0 <= i
{
    if i >= s.len() {
        s.len() as int
    } else if is_space(s[i]) {
        i
    } else {
        next_space(s, i + 1)
    }
}

/// The first position at or after `i` holding a non-whitespace character, or
/// the length of `s` if there is none.
pub open spec fn next_nonspace(s: Seq<char>, i: int) -> int
    decreases s.len() - i when 0 <= i
{
    if i >= s.len() {
        s.len() as int
    } else if !is_space(s[i]) {
        i
    } else {
        next_nonspace(s, i + 1)
    }
}

/// The last position at or before `i` holding a non-whitespace character, or
/// `-1` if there is none.
pub open spec fn last_nonspace(s: Seq<char>, i: int) -> int
    decreases i + 1 when i < s.len()
{
    if i < 0 {
        -1
    } else if !is_space(s[i]) {
        i
    } else {
        last_nonspace(s, i - 1)
    }
}

pub proof fn lemma_next_space(s: Seq<char>, i: int)
    requires
        0 <= i <= s.len(),
    ensures
        ({
            let r = next_space(s, i);
            &&& i <= r <= s.len()
            &&& r < s.len() ==> is_space(s[r])
            &&& forall|j: int| i <= j < r ==> !is_space(s[j])
        }),
    decreases s.len() - i,
{
    if i < s.len() && !is_space(s[i]) {
        lemma_next_space(s, i + 1);
    }
}

pub proof fn lemma_next_nonspace(s: Seq<char>, i: int)
    requires
        0 <= i <= s.len(),
    ensures
        ({
            let r = next_nonspace(s, i);
            &&& i <= r <= s.len()
            &&& r < s.len() ==> !is_space(s[r])
            &&& forall|j: int| i <= j < r ==> is_space(s[j])
        }),
    decreases s.len() - i,
{
    if i < s.len() && is_space(s[i]) {
        lemma_next_nonspace(s, i + 1);
    }
}

pub proof fn lemma_last_nonspace(s: Seq<char>, i: int)
    requires
        -1 <= i < s.len(),
    ensures
        ({
            let r = last_nonspace(s, i);
            &&& -1 <= r <= i
            &&& r >= 0 ==> !is_space(s[r])
            &&& forall|j: int| r < j <= i ==> is_space(s[j])
        }),
    decreases i + 1,
{
    if i >= 0 && is_space(s[i]) {
        lemma_last_nonspace(s, i - 1);
    }
}

/// `r` is `next_space(s, i)` exactly when nothing in `[i, r)` is whitespace
/// and `r` is the length of `s` or a whitespace position.
pub proof fn lemma_next_space_is(s: Seq<char>, i: int, r: int)
    requires
        0 <= i <= r <= s.len(),
        r < s.len() ==> is_space(s[r]),
        forall|j: int| i <= j < r ==> !is_space(s[j]),
    ensures
        next_space(s, i) == r,
    decreases r - i,
{
    if i < r {
        lemma_next_space_is(s, i + 1, r);
    }
}

/// The maximal whitespace-free words of `s` from position `i` on, in order.
pub open spec fn words_from(s: Seq<char>, i: int) -> Seq<Seq<char>>
    decreases s.len() - i when 0 <= i via words_from_decreases
{
    let a = next_nonspace(s, i);
    if a >= s.len() {
        Seq::empty()
    } else {
        seq![s.subrange(a, next_space(s, a))] + words_from(s, next_space(s, a))
    }
}

#[via_fn]
proof fn words_from_decreases(s: Seq<char>, i: int) {
    let a = next_nonspace(s, i);
    if a < s.len() {
        lemma_next_nonspace(s, i);
        lemma_next_space(s, a);
        assert(next_space(s, a) > a);
    }
}

/// The whitespace-separated words of `s`.
pub open spec fn spec_words(s: Seq<char>) -> Seq<Seq<char>> {
    words_from(s, 0)
}

/// Skipping a whitespace character does not change the words that follow.
pub proof fn lemma_words_from_space(s: Seq<char>, i: int)
    requires
        0 <= i < s.len(),
        is_space(s[i]),
    ensures
        words_from(s, i) == words_from(s, i + 1),
{
}

/// At a non-whitespace position a word begins: it runs to the next
/// whitespace, and the remaining words follow from there.
pub proof fn lemma_words_from_word(s: Seq<char>, i: int)
    requires
        0 <= i < s.len(),
        !is_space(s[i]),
    ensures
        words_from(s, i) == seq![s.subrange(i, next_space(s, i))] + words_from(
            s,
            next_space(s, i),
        ),
{
    lemma_next_space(s, i);
    assert(next_nonspace(s, i) == i);
}

/// Past the end there are no words.
pub proof fn lemma_words_from_end(s: Seq<char>, i: int)
    requires
        0 <= s.len() <= i,
    ensures
        words_from(s, i) == Seq::<Seq<char>>::empty(),
{
}

/// Whether position `i` of `s` is a true statement separator: a `;` that is
/// not escaped by a single preceding `\` (a `\\` before the `;` cancels the
/// escape and reinstates the separator).
pub open spec fn is_sep(s: Seq<char>, i: int) -> bool {
    &&& 0 <= i < s.len()
    &&& s[i] == ';'
    &&& (i == 0 || s[i - 1] != '\\' || (i > 1 && s[i - 2] == '\\'))
}

/// The positions of all true separators at or after `i`, in increasing order.
pub open spec fn sep_positions_from(s: Seq<char>, i: int) -> Seq<usize>
    decreases s.len() - i when 0 <= i
{
    if i >= s.len() {
        Seq::empty()
    } else if is_sep(s, i) {
        seq![i as usize] + sep_positions_from(s, i + 1)
    } else {
        sep_positions_from(s, i + 1)
    }
}

/// The positions of all true separators in `s`.
pub open spec fn spec_sep_positions(s: Seq<char>) -> Seq<usize> {
    sep_positions_from(s, 0)
}

pub proof fn lemma_sep_positions_props(s: Seq<char>, i: int)
    requires
        0 <= i,
        s.len() <= usize::MAX,
    ensures
        ({
            let ps = sep_positions_from(s, i);
            &&& forall|k: int| 0 <= k < ps.len() ==> i <= #[trigger] ps[k] < s.len()
            &&& forall|k: int| 0 <= k < ps.len() ==> is_sep(s, #[trigger] ps[k] as int)
            &&& forall|a: int, b: int| 0 <= a < b < ps.len() ==> #[trigger] ps[a] < #[trigger] ps[b]
            &&& forall|j: int| i <= j < s.len() && is_sep(s, j) ==> ps.contains(j as usize)
        }),
    decreases s.len() - i,
{
    if i < s.len() {
        lemma_sep_positions_props(s, i + 1);
        let ps = sep_positions_from(s, i);
        let rest = sep_positions_from(s, i + 1);
        if is_sep(s, i) {
            assert(ps == seq![i as usize] + rest);
            assert(ps[0] == i as usize);
            assert forall|k: int| 1 <= k < ps.len() implies #[trigger] ps[k] == rest[k - 1] by {}
            assert forall|j: int| i <= j < s.len() && is_sep(s, j) implies ps.contains(
                j as usize,
            ) by {
                if j == i {
                    assert(ps[0] == i as usize);
                } else {
                    assert(rest.contains(j as usize));
                    let k = choose|k: int| 0 <= k < rest.len() && rest[k] == j as usize;
                    assert(ps[k + 1] == j as usize);
                }
            }
        } else {
            assert(ps == rest);
            assert forall|j: int| i <= j < s.len() && is_sep(s, j) implies ps.contains(
                j as usize,
            ) by {
                assert(j != i);
                assert(rest.contains(j as usize));
            }
        }
    }
}

/// The substrings of `s` that lie before, between, and after the given
/// strictly increasing positions; the characters at the positions themselves
/// are dropped. `start` is where the current piece begins.
pub open spec fn split_at_positions(s: Seq<char>, ps: Seq<usize>, start: int) -> Seq<Seq<char>>
    decreases ps.len(),
{
    if ps.len() == 0 {
        seq![s.subrange(start, s.len() as int)]
    } else {
        seq![s.subrange(start, ps[0] as int)] + split_at_positions(
            s,
            ps.drop_first(),
            ps[0] + 1,
        )
    }
}

/// Splitting at `n` positions yields `n + 1` pieces.
pub proof fn lemma_split_at_positions_len(s: Seq<char>, ps: Seq<usize>, start: int)
    ensures
        split_at_positions(s, ps, start).len() == ps.len() + 1,
    decreases ps.len(),
{
    if ps.len() > 0 {
        lemma_split_at_positions_len(s, ps.drop_first(), ps[0] + 1);
    }
}

/// The separator-free segments of a line.
pub open spec fn spec_segments(s: Seq<char>) -> Seq<Seq<char>> {
    split_at_positions(s, spec_sep_positions(s), 0)
}

/// The abstract value of a token: its kind together with the text it spans.
pub enum TokenModel {
    Progname(Seq<char>),
    Argument(Seq<char>),
    Separator,
    Quit,
}

/// The reserved word that ends the session.
pub open spec fn quit_word() -> Seq<char> {
    seq!['q', 'u', 'i', 't']
}

/// Marks the items of one segment: the first item becomes the program name,
/// or the termination token when it is exactly the reserved word; every
/// following item is an argument.
pub open spec fn mark_tokens(items: Seq<Seq<char>>) -> Seq<TokenModel> {
    Seq::new(
        items.len(),
        |k: int|
            if k == 0 {
                if items[0] == quit_word() {
                    TokenModel::Quit
                } else {
                    TokenModel::Progname(items[0])
                }
            } else {
                TokenModel::Argument(items[k])
            },
    )
}

/// The items of one separator-free segment, left to right: with no quote
/// character, its whitespace-separated words; otherwise the words before the
/// first quote, then the span from the first to the last quote as one item
/// (quote characters retained), then the words after the last quote.
pub open spec fn spec_items(s: Seq<char>) -> Seq<Seq<char>> {
    let f = first_index_of(s, '"');
    let l = last_index_of(s, '"');
    if f < 0 {
        spec_words(s)
    } else {
        spec_words(s.subrange(0, f)) + seq![s.subrange(f, l + 1)] + spec_words(
            s.subrange(l + 1, s.len() as int),
        )
    }
}

/// Whether the quoted span of a segment (if any) is balanced.
pub open spec fn spec_quote_ok(s: Seq<char>) -> bool {
    let f = first_index_of(s, '"');
    let l = last_index_of(s, '"');
    f < 0 || spec_balanced(s.subrange(f, l + 1), '"')
}

/// The span a segment's `UnbalancedQuote` error carries: first to last quote,
/// both inclusive.
pub open spec fn spec_quote_span(s: Seq<char>) -> Seq<char> {
    let f = first_index_of(s, '"');
    let l = last_index_of(s, '"');
    s.subrange(f, l + 1)
}

/// The token sequence of one separator-free segment.
pub open spec fn spec_atomic_tokens(s: Seq<char>) -> Seq<TokenModel> {
    mark_tokens(spec_items(s))
}

/// The token sequences of the segments from index `k` on, joined with a
/// separator token between neighbours.
pub open spec fn line_tokens_from(segs: Seq<Seq<char>>, k: int) -> Seq<TokenModel>
    decreases segs.len() - k when 0 <= k
{
    if k >= segs.len() {
        Seq::empty()
    } else if k == 0 {
        spec_atomic_tokens(segs[0]) + line_tokens_from(segs, 1)
    } else {
        seq![TokenModel::Separator] + spec_atomic_tokens(segs[k]) + line_tokens_from(segs, k + 1)
    }
}

/// The token sequence of a whole line.
pub open spec fn spec_line_tokens(s: Seq<char>) -> Seq<TokenModel> {
    line_tokens_from(spec_segments(s), 0)
}

/// Segment `k` of line `s` is the first one whose quoted span is unbalanced.
pub open spec fn spec_first_bad_segment(s: Seq<char>, k: int) -> bool {
    let segs = spec_segments(s);
    &&& 0 <= k < segs.len()
    &&& forall|j: int| 0 <= j < k ==> spec_quote_ok(#[trigger] segs[j])
    &&& !spec_quote_ok(segs[k])
}

/// The abstract value of an executable command: its program name and its
/// arguments, in order.
pub struct CommandModel {
    pub prog: Seq<char>,
    pub args: Seq<Seq<char>>,
}

/// The abstract value of one parsed directive: a command to run, or the
/// session-termination signal.
pub enum FunctionModel {
    Run(CommandModel),
    Quit,
}

/// The token kind the command builder accepts at position `k` of a segment's
/// token sequence: a program name first, arguments after.
pub open spec fn token_ok_at(tm: TokenModel, k: int) -> bool {
    if k == 0 {
        tm is Progname
    } else {
        tm is Argument
    }
}

/// The text a token spans; the marker tokens span none.
pub open spec fn token_text(tm: TokenModel) -> Seq<char> {
    match tm {
        TokenModel::Progname(w) => w,
        TokenModel::Argument(w) => w,
        _ => Seq::empty(),
    }
}

/// The first `k` tokens are acceptable to the command builder: each has the
/// right kind for its position and its text holds no null byte.
pub open spec fn good_prefix(ts: Seq<TokenModel>, k: int) -> bool {
    forall|j: int|
        0 <= j < k ==> token_ok_at(#[trigger] ts[j], j) && !has_char(token_text(ts[j]), '\0')
}

/// The command builder, scanning left to right, stops at position `k`.
pub open spec fn build_fails_at(ts: Seq<TokenModel>, k: int) -> bool {
    &&& 0 <= k < ts.len()
    &&& good_prefix(ts, k)
    &&& !(token_ok_at(ts[k], k) && !has_char(token_text(ts[k]), '\0'))
}

/// What the command builder makes of a token sequence: the first token's text
/// as program name and the rest as arguments, provided every token has the
/// right kind for its position and none embeds a null byte.
pub open spec fn spec_build_command(ts: Seq<TokenModel>) -> Option<CommandModel> {
    if ts.len() > 0 && good_prefix(ts, ts.len() as int) {
        Some(
            CommandModel {
                prog: token_text(ts[0]),
                args: ts.subrange(1, ts.len() as int).map_values(|t: TokenModel| token_text(t)),
            },
        )
    } else {
        None
    }
}

/// The directive one well-formed segment contributes: none when the segment
/// is empty, the termination signal when its first item is the reserved word
/// (any trailing items are accepted and ignored), and otherwise a command
/// made of its items.
pub open spec fn spec_segment_directive(s: Seq<char>) -> Option<FunctionModel> {
    let items = spec_items(s);
    if items.len() == 0 {
        None
    } else if items[0] == quit_word() {
        Some(FunctionModel::Quit)
    } else {
        Some(
            FunctionModel::Run(
                CommandModel { prog: items[0], args: items.subrange(1, items.len() as int) },
            ),
        )
    }
}

/// A command segment embeds a null byte somewhere in its items, which the OS
/// exec interface cannot accept.
pub open spec fn spec_segment_has_null(s: Seq<char>) -> bool {
    let items = spec_items(s);
    &&& items.len() > 0
    &&& items[0] != quit_word()
    &&& exists|j: int| 0 <= j < items.len() && has_char(#[trigger] items[j], '\0')
}

/// The segment parses without error: its quoted span (if any) is balanced,
/// and when it is a command, no item embeds a null byte.
pub open spec fn spec_segment_error_free(s: Seq<char>) -> bool {
    spec_quote_ok(s) && !spec_segment_has_null(s)
}

/// The first `k` segments parse without error.
pub open spec fn segs_error_free_upto(segs: Seq<Seq<char>>, k: int) -> bool {
    forall|j: int| 0 <= j < k ==> spec_segment_error_free(#[trigger] segs[j])
}

/// The directives of the segments from index `k` on, in order; empty segments
/// contribute none.
pub open spec fn spec_line_functions(segs: Seq<Seq<char>>, k: int) -> Seq<FunctionModel>
    decreases segs.len() - k when 0 <= k
{
    if k >= segs.len() {
        Seq::empty()
    } else {
        match spec_segment_directive(segs[k]) {
            Some(d) => seq![d] + spec_line_functions(segs, k + 1),
            None => spec_line_functions(segs, k + 1),
        }
    }
}

/// The commands among a directive list, in order.
pub open spec fn spec_run_list(fs: Seq<FunctionModel>) -> Seq<CommandModel>
    decreases fs.len(),
{
    if fs.len() == 0 {
        Seq::empty()
    } else {
        match fs[0] {
            FunctionModel::Run(c) => seq![c] + spec_run_list(fs.drop_first()),
            FunctionModel::Quit => spec_run_list(fs.drop_first()),
        }
    }
}

/// Some directive of the list asks to end the session.
pub open spec fn wants_quit(fs: Seq<FunctionModel>) -> bool {
    exists|k: int| 0 <= k < fs.len() && fs[k] is Quit
}

/// The positions of every `;` at or after `i`, in increasing order, with no
/// regard to escaping.
pub open spec fn semi_positions_from(s: Seq<char>, i: int) -> Seq<usize>
    decreases s.len() - i when 0 <= i
{
    if i >= s.len() {
        Seq::empty()
    } else if s[i] == ';' {
        seq![i as usize] + semi_positions_from(s, i + 1)
    } else {
        semi_positions_from(s, i + 1)
    }
}

/// The positions of every `;` in `s`.
pub open spec fn spec_semi_positions(s: Seq<char>) -> Seq<usize> {
    semi_positions_from(s, 0)
}

pub proof fn lemma_semi_positions_props(s: Seq<char>, i: int)
    requires
        0 <= i,
        s.len() <= usize::MAX,
    ensures
        ({
            let ps = semi_positions_from(s, i);
            &&& forall|k: int| 0 <= k < ps.len() ==> i <= #[trigger] ps[k] < s.len()
            &&& forall|k: int| 0 <= k < ps.len() ==> s[#[trigger] ps[k] as int] == ';'
            &&& forall|a: int, b: int|
                0 <= a < b < ps.len() ==> #[trigger] ps[a] < #[trigger] ps[b]
            &&& forall|j: int| i <= j < s.len() && s[j] == ';' ==> ps.contains(j as usize)
        }),
    decreases s.len() - i,
{
    if i < s.len() {
        lemma_semi_positions_props(s, i + 1);
        let ps = semi_positions_from(s, i);
        let rest = semi_positions_from(s, i + 1);
        if s[i] == ';' {
            assert(ps == seq![i as usize] + rest);
            assert(ps[0] == i as usize);
            assert forall|k: int| 1 <= k < ps.len() implies #[trigger] ps[k] == rest[k - 1] by {}
            assert forall|j: int| i <= j < s.len() && s[j] == ';' implies ps.contains(
                j as usize,
            ) by {
                if j == i {
                    assert(ps[0] == i as usize);
                } else {
                    assert(rest.contains(j as usize));
                    let k = choose|k: int| 0 <= k < rest.len() && rest[k] == j as usize;
                    assert(ps[k + 1] == j as usize);
                }
            }
        } else {
            assert(ps == rest);
            assert forall|j: int| i <= j < s.len() && s[j] == ';' implies ps.contains(
                j as usize,
            ) by {
                assert(j != i);
                assert(rest.contains(j as usize));
            }
        }
    }
}

/// `s` with its leading and trailing whitespace removed.
pub open spec fn spec_trim(s: Seq<char>) -> Seq<char> {
    let a = next_nonspace(s, 0);
    let b = last_nonspace(s, s.len() - 1);
    if a >= s.len() {
        Seq::empty()
    } else {
        s.subrange(a, b + 1)
    }
}

/// A line split at every `;`, each piece trimmed of surrounding whitespace.
pub open spec fn spec_split_trim(s: Seq<char>) -> Seq<Seq<char>> {
    split_at_positions(s, spec_semi_positions(s), 0).map_values(|p: Seq<char>| spec_trim(p))
}

} // verus!

