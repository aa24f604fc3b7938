//! The lexer: scans a raw input line for statement separators, splits it into
//! separator-free segments, turns each segment into tokens (recognizing one
//! quoted literal span and the reserved word `quit`), and builds validated
//! commands from token sequences.

use crate::model::{
    build_fails_at, first_index_of, good_prefix, has_char, is_sep, is_space, last_index_of,
    lemma_first_index_is, lemma_last_index_is, lemma_next_space, lemma_next_space_is,
    lemma_occurrence_bounds, lemma_sep_positions_props, lemma_split_at_positions_len,
    lemma_words_from_end,
    lemma_words_from_space, lemma_words_from_word, line_tokens_from, mark_tokens, next_space,
    quit_word, segs_error_free_upto, sep_positions_from, spec_atomic_tokens, spec_balanced,
    spec_build_command, spec_first_bad_segment, spec_items, spec_line_functions,
    spec_line_tokens, spec_quote_ok, spec_quote_span, spec_segment_directive,
    spec_segment_error_free, spec_segment_has_null, spec_segments, spec_sep_positions,
    spec_words, split_at_positions, token_ok_at, token_text, words_from, CommandModel,
    FunctionModel, TokenModel,
};
use vstd::prelude::*;
use vstd::string::StrSliceExecFns;

verus! {

/// One lexical unit of a segment: the program name that leads a command, an
/// argument, a statement separator, or the session-termination word.
#[derive(PartialEq, Eq, Debug)]
pub enum Token {
    Progname(String),
    Argument(String),
    Separator,
    Quit,
}

/// A fault in the current input line. Each text-carrying variant holds the
/// offending span of the line.
#[derive(PartialEq, Eq, Debug)]
pub enum ParseError {
    UnbalancedQuote(String),
    QuoteInAtomicString(String),
    TokenOutOfPlace,
    NullByteError,
}

/// The abstract value of one token.
pub open spec fn token_model(t: Token) -> TokenModel {
    match t {
        Token::Progname(w) => TokenModel::Progname(w@),
        Token::Argument(w) => TokenModel::Argument(w@),
        Token::Separator => TokenModel::Separator,
        Token::Quit => TokenModel::Quit,
    }
}

/// The abstract value of a token sequence.
pub open spec fn tokens_model(ts: Seq<Token>) -> Seq<TokenModel> {
    ts.map_values(|t: Token| token_model(t))
}

/// Reports whether `c` is one of the whitespace characters that split words:
/// the Unicode White_Space set, as `char::is_whitespace` defines it.
pub(crate) fn is_space_char(c: char) -> (b: bool)
    ensures
        b == is_space(c),
{
    c == ' ' || c == '\t' || c == '\n' || c == '\u{b}' || c == '\u{c}' || c == '\r' || c
        == '\u{85}' || c == '\u{a0}' || c == '\u{1680}' || c == '\u{2000}' || c == '\u{2001}'
        || c == '\u{2002}' || c == '\u{2003}' || c == '\u{2004}' || c == '\u{2005}' || c
        == '\u{2006}' || c == '\u{2007}' || c == '\u{2008}' || c == '\u{2009}' || c == '\u{200a}'
        || c == '\u{2028}' || c == '\u{2029}' || c == '\u{202f}' || c == '\u{205f}' || c
        == '\u{3000}'
}

/// Position of the first occurrence of `c` in `string`, if any.
fn find_char(string: &str, c: char) -> (r: Option<usize>)
    ensures
        match r {
            Some(p) => p as int == first_index_of(string@, c),
            None => !has_char(string@, c),
        },
{
    let n = string.unicode_len();
    let mut i: usize = 0;
    while i < n
        invariant
            n == string@.len(),
            i <= n,
            forall|j: int| 0 <= j < i ==> string@[j] != c,
        decreases n - i,
    {
        if string.get_char(i) == c {
            proof {
                lemma_first_index_is(string@, c, i as int);
            }
            return Some(i);
        }
        i += 1;
    }
    proof {
        lemma_occurrence_bounds(string@, c);
    }
    None
}

/// Position of the last occurrence of `c` in `string`, if any.
fn rfind_char(string: &str, c: char) -> (r: Option<usize>)
    ensures
        match r {
            Some(p) => p as int == last_index_of(string@, c),
            None => !has_char(string@, c),
        },
{
    let n = string.unicode_len();
    let mut i: usize = n;
    while i > 0
        invariant
            n == string@.len(),
            i <= n,
            forall|j: int| i <= j < n ==> string@[j] != c,
        decreases i,
    {
        i -= 1;
        if string.get_char(i) == c {
            proof {
                lemma_last_index_is(string@, c, i as int);
            }
            return Some(i);
        }
    }
    proof {
        lemma_occurrence_bounds(string@, c);
    }
    None
}

/// First whitespace position in `string` at or after `from`, or the length of
/// `string` if there is none.
fn next_space_pos(string: &str, from: usize) -> (r: usize)
    requires
        from as int <= string@.len(),
    ensures
        r as int == next_space(string@, from as int),
{
    let n = string.unicode_len();
    let mut i: usize = from;
    while i < n
        invariant
            n == string@.len(),
            from <= i <= n,
            forall|j: int| from <= j < i ==> !is_space(string@[j]),
        decreases n - i,
    {
        if is_space_char(string.get_char(i)) {
            proof {
                lemma_next_space_is(string@, from as int, i as int);
            }
            return i;
        }
        i += 1;
    }
    proof {
        lemma_next_space_is(string@, from as int, i as int);
    }
    i
}

/// Decides whether the designated delimiter occurs in `string` in balanced
/// pairs under the outside-in pairing rule: occurrences pair off from the
/// extremes inward, and a lone leftover occurrence is unbalanced.
pub fn has_balanced_apostrophes(string: &str, apostrophe_char: char) -> (b: bool)
    ensures
        b == spec_balanced(string@, apostrophe_char),
    decreases string@.len(),
{
    let first = find_char(string, apostrophe_char);
    let last = rfind_char(string, apostrophe_char);
    match (first, last) {
        (Some(fb), Some(lb)) => {
            if fb == lb {
                false
            } else {
                proof {
                    lemma_occurrence_bounds(string@, apostrophe_char);
                }
                let inner = string.substring_char(fb + 1, lb);
                has_balanced_apostrophes(inner, apostrophe_char)
            }
        },
        _ => {
            proof {
                lemma_occurrence_bounds(string@, apostrophe_char);
            }
            true
        },
    }
}

/// Splits `string` into its whitespace-separated words. A segment handed to
/// this function is expected to be free of quote characters already; a stray
/// quote is reported as `QuoteInAtomicString` carrying the rest of the string
/// from that quote on.
pub fn split_by_whitespace(string: &str) -> (r: Result<Vec<String>, ParseError>)
    ensures
        match r {
            Ok(words) => !has_char(string@, '"') && words.deep_view() == spec_words(string@),
            Err(ParseError::QuoteInAtomicString(t)) => {
                let q = first_index_of(string@, '"');
                &&& has_char(string@, '"')
                &&& t@ == string@.subrange(q, string@.len() as int)
            },
            Err(_) => false,
        },
{
    let n = string.unicode_len();
    match find_char(string, '"') {
        Some(pos) => {
            proof {
                lemma_occurrence_bounds(string@, '"');
            }
            let t = string.substring_char(pos, n).to_owned();
            Err(ParseError::QuoteInAtomicString(t))
        },
        None => {
            let mut words: Vec<String> = Vec::new();
            let mut i: usize = 0;
            proof {
                assert(words.deep_view() + words_from(string@, 0) =~= words_from(string@, 0));
            }
            while i < n
                invariant
                    n == string@.len(),
                    i <= n,
                    words.deep_view() + words_from(string@, i as int) == spec_words(string@),
                decreases n - i,
            {
                let ghost prev = words.deep_view();
                if is_space_char(string.get_char(i)) {
                    proof {
                        lemma_words_from_space(string@, i as int);
                    }
                    i += 1;
                } else {
                    let end = next_space_pos(string, i);
                    proof {
                        lemma_next_space(string@, i as int);
                        lemma_words_from_word(string@, i as int);
                    }
                    let w = string.substring_char(i, end).to_owned();
                    words.push(w);
                    proof {
                        assert(words.deep_view() =~= prev + seq![w@]);
                        assert(prev + seq![w@] + words_from(string@, end as int) =~= prev
                            + words_from(string@, i as int));
                    }
                    i = end;
                }
            }
            proof {
                lemma_words_from_end(string@, n as int);
                assert(words.deep_view() + words_from(string@, n as int) =~= words.deep_view());
            }
            Ok(words)
        },
    }
}

/// Locates the quoted block of a segment: the span from the first quote
/// character to the last one, both inclusive. Reports `UnbalancedQuote`
/// carrying that span when the quotes in it do not pair off.
pub fn find_quoted_block_position(string: &str) -> (r: Result<Option<(usize, usize)>, ParseError>)
    ensures
        match r {
            Ok(None) => !has_char(string@, '"'),
            Ok(Some(p)) => {
                let f = first_index_of(string@, '"');
                let l = last_index_of(string@, '"');
                &&& has_char(string@, '"')
                &&& p.0 as int == f
                &&& p.1 as int == l
                &&& spec_balanced(string@.subrange(f, l + 1), '"')
            },
            Err(ParseError::UnbalancedQuote(t)) => {
                let f = first_index_of(string@, '"');
                let l = last_index_of(string@, '"');
                &&& has_char(string@, '"')
                &&& !spec_balanced(string@.subrange(f, l + 1), '"')
                &&& t@ == string@.subrange(f, l + 1)
            },
            Err(_) => false,
        },
{
    let n = string.unicode_len();
    let first = find_char(string, '"');
    let last = rfind_char(string, '"');
    match (first, last) {
        (Some(fb), Some(lb)) => {
            proof {
                lemma_occurrence_bounds(string@, '"');
            }
            let span = string.substring_char(fb, lb + 1);
            if has_balanced_apostrophes(span, '"') {
                Ok(Some((fb, lb)))
            } else {
                Err(ParseError::UnbalancedQuote(span.to_owned()))
            }
        },
        _ => {
            proof {
                lemma_occurrence_bounds(string@, '"');
            }
            Ok(None)
        },
    }
}

/// Finds the positions of all true statement separators in the line: every
/// `;` except one escaped by a single preceding `\`; a double `\\` before the
/// `;` cancels the escape and the separator counts again.
pub fn find_all_separator_positions(string: &str) -> (positions: Vec<usize>)
    ensures
        positions@ == spec_sep_positions(string@),
        forall|k: int|
            0 <= k < positions@.len() ==> is_sep(string@, #[trigger] positions@[k] as int),
        forall|a: int, b: int|
            0 <= a < b < positions@.len() ==> #[trigger] positions@[a] < #[trigger] positions@[b],
        forall|i: int| is_sep(string@, i) ==> positions@.contains(i as usize),
{
    let n = string.unicode_len();
    let mut positions: Vec<usize> = Vec::new();
    let mut i: usize = 0;
    proof {
        assert(positions@ + sep_positions_from(string@, 0) =~= sep_positions_from(string@, 0));
    }
    while i < n
        invariant
            n == string@.len(),
            i <= n,
            positions@ + sep_positions_from(string@, i as int) == spec_sep_positions(string@),
        decreases n - i,
    {
        let ghost prev = positions@;
        let character = string.get_char(i);
        if character == ';' {
            if i > 0 && string.get_char(i - 1) == '\\' {
                if i > 1 && string.get_char(i - 2) == '\\' {
                    positions.push(i);
                }
            } else {
                positions.push(i);
            }
        }
        proof {
            if is_sep(string@, i as int) {
                assert(positions@ =~= prev + seq![i as usize]);
                assert(prev + seq![i as usize] + sep_positions_from(string@, i + 1) =~= prev
                    + sep_positions_from(string@, i as int));
            }
        }
        i += 1;
    }
    proof {
        lemma_sep_positions_props(string@, 0);
        assert(positions@ + sep_positions_from(string@, n as int) =~= positions@);
    }
    positions
}

/// Splits the line exclusively at the given strictly increasing positions:
/// the returned pieces are the text before, between, and after the positions,
/// with the character at each position dropped.
pub fn exclusive_separate_at_positions(string: &str, positions: Vec<usize>) -> (slices: Vec<
    String,
>)
    requires
        forall|k: int| 0 <= k < positions@.len() ==> (#[trigger] positions@[k] as int)
            < string@.len(),
        forall|a: int, b: int|
            0 <= a < b < positions@.len() ==> #[trigger] positions@[a] < #[trigger] positions@[b],
    ensures
        slices.deep_view() == split_at_positions(string@, positions@, 0),
        slices@.len() == positions@.len() + 1,
{
    let n = string.unicode_len();
    let mut slices: Vec<String> = Vec::new();
    let mut current_start: usize = 0;
    let mut k: usize = 0;
    proof {
        assert(positions@.subrange(0, positions@.len() as int) =~= positions@);
        assert(slices.deep_view() + split_at_positions(string@, positions@, 0)
            =~= split_at_positions(string@, positions@, 0));
    }
    while k < positions.len()
        invariant
            n == string@.len(),
            k <= positions@.len(),
            current_start <= n,
            k == 0 ==> current_start == 0,
            k > 0 ==> current_start == positions@[k - 1] + 1,
            forall|j: int| 0 <= j < positions@.len() ==> (#[trigger] positions@[j] as int)
                < string@.len(),
            forall|a: int, b: int|
                0 <= a < b < positions@.len() ==> #[trigger] positions@[a]
                    < #[trigger] positions@[b],
            slices.deep_view() + split_at_positions(
                string@,
                positions@.subrange(k as int, positions@.len() as int),
                current_start as int,
            ) == split_at_positions(string@, positions@, 0),
        decreases positions@.len() - k,
    {
        let ghost prev = slices.deep_view();
        let ghost rest = positions@.subrange(k as int, positions@.len() as int);
        let position = positions[k];
        let piece = string.substring_char(current_start, position).to_owned();
        slices.push(piece);
        proof {
            assert(rest[0] == positions@[k as int]);
            assert(rest.drop_first() =~= positions@.subrange(
                k as int + 1,
                positions@.len() as int,
            ));
            assert(slices.deep_view() =~= prev + seq![piece@]);
            assert(prev + seq![piece@] + split_at_positions(
                string@,
                rest.drop_first(),
                position + 1,
            ) =~= prev + split_at_positions(string@, rest, current_start as int));
        }
        current_start = position + 1;
        k += 1;
    }
    let ghost prev = slices.deep_view();
    let last = string.substring_char(current_start, n).to_owned();
    slices.push(last);
    proof {
        assert(positions@.subrange(k as int, positions@.len() as int)
            =~= Seq::<usize>::empty());
        assert(slices.deep_view() =~= prev + seq![last@]);
        assert(prev + seq![last@] =~= prev + split_at_positions(
            string@,
            positions@.subrange(k as int, positions@.len() as int),
            current_start as int,
        ));
        lemma_split_at_positions_len(string@, positions@, 0);
    }
    slices
}

/// Reports whether `w` is exactly the reserved session-termination word.
fn is_quit_string(w: &str) -> (b: bool)
    ensures
        b == (w@ == quit_word()),
{
    proof {
        assert(quit_word().len() == 4);
        assert(quit_word()[0] == 'q');
        assert(quit_word()[1] == 'u');
        assert(quit_word()[2] == 'i');
        assert(quit_word()[3] == 't');
    }
    let n = w.unicode_len();
    if n != 4 {
        return false;
    }
    let b = w.get_char(0) == 'q' && w.get_char(1) == 'u' && w.get_char(2) == 'i' && w.get_char(3)
        == 't';
    proof {
        if b {
            assert(w@ =~= quit_word());
        }
    }
    b
}

/// Turns the items of one segment into tokens: the first item becomes the
/// program name, or the termination token when it is the reserved word; every
/// following item becomes an argument.
fn mark_items(items: Vec<String>) -> (tokens: Vec<Token>)
    ensures
        tokens_model(tokens@) == mark_tokens(items.deep_view()),
{
    let ghost marked = mark_tokens(items.deep_view());
    let mut tokens: Vec<Token> = Vec::new();
    let mut k: usize = 0;
    proof {
        assert(tokens_model(tokens@) =~= marked.subrange(0, 0));
    }
    while k < items.len()
        invariant
            marked == mark_tokens(items.deep_view()),
            k <= items@.len(),
            tokens_model(tokens@) == marked.subrange(0, k as int),
        decreases items@.len() - k,
    {
        let ghost prev = tokens_model(tokens@);
        if k == 0 {
            if is_quit_string(items[k].as_str()) {
                tokens.push(Token::Quit);
            } else {
                tokens.push(Token::Progname(items[k].clone()));
            }
        } else {
            tokens.push(Token::Argument(items[k].clone()));
        }
        proof {
            assert(tokens_model(tokens@) =~= prev.push(marked[k as int]));
            assert(prev.push(marked[k as int]) =~= marked.subrange(0, k as int + 1));
        }
        k += 1;
    }
    proof {
        assert(marked.subrange(0, items@.len() as int) =~= marked);
    }
    tokens
}

/// Turns one separator-free segment into its token sequence. A segment with
/// no quote character is split on whitespace; otherwise the span from the
/// first to the last quote becomes a single argument (quotes retained), with
/// the surrounding text split on whitespace, and an unbalanced quoted span is
/// reported as `UnbalancedQuote`.
pub fn tokenize_atomic_string(string: &str) -> (r: Result<Vec<Token>, ParseError>)
    ensures
        match r {
            Ok(tokens) => spec_quote_ok(string@) && tokens_model(tokens@) == spec_atomic_tokens(
                string@,
            ),
            Err(ParseError::UnbalancedQuote(t)) => {
                &&& has_char(string@, '"')
                &&& !spec_quote_ok(string@)
                &&& t@ == spec_quote_span(string@)
            },
            Err(_) => false,
        },
{
    let n = string.unicode_len();
    let quoted_block_position = match find_quoted_block_position(string) {
        Ok(v) => v,
        Err(e) => {
            proof {
                lemma_occurrence_bounds(string@, '"');
            }
            return Err(e);
        },
    };
    match quoted_block_position {
        Some((fb, lb)) => {
            proof {
                lemma_occurrence_bounds(string@, '"');
            }
            let left = string.substring_char(0, fb);
            let right = string.substring_char(lb + 1, n);
            let mut items = match split_by_whitespace(left) {
                Ok(ws) => ws,
                Err(e) => {
                    proof {
                        let i = choose|i: int| 0 <= i < left@.len() && left@[i] == '"';
                        assert(string@[i] == '"');
                        assert(false);
                    }
                    return Err(e);
                },
            };
            let ghost left_deep = items.deep_view();
            let quoted_part = string.substring_char(fb, lb + 1).to_owned();
            items.push(quoted_part);
            let mut right_words = match split_by_whitespace(right) {
                Ok(ws) => ws,
                Err(e) => {
                    proof {
                        let i = choose|i: int| 0 <= i < right@.len() && right@[i] == '"';
                        assert(string@[lb + 1 + i] == '"');
                        assert(false);
                    }
                    return Err(e);
                },
            };
            items.append(&mut right_words);
            proof {
                assert(items.deep_view() =~= spec_items(string@));
            }
            Ok(mark_items(items))
        },
        None => {
            proof {
                lemma_occurrence_bounds(string@, '"');
            }
            let words = match split_by_whitespace(string) {
                Ok(ws) => ws,
                Err(e) => {
                    proof {
                        assert(false);
                    }
                    return Err(e);
                },
            };
            Ok(mark_items(words))
        },
    }
}

/// Lexes a whole input line: finds the true statement separators, splits the
/// line into segments at them, tokenizes each segment, and joins the results
/// with a separator token between neighbouring segments. The first segment
/// with an unbalanced quoted span aborts the whole line.
pub fn tokenize_string(string: &str) -> (r: Result<Vec<Token>, ParseError>)
    ensures
        match r {
            Ok(tokens) => {
                &&& forall|j: int|
                    0 <= j < spec_segments(string@).len() ==> spec_quote_ok(
                        #[trigger] spec_segments(string@)[j],
                    )
                &&& tokens_model(tokens@) == spec_line_tokens(string@)
            },
            Err(ParseError::UnbalancedQuote(t)) => exists|k: int|
                #[trigger] spec_first_bad_segment(string@, k) && t@ == spec_quote_span(
                    spec_segments(string@)[k],
                ),
            Err(_) => false,
        },
{
    let positions = find_all_separator_positions(string);
    let atomic_strings = exclusive_separate_at_positions(string, positions);
    let ghost segs = spec_segments(string@);
    let mut tokens: Vec<Token> = Vec::new();
    let mut index: usize = 0;
    proof {
        assert(tokens_model(tokens@) + line_tokens_from(segs, 0) =~= line_tokens_from(segs, 0));
    }
    while index < atomic_strings.len()
        invariant
            segs == spec_segments(string@),
            atomic_strings.deep_view() == segs,
            index <= atomic_strings@.len(),
            forall|j: int| 0 <= j < index ==> spec_quote_ok(#[trigger] segs[j]),
            tokens_model(tokens@) + line_tokens_from(segs, index as int) == spec_line_tokens(
                string@,
            ),
        decreases atomic_strings@.len() - index,
    {
        let ghost prev = tokens_model(tokens@);
        if index > 0 {
            tokens.push(Token::Separator);
        }
        let mut atomic_tokens = match tokenize_atomic_string(atomic_strings[index].as_str()) {
            Ok(t) => t,
            Err(e) => {
                proof {
                    assert(spec_first_bad_segment(string@, index as int));
                }
                return Err(e);
            },
        };
        let ghost atoks = tokens_model(atomic_tokens@);
        tokens.append(&mut atomic_tokens);
        proof {
            if index == 0 {
                assert(tokens_model(tokens@) =~= prev + atoks);
            } else {
                assert(tokens_model(tokens@) =~= prev + seq![TokenModel::Separator] + atoks);
                assert(prev + seq![TokenModel::Separator] + atoks =~= prev + (seq![
                    TokenModel::Separator,
                ] + atoks));
            }
            assert(prev + line_tokens_from(segs, index as int) == spec_line_tokens(string@));
        }
        index += 1;
    }
    proof {
        assert(tokens_model(tokens@) + line_tokens_from(segs, index as int) =~= tokens_model(
            tokens@,
        ));
    }
    Ok(tokens)
}

/// Reports whether a token is the session-termination token.
fn token_is_quit(t: &Token) -> (b: bool)
    ensures
        b == (token_model(*t) is Quit),
{
    match t {
        Token::Quit => true,
        _ => false,
    }
}

/// Reports whether `c` occurs anywhere in `string`.
fn contains_char(string: &str, c: char) -> (b: bool)
    ensures
        b == has_char(string@, c),
{
    match find_char(string, c) {
        Some(p) => {
            proof {
                lemma_occurrence_bounds(string@, c);
            }
            true
        },
        None => false,
    }
}

/// A validated, executable command: a program name and its arguments, each an
/// owned string free of embedded null bytes.
#[derive(PartialEq, Eq, Debug)]
pub struct Command {
    pub progname: String,
    pub arguments: Vec<String>,
}

impl Command {
    /// The abstract value of this command.
    pub open spec fn model(self) -> CommandModel {
        CommandModel { prog: self.progname@, args: self.arguments.deep_view() }
    }

    /// No null byte anywhere, as the OS exec interface requires.
    pub open spec fn wf(self) -> bool {
        &&& !has_char(self.progname@, '\0')
        &&& forall|j: int|
            0 <= j < self.arguments@.len() ==> !has_char(#[trigger] self.arguments@[j]@, '\0')
    }

    /// Builds a command from one segment's tokens, scanning left to right:
    /// the first token must be a program name and every later one an argument
    /// (`TokenOutOfPlace` otherwise), and no token's text may embed a null
    /// byte (`NullByteError`). The first offence decides the error.
    pub fn new(tokens: Vec<Token>) -> (r: Result<Command, ParseError>)
        requires
            tokens@.len() > 0,
        ensures
            match r {
                Ok(cmd) => {
                    &&& Some(cmd.model()) == spec_build_command(tokens_model(tokens@))
                    &&& cmd.wf()
                },
                Err(ParseError::TokenOutOfPlace) => exists|k: int|
                    #[trigger] build_fails_at(tokens_model(tokens@), k) && !token_ok_at(
                        tokens_model(tokens@)[k],
                        k,
                    ),
                Err(ParseError::NullByteError) => exists|k: int|
                    #[trigger] build_fails_at(tokens_model(tokens@), k) && token_ok_at(
                        tokens_model(tokens@)[k],
                        k,
                    ) && has_char(token_text(tokens_model(tokens@)[k]), '\0'),
                Err(_) => false,
            },
    {
        let ghost tm = tokens_model(tokens@);
        let progname: String = match &tokens[0] {
            Token::Progname(w) => {
                if contains_char(w.as_str(), '\0') {
                    proof {
                        assert(build_fails_at(tm, 0));
                    }
                    return Err(ParseError::NullByteError);
                }
                w.clone()
            },
            _ => {
                proof {
                    assert(build_fails_at(tm, 0));
                }
                return Err(ParseError::TokenOutOfPlace);
            },
        };
        let mut arguments: Vec<String> = Vec::new();
        let mut k: usize = 1;
        proof {
            assert(arguments.deep_view() =~= tm.subrange(1, 1).map_values(
                |t: TokenModel| token_text(t),
            ));
        }
        while k < tokens.len()
            invariant
                tm == tokens_model(tokens@),
                1 <= k <= tokens@.len(),
                good_prefix(tm, k as int),
                progname@ == token_text(tm[0]),
                !has_char(progname@, '\0'),
                arguments.deep_view() == tm.subrange(1, k as int).map_values(
                    |t: TokenModel| token_text(t),
                ),
                forall|j: int|
                    0 <= j < arguments@.len() ==> !has_char(#[trigger] arguments@[j]@, '\0'),
            decreases tokens@.len() - k,
        {
            let ghost prev = arguments.deep_view();
            match &tokens[k] {
                Token::Argument(w) => {
                    if contains_char(w.as_str(), '\0') {
                        proof {
                            assert(build_fails_at(tm, k as int));
                        }
                        return Err(ParseError::NullByteError);
                    }
                    arguments.push(w.clone());
                    proof {
                        assert(arguments.deep_view() =~= prev.push(token_text(tm[k as int])));
                        assert(prev.push(token_text(tm[k as int])) =~= tm.subrange(
                            1,
                            k as int + 1,
                        ).map_values(|t: TokenModel| token_text(t)));
                    }
                },
                _ => {
                    proof {
                        assert(build_fails_at(tm, k as int));
                    }
                    return Err(ParseError::TokenOutOfPlace);
                },
            }
            k += 1;
        }
        let cmd = Command { progname, arguments };
        proof {
            assert(tm.subrange(1, k as int) == tm.subrange(1, tm.len() as int));
            assert(spec_build_command(tm) == Some(cmd.model()));
        }
        Ok(cmd)
    }
}

/// One parsed directive of an input line: a command to run, or the
/// session-termination signal.
#[derive(PartialEq, Eq, Debug)]
pub enum Function {
    ShellCommand(Command),
    Quit,
}

/// The abstract value of one directive.
pub open spec fn function_model(f: Function) -> FunctionModel {
    match f {
        Function::ShellCommand(c) => FunctionModel::Run(c.model()),
        Function::Quit => FunctionModel::Quit,
    }
}

/// The abstract value of a directive list.
pub open spec fn functions_model(fs: Seq<Function>) -> Seq<FunctionModel> {
    fs.map_values(|f: Function| function_model(f))
}

/// Parses a whole input line into its directive list: splits it at the true
/// separators, tokenizes each segment, and builds one directive per non-empty
/// segment — the termination signal when the segment's first item is the
/// reserved word (trailing items accepted and ignored), a command otherwise.
/// The first failing segment, left to right, decides the error.
pub fn get_function_from_string(string: &str) -> (r: Result<Vec<Function>, ParseError>)
    ensures
        match r {
            Ok(functions) => {
                &&& segs_error_free_upto(
                    spec_segments(string@),
                    spec_segments(string@).len() as int,
                )
                &&& functions_model(functions@) == spec_line_functions(spec_segments(string@), 0)
            },
            Err(ParseError::UnbalancedQuote(t)) => exists|k: int|
                {
                    &&& 0 <= k < spec_segments(string@).len()
                    &&& #[trigger] segs_error_free_upto(spec_segments(string@), k)
                    &&& !spec_quote_ok(spec_segments(string@)[k])
                    &&& t@ == spec_quote_span(spec_segments(string@)[k])
                },
            Err(ParseError::NullByteError) => exists|k: int|
                {
                    &&& 0 <= k < spec_segments(string@).len()
                    &&& #[trigger] segs_error_free_upto(spec_segments(string@), k)
                    &&& spec_quote_ok(spec_segments(string@)[k])
                    &&& spec_segment_has_null(spec_segments(string@)[k])
                },
            Err(_) => false,
        },
{
    let positions = find_all_separator_positions(string);
    let atomic_strings = exclusive_separate_at_positions(string, positions);
    let ghost segs = spec_segments(string@);
    let mut functions: Vec<Function> = Vec::new();
    let mut index: usize = 0;
    proof {
        assert(functions_model(functions@) + spec_line_functions(segs, 0) =~= spec_line_functions(
            segs,
            0,
        ));
    }
    while index < atomic_strings.len()
        invariant
            segs == spec_segments(string@),
            atomic_strings.deep_view() == segs,
            index <= atomic_strings@.len(),
            segs_error_free_upto(segs, index as int),
            functions_model(functions@) + spec_line_functions(segs, index as int)
                == spec_line_functions(segs, 0),
        decreases atomic_strings@.len() - index,
    {
        let ghost seg = segs[index as int];
        let ghost items = spec_items(seg);
        let ghost prev = functions_model(functions@);
        let atomic_tokens = match tokenize_atomic_string(atomic_strings[index].as_str()) {
            Ok(t) => t,
            Err(e) => {
                return Err(e);
            },
        };
        let ghost tm = tokens_model(atomic_tokens@);
        proof {
            assert(tm == mark_tokens(items));
            assert(tm.len() == items.len());
        }
        if atomic_tokens.len() == 0 {
            proof {
                assert(spec_segment_directive(seg) is None);
                assert(spec_segment_error_free(seg));
            }
        } else {
            let first_is_quit = token_is_quit(&atomic_tokens[0]);
            proof {
                assert(tm[0] == token_model(atomic_tokens@[0]));
                assert(first_is_quit == (items[0] == quit_word()));
            }
            if first_is_quit {
                functions.push(Function::Quit);
                proof {
                    assert(spec_segment_directive(seg) == Some(FunctionModel::Quit));
                    assert(spec_segment_error_free(seg));
                    assert(functions_model(functions@) =~= prev + seq![FunctionModel::Quit]);
                    assert(prev + seq![FunctionModel::Quit] + spec_line_functions(
                        segs,
                        index as int + 1,
                    ) =~= prev + spec_line_functions(segs, index as int));
                }
            } else {
                let cmd = match Command::new(atomic_tokens) {
                    Ok(c) => c,
                    Err(e) => {
                        proof {
                            assert(forall|j: int|
                                0 <= j < tm.len() ==> token_ok_at(#[trigger] tm[j], j));
                            assert(forall|j: int|
                                0 <= j < tm.len() ==> token_text(#[trigger] tm[j]) == items[j]);
                            let bad = choose|k: int| #[trigger] build_fails_at(tm, k);
                            assert(has_char(items[bad], '\0'));
                            assert(spec_segment_has_null(seg));
                        }
                        return Err(e);
                    },
                };
                functions.push(Function::ShellCommand(cmd));
                proof {
                    assert(forall|j: int|
                        0 <= j < tm.len() ==> token_ok_at(#[trigger] tm[j], j) && token_text(
                            tm[j],
                        ) == items[j]);
                    assert(cmd.model().args =~= items.subrange(1, items.len() as int));
                    assert(spec_segment_directive(seg) == Some(
                        FunctionModel::Run(cmd.model()),
                    ));
                    assert forall|j: int| 0 <= j < items.len() implies !has_char(
                        #[trigger] items[j],
                        '\0',
                    ) by {
                        if j == 0 {
                            assert(!has_char(cmd.model().prog, '\0'));
                        } else {
                            assert(cmd.model().args[j - 1] == items.subrange(
                                1,
                                items.len() as int,
                            )[j - 1]);
                            assert(cmd.arguments.deep_view()[j - 1] == cmd.arguments@[j - 1]@);
                            assert(cmd.arguments@[j - 1]@ == items[j]);
                        }
                    }
                    assert(spec_segment_error_free(seg));
                    assert(functions_model(functions@) =~= prev + seq![
                        FunctionModel::Run(cmd.model()),
                    ]);
                    assert(prev + seq![FunctionModel::Run(cmd.model())] + spec_line_functions(
                        segs,
                        index as int + 1,
                    ) =~= prev + spec_line_functions(segs, index as int));
                }
            }
        }
        index += 1;
    }
    proof {
        assert(functions_model(functions@) + spec_line_functions(segs, index as int)
            =~= functions_model(functions@));
    }
    Ok(functions)
}

} // verus!
