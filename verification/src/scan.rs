//! The scanning rules, stated as specification functions.
//!
//! `spec_next` gives, for an input text and a scan position, the next token
//! and the position after it; `spec_subst` gives the extent of a
//! substitution construct (`$...`, `${...}`, `$((...))`, back-quoted).
//! The executable lexer is verified to follow these functions exactly.

use vstd::prelude::*;

verus! {

/// The four categories a token can fall in. While a token is still being
/// accumulated, the scanner keeps the tentative category in its context.
#[derive(Clone, Copy, Debug, PartialEq, Eq, Structural)]
pub enum TokenKind {
    Word,
    Operator,
    IoNumber,
    NewLine,
}

/// A token at the specification level: the category together with the
/// verbatim lexeme (quote and escape characters included).
pub enum SpecToken {
    Word(Seq<char>),
    Operator(Seq<char>),
    IoNumber(Seq<char>),
    NewLine,
}

/// The per-token scratch state of the scanner: the characters accumulated
/// so far, the active quote character if any, and the tentative category.
#[verifier::ext_equal]
pub struct SpecCtx {
    pub lexeme: Seq<char>,
    pub quote: Option<char>,
    pub kind: Option<TokenKind>,
}

/// The scratch state at the start of every token-producing step.
pub open spec fn empty_ctx() -> SpecCtx {
    SpecCtx { lexeme: Seq::empty(), quote: None, kind: None }
}

/// The character at position `i`, or the NUL sentinel once the input is
/// exhausted (a NUL in the input itself therefore also stops the scan).
pub open spec fn char_at(input: Seq<char>, i: int) -> char {
    if 0 <= i < input.len() {
        input[i]
    } else {
        '\0'
    }
}

/// The fixed table of control operators recognized by the scanner.
pub open spec fn operators() -> Seq<Seq<char>> {
    seq![
        seq!['&', '&'],
        seq!['|', '|'],
        seq![';'],
        seq!['<', '<'],
        seq!['>', '>'],
        seq!['<', '&'],
        seq!['>', '&'],
        seq!['<', '>'],
        seq!['<', '<', '-'],
        seq!['>', '|'],
    ]
}

pub open spec fn is_prefix_of(s: Seq<char>, t: Seq<char>) -> bool {
    s.len() <= t.len() && forall|k: int| 0 <= k < s.len() ==> s[k] == t[k]
}

/// Does `s` match a non-empty prefix (of any length up to the entry's own
/// length) of some entry of the operator table? This drives maximal-munch
/// recognition.
pub open spec fn is_op_prefix(s: Seq<char>) -> bool {
    s.len() > 0 && exists|i: int|
        0 <= i < operators().len() && is_prefix_of(s, #[trigger] operators()[i])
}

pub open spec fn is_digit(c: char) -> bool {
    '0' <= c && c <= '9'
}

pub open spec fn all_digits(s: Seq<char>) -> bool {
    forall|k: int| 0 <= k < s.len() ==> is_digit(s[k])
}

pub open spec fn is_blank(c: char) -> bool {
    c == ' ' || c == '\t'
}

pub open spec fn is_quote_char(c: char) -> bool {
    c == '\'' || c == '"' || c == '\\'
}

/// Do the characters at position `i` spell out `m` exactly?
pub open spec fn marker_match(input: Seq<char>, i: int, m: Seq<char>) -> bool {
    0 <= i && i + m.len() <= input.len() && input.subrange(i, i + m.len()) == m
}

/// At a substitution start (`$` or back-quote at position `i`): the position
/// after the opening marker, and the closing marker to look for.
/// `None` means a bare simple-parameter reference, which has no closing
/// marker and whose identifier is left to the ordinary word rules.
pub open spec fn subst_open(input: Seq<char>, i: int) -> (int, Option<Seq<char>>) {
    if char_at(input, i) == '`' {
        (i + 1, Some(seq!['`']))
    } else if char_at(input, i + 1) == '(' && char_at(input, i + 2) == '(' {
        (i + 3, Some(seq![')', ')']))
    } else if char_at(input, i + 1) == '(' {
        (i + 2, Some(seq![')']))
    } else if char_at(input, i + 1) == '{' {
        (i + 2, Some(seq!['}']))
    } else {
        (i + 1, None)
    }
}

/// The body of the substitution scanner. `markers` is the stack of pending
/// closing markers, innermost last; a nested substitution pushes its marker
/// and the scan goes on until the outermost marker (or the end of the
/// input) is reached. Returns the position after the construct and the
/// quote character still open, if the input ended inside a quote.
pub open spec fn spec_subst_body(
    input: Seq<char>,
    i: int,
    markers: Seq<Seq<char>>,
    quote: Option<char>,
) -> (int, Option<char>)
    decreases input.len() - i, markers.len(),
{
    let c = char_at(input, i);
    if c == '\0' || markers.len() == 0 {
        (i, quote)
    } else if quote is None && is_quote_char(c) {
        spec_subst_body(input, i + 1, markers, Some(c))
    } else if quote is None && marker_match(input, i, markers.last()) {
        if markers.len() == 1 {
            (i + markers.last().len(), None)
        } else {
            spec_subst_body(input, i + markers.last().len(), markers.drop_last(), None)
        }
    } else if quote is None && (c == '$' || c == '`') {
        let (i2, m2) = subst_open(input, i);
        match m2 {
            None => spec_subst_body(input, i2, markers, None),
            Some(mk) => spec_subst_body(input, i2, markers.push(mk), None),
        }
    } else if quote == Some(c) || quote == Some('\\') {
        spec_subst_body(input, i + 1, markers, None)
    } else {
        spec_subst_body(input, i + 1, markers, quote)
    }
}

/// The whole substitution construct starting at `i` (a `$` or back-quote):
/// the position after it and the quote left open at end of input, if any.
pub open spec fn spec_subst(input: Seq<char>, i: int) -> (int, Option<char>) {
    let (i2, m) = subst_open(input, i);
    match m {
        None => (i2, None),
        Some(mk) => spec_subst_body(input, i2, seq![mk], None),
    }
}

/// The position of the next newline or NUL at or after `i`: a comment runs
/// up to but not including it.
pub open spec fn spec_skip_comment(input: Seq<char>, i: int) -> int
    decreases input.len() - i,
{
    let c = char_at(input, i);
    if c == '\n' || c == '\0' {
        i
    } else {
        spec_skip_comment(input, i + 1)
    }
}

/// Delimiting the pending token at position `i`: the accumulated lexeme
/// under the tentative category, except that a purely-decimal word
/// immediately followed by `<` or `>` is reclassified as an io number.
pub open spec fn spec_delimit(input: Seq<char>, i: int, ctx: SpecCtx) -> SpecToken {
    match ctx.kind {
        Some(TokenKind::Word) => {
            if ctx.lexeme.len() > 0 && all_digits(ctx.lexeme) && (char_at(input, i) == '<'
                || char_at(input, i) == '>') {
                SpecToken::IoNumber(ctx.lexeme)
            } else {
                SpecToken::Word(ctx.lexeme)
            }
        },
        Some(TokenKind::Operator) => SpecToken::Operator(ctx.lexeme),
        Some(TokenKind::IoNumber) => SpecToken::IoNumber(ctx.lexeme),
        Some(TokenKind::NewLine) => SpecToken::NewLine,
        None => SpecToken::Word(ctx.lexeme),
    }
}

/// One token-producing step from position `i` with scratch state `ctx`:
/// the token produced (`None` once the input is exhausted with nothing
/// pending) and the position after the step. The branches are tried in
/// order; the first whose guard holds decides the step.
pub open spec fn spec_next(input: Seq<char>, i: int, ctx: SpecCtx) -> (Option<SpecToken>, int)
    decreases input.len() - i,
{
    let c = char_at(input, i);
    if c == '\0' {
        // End of input: delimit the pending token, or signal exhaustion.
        if ctx.lexeme.len() == 0 {
            (None, i)
        } else {
            (Some(spec_delimit(input, i, ctx)), i)
        }
    } else {
        let quoted = ctx.quote is Some;
        if !quoted && ctx.kind == Some(TokenKind::Operator) {
            // Maximal munch: extend the operator while it still matches.
            if is_op_prefix(ctx.lexeme.push(c)) {
                spec_next(
                    input,
                    i + 1,
                    SpecCtx { lexeme: ctx.lexeme.push(c), quote: ctx.quote, kind: ctx.kind },
                )
            } else {
                (Some(spec_delimit(input, i, ctx)), i)
            }
        } else if !quoted && is_quote_char(c) {
            // A quote opens; the quote character itself is kept in the lexeme.
            spec_next(
                input,
                i + 1,
                SpecCtx {
                    lexeme: ctx.lexeme.push(c),
                    quote: Some(c),
                    kind: if ctx.kind is None {
                        Some(TokenKind::Word)
                    } else {
                        ctx.kind
                    },
                },
            )
        } else if !quoted && (c == '$' || c == '`') {
            // A substitution is consumed whole and appended verbatim.
            let (j, q) = spec_subst(input, i);
            proof {
                lemma_spec_subst_advances(input, i);
            }
            spec_next(
                input,
                j,
                SpecCtx {
                    lexeme: ctx.lexeme + input.subrange(i, j),
                    quote: q,
                    kind: Some(TokenKind::Word),
                },
            )
        } else if !quoted && is_op_prefix(seq![c]) {
            // An operator may begin here; it breaks a preceding word.
            if ctx.lexeme.len() == 0 {
                spec_next(
                    input,
                    i + 1,
                    SpecCtx { lexeme: seq![c], quote: ctx.quote, kind: Some(TokenKind::Operator) },
                )
            } else {
                (Some(spec_delimit(input, i, ctx)), i)
            }
        } else if !quoted && is_blank(c) {
            // Blanks separate tokens and are never themselves emitted.
            if ctx.lexeme.len() == 0 {
                spec_next(input, i + 1, ctx)
            } else {
                (Some(spec_delimit(input, i, ctx)), i)
            }
        } else if c == '\n' {
            // A newline delimits, and is itself a token when nothing is pending.
            if ctx.lexeme.len() == 0 {
                (Some(SpecToken::NewLine), i + 1)
            } else {
                (Some(spec_delimit(input, i, ctx)), i)
            }
        } else if ctx.kind == Some(TokenKind::Word) {
            // An in-progress word takes the character; a quote closes on its
            // own character, and a backslash quote after exactly one character.
            let nq = if ctx.quote == Some(c) || ctx.quote == Some('\\') {
                None
            } else {
                ctx.quote
            };
            spec_next(
                input,
                i + 1,
                SpecCtx { lexeme: ctx.lexeme.push(c), quote: nq, kind: ctx.kind },
            )
        } else if c == '#' && ctx.kind is None {
            // A comment runs to the newline and produces nothing.
            proof {
                lemma_spec_skip_comment_bounds(input, i + 1);
            }
            spec_next(input, spec_skip_comment(input, i + 1), ctx)
        } else {
            // Anything else starts a new word.
            spec_next(
                input,
                i + 1,
                SpecCtx { lexeme: ctx.lexeme.push(c), quote: ctx.quote, kind: Some(TokenKind::Word) },
            )
        }
    }
}

/// The substitution scanner only moves forward, and never past the end of
/// the input it started inside of.
pub proof fn lemma_spec_subst_body_bounds(
    input: Seq<char>,
    i: int,
    markers: Seq<Seq<char>>,
    quote: Option<char>,
)
    ensures
        spec_subst_body(input, i, markers, quote).0 >= i,
        i <= input.len() ==> spec_subst_body(input, i, markers, quote).0 <= input.len(),
    decreases input.len() - i, markers.len(),
{
    let c = char_at(input, i);
    if c == '\0' || markers.len() == 0 {
    } else if quote is None && is_quote_char(c) {
        lemma_spec_subst_body_bounds(input, i + 1, markers, Some(c));
    } else if quote is None && marker_match(input, i, markers.last()) {
        if markers.len() == 1 {
        } else {
            lemma_spec_subst_body_bounds(input, i + markers.last().len(), markers.drop_last(), None);
        }
    } else if quote is None && (c == '$' || c == '`') {
        let (i2, m2) = subst_open(input, i);
        match m2 {
            None => lemma_spec_subst_body_bounds(input, i2, markers, None),
            Some(mk) => lemma_spec_subst_body_bounds(input, i2, markers.push(mk), None),
        }
    } else if quote == Some(c) || quote == Some('\\') {
        lemma_spec_subst_body_bounds(input, i + 1, markers, None);
    } else {
        lemma_spec_subst_body_bounds(input, i + 1, markers, quote);
    }
}

/// A substitution construct consumes at least its first character and stays
/// within the input.
pub proof fn lemma_spec_subst_advances(input: Seq<char>, i: int)
    requires
        0 <= i < input.len(),
    ensures
        i < spec_subst(input, i).0 <= input.len(),
{
    let (i2, m) = subst_open(input, i);
    match m {
        None => {},
        Some(mk) => {
            lemma_spec_subst_body_bounds(input, i2, seq![mk], None);
        },
    }
}

/// A nested substitution behaves like a fresh scan for its own closing
/// marker: scanning under `markers` with `mk` pushed on top is scanning for
/// `mk` alone and then going on, from where that scan ended and with the
/// quote state it left, under `markers` again. (If the inner scan ran into
/// the end of the input, the outer one, resumed there, ends there too.)
pub proof fn lemma_subst_stack(
    input: Seq<char>,
    i: int,
    markers: Seq<Seq<char>>,
    mk: Seq<char>,
    quote: Option<char>,
)
    requires
        markers.len() >= 1,
    ensures
        ({
            let (j, q2) = spec_subst_body(input, i, seq![mk], quote);
            spec_subst_body(input, i, markers.push(mk), quote) == spec_subst_body(
                input,
                j,
                markers,
                q2,
            )
        }),
    decreases input.len() - i,
{
    let c = char_at(input, i);
    let pushed = markers.push(mk);
    assert(pushed.last() == mk);
    assert(pushed.drop_last() =~= markers);
    if c == '\0' {
    } else if quote is None && is_quote_char(c) {
        lemma_subst_stack(input, i + 1, markers, mk, Some(c));
    } else if quote is None && marker_match(input, i, mk) {
        // Both scans consume the marker; the stacked one then continues
        // under `markers`, exactly where the lone scan hands over.
    } else if quote is None && (c == '$' || c == '`') {
        let (i2, m2) = subst_open(input, i);
        match m2 {
            None => {
                lemma_subst_stack(input, i2, markers, mk, None);
            },
            Some(mk2) => {
                lemma_spec_subst_body_bounds(input, i2, seq![mk2], None);
                let (j1, q1) = spec_subst_body(input, i2, seq![mk2], None);
                lemma_subst_stack(input, i2, seq![mk], mk2, None);
                lemma_subst_stack(input, i2, pushed, mk2, None);
                lemma_subst_stack(input, j1, markers, mk, q1);
            },
        }
    } else if quote == Some(c) || quote == Some('\\') {
        lemma_subst_stack(input, i + 1, markers, mk, None);
    } else {
        lemma_subst_stack(input, i + 1, markers, mk, quote);
    }
}

/// Comment skipping only moves forward, to a position within the input.
pub proof fn lemma_spec_skip_comment_bounds(input: Seq<char>, i: int)
    ensures
        spec_skip_comment(input, i) >= i,
        i <= input.len() ==> spec_skip_comment(input, i) <= input.len(),
    decreases input.len() - i,
{
    let c = char_at(input, i);
    if c == '\n' || c == '\0' {
    } else {
        lemma_spec_skip_comment_bounds(input, i + 1);
    }
}

} // verus!
