//! Global properties of the token stream, proved of the scanning rules in
//! [`crate::scan`] — and therefore of the lexer, whose contract follows
//! those rules exactly.

use vstd::prelude::*;

use crate::scan::{
    all_digits, char_at, empty_ctx, is_blank, is_op_prefix, is_prefix_of, is_quote_char,
    lemma_spec_skip_comment_bounds, lemma_spec_subst_advances, operators, spec_delimit, spec_next,
    spec_skip_comment, spec_subst, SpecCtx, SpecToken, TokenKind,
};

verus! {

/// The characters the operator table is made of: short punctuation only,
/// so no entry character can be mistaken for the end sentinel, a quote, a
/// substitution start, a blank, a newline or a comment mark.
spec fn operator_char(c: char) -> bool {
    c == '&' || c == '|' || c == ';' || c == '<' || c == '>' || c == '-'
}

/// Each operator-table entry is non-empty and made of operator characters.
proof fn lemma_operator_entry(k: int)
    requires
        0 <= k < operators().len(),
    ensures
        operators()[k].len() >= 1,
        forall|j: int| 0 <= j < operators()[k].len() ==> operator_char(#[trigger] operators()[k][j]),
{
    if k == 0 {
        assert(operators()[k] == seq!['&', '&']);
    } else if k == 1 {
        assert(operators()[k] == seq!['|', '|']);
    } else if k == 2 {
        assert(operators()[k] == seq![';']);
    } else if k == 3 {
        assert(operators()[k] == seq!['<', '<']);
    } else if k == 4 {
        assert(operators()[k] == seq!['>', '>']);
    } else if k == 5 {
        assert(operators()[k] == seq!['<', '&']);
    } else if k == 6 {
        assert(operators()[k] == seq!['>', '&']);
    } else if k == 7 {
        assert(operators()[k] == seq!['<', '>']);
    } else if k == 8 {
        assert(operators()[k] == seq!['<', '<', '-']);
    } else {
        assert(operators()[k] == seq!['>', '|']);
    }
}

/// Scanning an operator-table entry that is already committed and partly
/// accumulated runs to the entry's end and delimits there.
proof fn lemma_munch_step(idx: int, n: int)
    requires
        0 <= idx < operators().len(),
        1 <= n <= operators()[idx].len(),
    ensures
        spec_next(
            operators()[idx],
            n,
            SpecCtx {
                lexeme: operators()[idx].subrange(0, n),
                quote: None,
                kind: Some(TokenKind::Operator),
            },
        ) == (Some(SpecToken::Operator(operators()[idx])), operators()[idx].len() as int),
    decreases operators()[idx].len() - n,
{
    let op = operators()[idx];
    let ctx = SpecCtx {
        lexeme: op.subrange(0, n),
        quote: None,
        kind: Some(TokenKind::Operator),
    };
    lemma_operator_entry(idx);
    if n == op.len() {
        assert(char_at(op, n) == '\0');
        assert(op.subrange(0, n) =~= op);
    } else {
        let c = op[n];
        assert(c == char_at(op, n));
        assert(c != '\0');
        assert(ctx.lexeme.push(c) =~= op.subrange(0, n + 1));
        assert(is_prefix_of(op.subrange(0, n + 1), op));
        assert(is_op_prefix(ctx.lexeme.push(c)));
        lemma_munch_step(idx, n + 1);
        assert((SpecCtx { lexeme: ctx.lexeme.push(c), quote: ctx.quote, kind: ctx.kind })
            =~= (SpecCtx {
            lexeme: op.subrange(0, n + 1),
            quote: None,
            kind: Some(TokenKind::Operator),
        }));
    }
}

/// Maximal munch: an input that is exactly an entry of the operator table
/// lexes to a single operator token carrying that whole entry — never to
/// two shorter operators — and the scan is then exhausted.
pub proof fn lemma_maximal_munch(idx: int)
    requires
        0 <= idx < operators().len(),
    ensures
        ({
            let op = operators()[idx];
            &&& spec_next(op, 0, empty_ctx()) == (
                Some(SpecToken::Operator(op)),
                op.len() as int,
            )
            &&& spec_next(op, op.len() as int, empty_ctx()) == (None::<SpecToken>, op.len() as int)
        }),
{
    let op = operators()[idx];
    lemma_operator_entry(idx);
    let c = op[0];
    assert(c == char_at(op, 0));
    assert(seq![c] =~= op.subrange(0, 1));
    assert(is_prefix_of(seq![c], op));
    assert(is_op_prefix(seq![c]));
    lemma_munch_step(idx, 1);
    assert((SpecCtx { lexeme: seq![c], quote: None, kind: Some(TokenKind::Operator) }) =~= (SpecCtx {
        lexeme: op.subrange(0, 1),
        quote: None,
        kind: Some(TokenKind::Operator),
    }));
    assert(char_at(op, op.len() as int) == '\0');
}

/// Io-number reclassification: a token delimited at position `i` while a
/// word is pending is an io number exactly when the accumulated lexeme is
/// non-empty, consists of decimal digits alone, and the character at the
/// delimiting position is `<` or `>`; in every other case it is the word
/// itself, text unchanged. The check belongs to delimitation alone: no
/// other rule of [`spec_next`] produces an io number.
pub proof fn lemma_io_number_reclassification(input: Seq<char>, i: int, ctx: SpecCtx)
    requires
        ctx.kind == Some(TokenKind::Word),
    ensures
        spec_delimit(input, i, ctx) == SpecToken::IoNumber(ctx.lexeme) <==> (ctx.lexeme.len() > 0
            && all_digits(ctx.lexeme) && (char_at(input, i) == '<' || char_at(input, i) == '>')),
        !(ctx.lexeme.len() > 0 && all_digits(ctx.lexeme) && (char_at(input, i) == '<' || char_at(
            input,
            i,
        ) == '>')) ==> spec_delimit(input, i, ctx) == SpecToken::Word(ctx.lexeme),
{
}

/// A scan that signals end of sequence leaves the position on the end
/// sentinel.
proof fn lemma_spec_next_none(input: Seq<char>, i: int, ctx: SpecCtx)
    requires
        spec_next(input, i, ctx).0 is None,
    ensures
        char_at(input, spec_next(input, i, ctx).1) == '\0',
    decreases input.len() - i,
{
    let c = char_at(input, i);
    if c == '\0' {
    } else {
        let quoted = ctx.quote is Some;
        if !quoted && ctx.kind == Some(TokenKind::Operator) {
            if is_op_prefix(ctx.lexeme.push(c)) {
                lemma_spec_next_none(
                    input,
                    i + 1,
                    SpecCtx { lexeme: ctx.lexeme.push(c), quote: ctx.quote, kind: ctx.kind },
                );
            }
        } else if !quoted && is_quote_char(c) {
            lemma_spec_next_none(
                input,
                i + 1,
                SpecCtx {
                    lexeme: ctx.lexeme.push(c),
                    quote: Some(c),
                    kind: if ctx.kind is None {
                        Some(TokenKind::Word)
                    } else {
                        ctx.kind
                    },
                },
            );
        } else if !quoted && (c == '$' || c == '`') {
            let (j, q) = spec_subst(input, i);
            lemma_spec_subst_advances(input, i);
            lemma_spec_next_none(
                input,
                j,
                SpecCtx {
                    lexeme: ctx.lexeme + input.subrange(i, j),
                    quote: q,
                    kind: Some(TokenKind::Word),
                },
            );
        } else if !quoted && is_op_prefix(seq![c]) {
            if ctx.lexeme.len() == 0 {
                lemma_spec_next_none(
                    input,
                    i + 1,
                    SpecCtx { lexeme: seq![c], quote: ctx.quote, kind: Some(TokenKind::Operator) },
                );
            }
        } else if !quoted && is_blank(c) {
            if ctx.lexeme.len() == 0 {
                lemma_spec_next_none(input, i + 1, ctx);
            }
        } else if c == '\n' {
        } else if ctx.kind == Some(TokenKind::Word) {
            let nq = if ctx.quote == Some(c) || ctx.quote == Some('\\') {
                None
            } else {
                ctx.quote
            };
            lemma_spec_next_none(
                input,
                i + 1,
                SpecCtx { lexeme: ctx.lexeme.push(c), quote: nq, kind: ctx.kind },
            );
        } else if c == '#' && ctx.kind is None {
            lemma_spec_skip_comment_bounds(input, i + 1);
            lemma_spec_next_none(input, spec_skip_comment(input, i + 1), ctx);
        } else {
            lemma_spec_next_none(
                input,
                i + 1,
                SpecCtx { lexeme: ctx.lexeme.push(c), quote: ctx.quote, kind: Some(TokenKind::Word) },
            );
        }
    }
}

/// Exhaustion idempotence: once a scan from a fresh context signals end of
/// sequence, a scan from the position it left (again with a fresh context,
/// as every token request starts) signals end of sequence again, from that
/// same position — never a token again.
pub proof fn lemma_exhaustion_idempotent(input: Seq<char>, i: int)
    requires
        spec_next(input, i, empty_ctx()).0 is None,
    ensures
        ({
            let j = spec_next(input, i, empty_ctx()).1;
            spec_next(input, j, empty_ctx()) == (None::<SpecToken>, j)
        }),
{
    lemma_spec_next_none(input, i, empty_ctx());
}

/// Does the scanner discard exactly the characters from `i` up to `j`
/// without producing anything, by skipping blanks and comments alone?
/// (A comment runs from its `#` up to, but not including, the next
/// newline or the end of the input.)
pub open spec fn only_discarded(input: Seq<char>, i: int, j: int) -> bool
    decreases j - i,
{
    if i >= j {
        i == j
    } else if is_blank(char_at(input, i)) {
        only_discarded(input, i + 1, j)
    } else if char_at(input, i) == '#' {
        proof {
            lemma_spec_skip_comment_bounds(input, i + 1);
        }
        let k = spec_skip_comment(input, i + 1);
        k <= j && only_discarded(input, k, j)
    } else {
        false
    }
}

/// A discarded-only region runs forward.
proof fn lemma_only_discarded_le(input: Seq<char>, i: int, j: int)
    requires
        only_discarded(input, i, j),
    ensures
        i <= j,
    decreases j - i,
{
}

/// A blank in front of a discarded-only region is discarded with it.
proof fn lemma_only_discarded_prepend_blank(input: Seq<char>, i: int, g: int)
    requires
        is_blank(char_at(input, i)),
        only_discarded(input, i + 1, g),
    ensures
        only_discarded(input, i, g),
{
    lemma_only_discarded_le(input, i + 1, g);
}

/// A comment in front of a discarded-only region is discarded with it.
proof fn lemma_only_discarded_prepend_comment(input: Seq<char>, i: int, g: int)
    requires
        char_at(input, i) == '#',
        only_discarded(input, spec_skip_comment(input, i + 1), g),
    ensures
        only_discarded(input, i, g),
{
    lemma_spec_skip_comment_bounds(input, i + 1);
    lemma_only_discarded_le(input, spec_skip_comment(input, i + 1), g);
}

/// What a step that produced a text-bearing token with lexeme `s`, from
/// scratch state `ctx`, guarantees about the stop position `j`: the text
/// is exactly the input slice ending at `j`, and everything between the
/// start of the step and that slice was discarded blanks and comments
/// (when the token began within this step) or already accumulated (when
/// the step continued a pending token).
pub open spec fn faithful_text(input: Seq<char>, i: int, ctx: SpecCtx, s: Seq<char>, j: int) -> bool {
    &&& 1 <= s.len() <= j
    &&& s == input.subrange(j - s.len(), j)
    &&& (ctx.lexeme.len() == 0 ==> only_discarded(input, i, j - s.len()))
    &&& (ctx.lexeme.len() > 0 ==> j - s.len() == i - ctx.lexeme.len())
}

/// What one token-producing step guarantees, split by what it returns:
/// a text-bearing token carries exactly the input slice that ends at the
/// stop position; a newline token stands for the newline just before the
/// stop position; between the start of the step and the token's own slice
/// lie only discarded blanks and comments.
pub open spec fn faithful_step(input: Seq<char>, i: int, ctx: SpecCtx) -> bool {
    let (t, j) = spec_next(input, i, ctx);
    &&& i <= j <= input.len()
    &&& match t {
        Some(SpecToken::Word(s)) => faithful_text(input, i, ctx, s, j),
        Some(SpecToken::Operator(s)) => faithful_text(input, i, ctx, s, j),
        Some(SpecToken::IoNumber(s)) => faithful_text(input, i, ctx, s, j),
        Some(SpecToken::NewLine) => ctx.lexeme.len() == 0 && 1 <= j && input[j - 1] == '\n'
            && only_discarded(input, i, j - 1),
        None => ctx.lexeme.len() == 0 && only_discarded(input, i, j),
    }
}

/// The inductive heart of round-trip fidelity: if the accumulated lexeme
/// is exactly the input slice just scanned, the token eventually delimited
/// carries exactly the input slice ending where the scan stops, and only
/// blanks and comments were discarded on the way to it.
proof fn lemma_fidelity_step(input: Seq<char>, i: int, ctx: SpecCtx)
    requires
        0 <= i <= input.len(),
        ctx.lexeme.len() <= i,
        ctx.lexeme == input.subrange(i - ctx.lexeme.len(), i),
        ctx.kind is None <==> ctx.lexeme.len() == 0,
        ctx.kind != Some(TokenKind::NewLine),
    ensures
        faithful_step(input, i, ctx),
    decreases input.len() - i,
{
    let c = char_at(input, i);
    assert(only_discarded(input, i, i));
    if c == '\0' {
    } else {
        let quoted = ctx.quote is Some;
        if !quoted && ctx.kind == Some(TokenKind::Operator) {
            if is_op_prefix(ctx.lexeme.push(c)) {
                let ctx2 = SpecCtx { lexeme: ctx.lexeme.push(c), quote: ctx.quote, kind: ctx.kind };
                assert(ctx2.lexeme =~= input.subrange(i + 1 - ctx2.lexeme.len(), i + 1));
                lemma_fidelity_step(input, i + 1, ctx2);
            }
        } else if !quoted && is_quote_char(c) {
            let ctx2 = SpecCtx {
                lexeme: ctx.lexeme.push(c),
                quote: Some(c),
                kind: if ctx.kind is None {
                    Some(TokenKind::Word)
                } else {
                    ctx.kind
                },
            };
            assert(ctx2.lexeme =~= input.subrange(i + 1 - ctx2.lexeme.len(), i + 1));
            lemma_fidelity_step(input, i + 1, ctx2);
        } else if !quoted && (c == '$' || c == '`') {
            let (j, q) = spec_subst(input, i);
            lemma_spec_subst_advances(input, i);
            let ctx2 = SpecCtx {
                lexeme: ctx.lexeme + input.subrange(i, j),
                quote: q,
                kind: Some(TokenKind::Word),
            };
            assert(ctx2.lexeme =~= input.subrange(j - ctx2.lexeme.len(), j));
            lemma_fidelity_step(input, j, ctx2);
        } else if !quoted && is_op_prefix(seq![c]) {
            if ctx.lexeme.len() == 0 {
                let ctx2 = SpecCtx { lexeme: seq![c], quote: ctx.quote, kind: Some(
                    TokenKind::Operator,
                ) };
                assert(ctx2.lexeme =~= input.subrange(i + 1 - ctx2.lexeme.len(), i + 1));
                lemma_fidelity_step(input, i + 1, ctx2);
            }
        } else if !quoted && is_blank(c) {
            if ctx.lexeme.len() == 0 {
                assert(ctx.lexeme =~= input.subrange(i + 1 - ctx.lexeme.len(), i + 1));
                lemma_fidelity_step(input, i + 1, ctx);
                let (t, j) = spec_next(input, i + 1, ctx);
                match t {
                    Some(SpecToken::Word(s)) => lemma_only_discarded_prepend_blank(
                        input,
                        i,
                        j - s.len(),
                    ),
                    Some(SpecToken::Operator(s)) => lemma_only_discarded_prepend_blank(
                        input,
                        i,
                        j - s.len(),
                    ),
                    Some(SpecToken::IoNumber(s)) => lemma_only_discarded_prepend_blank(
                        input,
                        i,
                        j - s.len(),
                    ),
                    Some(SpecToken::NewLine) => lemma_only_discarded_prepend_blank(input, i, j - 1),
                    None => lemma_only_discarded_prepend_blank(input, i, j),
                }
            }
        } else if c == '\n' {
        } else if ctx.kind == Some(TokenKind::Word) {
            let nq = if ctx.quote == Some(c) || ctx.quote == Some('\\') {
                None
            } else {
                ctx.quote
            };
            let ctx2 = SpecCtx { lexeme: ctx.lexeme.push(c), quote: nq, kind: ctx.kind };
            assert(ctx2.lexeme =~= input.subrange(i + 1 - ctx2.lexeme.len(), i + 1));
            lemma_fidelity_step(input, i + 1, ctx2);
        } else if c == '#' && ctx.kind is None {
            lemma_spec_skip_comment_bounds(input, i + 1);
            let k = spec_skip_comment(input, i + 1);
            assert(ctx.lexeme =~= input.subrange(k - ctx.lexeme.len(), k));
            lemma_fidelity_step(input, k, ctx);
            let (t, j) = spec_next(input, k, ctx);
            match t {
                Some(SpecToken::Word(s)) => lemma_only_discarded_prepend_comment(
                    input,
                    i,
                    j - s.len(),
                ),
                Some(SpecToken::Operator(s)) => lemma_only_discarded_prepend_comment(
                    input,
                    i,
                    j - s.len(),
                ),
                Some(SpecToken::IoNumber(s)) => lemma_only_discarded_prepend_comment(
                    input,
                    i,
                    j - s.len(),
                ),
                Some(SpecToken::NewLine) => lemma_only_discarded_prepend_comment(input, i, j - 1),
                None => lemma_only_discarded_prepend_comment(input, i, j),
            }
        } else {
            let ctx2 = SpecCtx {
                lexeme: ctx.lexeme.push(c),
                quote: ctx.quote,
                kind: Some(TokenKind::Word),
            };
            assert(ctx2.lexeme =~= input.subrange(i + 1 - ctx2.lexeme.len(), i + 1));
            lemma_fidelity_step(input, i + 1, ctx2);
        }
    }
}

/// Round-trip lexeme fidelity: a token scanned from a fresh context at
/// position `i` carries as its text exactly the input slice that ends at
/// the position where the scan stopped — the scanner never invents or
/// drops characters within a token's own lexeme — and everything between
/// `i` and that slice is discarded blanks and comments. A newline token
/// stands for the newline character just before the stop position, and
/// end of sequence is signalled only once all that remains is blanks and
/// comments. Concatenating, over a whole scan, each step's discarded
/// region and token text therefore rebuilds the input exactly.
pub proof fn lemma_round_trip_fidelity(input: Seq<char>, i: int)
    requires
        0 <= i <= input.len(),
    ensures
        faithful_step(input, i, empty_ctx()),
{
    assert(empty_ctx().lexeme =~= input.subrange(i - 0, i));
    lemma_fidelity_step(input, i, empty_ctx());
}

} // verus!
