//! The lexer: a stateful scanner over an immutable input text that emits
//! one token per request, verified against the rules in [`crate::scan`].

use vstd::prelude::*;
use vstd::string::StrSliceExecFns;

use crate::scan::{
    all_digits, char_at, empty_ctx, is_digit, is_op_prefix, is_prefix_of, marker_match, operators,
    spec_delimit, spec_next, spec_skip_comment, spec_subst, spec_subst_body, subst_open,
    lemma_spec_subst_advances, lemma_spec_subst_body_bounds, lemma_spec_skip_comment_bounds,
    lemma_subst_stack,
    SpecCtx, SpecToken, TokenKind,
};

verus! {

/// A token, carrying the exact source lexeme for the three text-bearing
/// categories: quote delimiters and escape characters that were part of
/// the input are kept in the emitted text.
#[derive(Clone, Debug, PartialEq, Eq)]
pub enum Token {
    Word(String),
    Operator(String),
    IoNumber(String),
    NewLine,
}

impl View for Token {
    type V = SpecToken;

    open spec fn view(&self) -> SpecToken {
        match self {
            Token::Word(s) => SpecToken::Word(s@),
            Token::Operator(s) => SpecToken::Operator(s@),
            Token::IoNumber(s) => SpecToken::IoNumber(s@),
            Token::NewLine => SpecToken::NewLine,
        }
    }
}

impl Token {
    /// Does this token hold a word?
    pub fn is_word(&self) -> (r: bool)
        ensures
            r == (self@ is Word),
    {
        match *self {
            Token::Word(_) => true,
            _ => false,
        }
    }

    /// Does this token hold an operator?
    pub fn is_operator(&self) -> (r: bool)
        ensures
            r == (self@ is Operator),
    {
        match *self {
            Token::Operator(_) => true,
            _ => false,
        }
    }

    /// Does this token hold an io-redirection number?
    pub fn is_ionumber(&self) -> (r: bool)
        ensures
            r == (self@ is IoNumber),
    {
        match *self {
            Token::IoNumber(_) => true,
            _ => false,
        }
    }

    /// Does this token mark the end of a logical line?
    pub fn is_newline(&self) -> (r: bool)
        ensures
            r == (self@ is NewLine),
    {
        match *self {
            Token::NewLine => true,
            _ => false,
        }
    }
}

/// The scratch state for the token being produced: the characters found so
/// far, the active quote character if any, and the tentative category.
pub struct LexerContext {
    current_chars: Vec<char>,
    quoted: Option<char>,
    expected_token: Option<TokenKind>,
}

impl View for LexerContext {
    type V = SpecCtx;

    closed spec fn view(&self) -> SpecCtx {
        SpecCtx { lexeme: self.current_chars@, quote: self.quoted, kind: self.expected_token }
    }
}

impl LexerContext {
    /// A fresh scratch state: nothing accumulated, no quote, no category.
    pub fn new() -> (c: LexerContext)
        ensures
            c@ == empty_ctx(),
    {
        let c = LexerContext { current_chars: Vec::new(), quoted: None, expected_token: None };
        proof {
            assert(c@ =~= empty_ctx());
        }
        c
    }

    /// Has nothing been accumulated for the current token yet?
    pub fn empty(&self) -> (r: bool)
        ensures
            r == (self@.lexeme.len() == 0),
    {
        self.current_chars.len() == 0
    }
}

/// The lexer: the input text, the scan position, and the scratch state of
/// the token being produced.
pub struct Lexer {
    data: Vec<char>,
    index: usize,
    context: LexerContext,
}

/// Relies on String::push: it appends the given character to the end of
/// the string, leaving the preceding characters unchanged.
#[verifier::external_body]
fn push_char(s: &mut String, c: char)
    ensures
        final(s)@ == old(s)@.push(c),
{
    s.push(c);
}

/// The characters of `v`, as a string.
fn chars_to_string(v: &Vec<char>) -> (s: String)
    ensures
        s@ == v@,
{
    let mut s = String::new();
    let mut k: usize = 0;
    while k < v.len()
        invariant
            k <= v@.len(),
            s@ == v@.subrange(0, k as int),
        decreases v@.len() - k,
    {
        push_char(&mut s, v[k]);
        assert(s@ =~= v@.subrange(0, k as int + 1));
        k += 1;
    }
    assert(s@ =~= v@);
    s
}

/// Is `s` a prefix of `t`, character for character?
fn chars_prefix(s: &Vec<char>, t: &Vec<char>) -> (r: bool)
    ensures
        r == is_prefix_of(s@, t@),
{
    if s.len() > t.len() {
        return false;
    }
    let mut k: usize = 0;
    while k < s.len()
        invariant
            k <= s@.len() <= t@.len(),
            forall|j: int| 0 <= j < k ==> s@[j] == t@[j],
        decreases s@.len() - k,
    {
        if s[k] != t[k] {
            return false;
        }
        k += 1;
    }
    true
}

/// The entry of the operator table at position `i`.
fn op_entry(i: usize) -> (r: Vec<char>)
    requires
        i < operators().len(),
    ensures
        r@ == operators()[i as int],
{
    let r: Vec<char> = match i {
        0 => vec!['&', '&'],
        1 => vec!['|', '|'],
        2 => vec![';'],
        3 => vec!['<', '<'],
        4 => vec!['>', '>'],
        5 => vec!['<', '&'],
        6 => vec!['>', '&'],
        7 => vec!['<', '>'],
        8 => vec!['<', '<', '-'],
        _ => vec!['>', '|'],
    };
    proof {
        assert(r@ =~= operators()[i as int]);
    }
    r
}

/// Are all of `v`'s characters decimal digits?
fn digits_only(v: &Vec<char>) -> (r: bool)
    ensures
        r == all_digits(v@),
{
    let mut k: usize = 0;
    while k < v.len()
        invariant
            k <= v@.len(),
            forall|j: int| 0 <= j < k ==> is_digit(v@[j]),
        decreases v@.len() - k,
    {
        let c = v[k];
        if !('0' <= c && c <= '9') {
            return false;
        }
        k += 1;
    }
    true
}

impl Lexer {
    /// The input text being scanned.
    pub closed spec fn input(&self) -> Seq<char> {
        self.data@
    }

    /// The current scan position.
    pub closed spec fn pos(&self) -> int {
        self.index as int
    }

    /// The scratch state of the token being produced.
    pub closed spec fn ctx(&self) -> SpecCtx {
        self.context@
    }

    /// The scan position stays within the input: `0 <= index <= length`.
    pub open spec fn wf(&self) -> bool {
        0 <= self.pos() <= self.input().len()
    }

    /// A lexer over `data`, positioned at its start.
    pub fn new(data: String) -> (l: Lexer)
        ensures
            l.wf(),
            l.input() == data@,
            l.pos() == 0,
            l.ctx() == empty_ctx(),
    {
        let n = data.as_str().unicode_len();
        let mut chars: Vec<char> = Vec::new();
        let mut k: usize = 0;
        while k < n
            invariant
                n == data@.len(),
                k <= n,
                chars@ == data@.subrange(0, k as int),
            decreases n - k,
        {
            let c = data.as_str().get_char(k);
            chars.push(c);
            assert(chars@ =~= data@.subrange(0, k as int + 1));
            k += 1;
        }
        assert(chars@ =~= data@);
        Lexer { data: chars, index: 0, context: LexerContext::new() }
    }

    /// The character at the scan position, or the NUL sentinel at the end
    /// of the input.
    fn peek_one(&self) -> (c: char)
        ensures
            c == char_at(self.input(), self.pos()),
    {
        if self.index >= self.data.len() {
            '\0'
        } else {
            self.data[self.index]
        }
    }

    /// The character `idx` places past the scan position, or the NUL
    /// sentinel if that is beyond the end of the input.
    fn peek_at(&self, idx: usize) -> (c: char)
        requires
            self.wf(),
        ensures
            c == char_at(self.input(), self.pos() + idx as int),
    {
        if idx >= self.data.len() - self.index {
            '\0'
        } else {
            self.data[self.index + idx]
        }
    }

    /// The next `n` characters (or as many as remain).
    fn peek_n(&self, n: usize) -> (r: Vec<char>)
        requires
            self.wf(),
        ensures
            r@ == self.input().subrange(
                self.pos(),
                if self.pos() + n <= self.input().len() {
                    self.pos() + n
                } else {
                    self.input().len() as int
                },
            ),
    {
        let end: usize = if n >= self.data.len() - self.index {
            self.data.len()
        } else {
            self.index + n
        };
        let mut r: Vec<char> = Vec::new();
        let mut k: usize = self.index;
        while k < end
            invariant
                self.index <= k <= end <= self.data@.len(),
                r@ == self.data@.subrange(self.pos(), k as int),
            decreases end - k,
        {
            r.push(self.data[k]);
            assert(r@ =~= self.data@.subrange(self.pos(), k as int + 1));
            k += 1;
        }
        r
    }

    /// Return the character at the scan position and move past it (the
    /// position stays put at the end of the input).
    fn consume_one(&mut self) -> (c: char)
        ensures
            c == char_at(old(self).input(), old(self).pos()),
            final(self).input() == old(self).input(),
            final(self).ctx() == old(self).ctx(),
            final(self).pos() == if old(self).pos() < old(self).input().len() {
                old(self).pos() + 1
            } else {
                old(self).pos()
            },
    {
        let c = self.peek_one();
        if self.index < self.data.len() {
            self.index = self.index + 1;
        }
        c
    }

    /// Move past the next `n` characters (or as many as remain) and return
    /// them.
    fn consume_n(&mut self, n: usize) -> (r: Vec<char>)
        requires
            old(self).wf(),
        ensures
            final(self).wf(),
            final(self).input() == old(self).input(),
            final(self).ctx() == old(self).ctx(),
            final(self).pos() == if old(self).pos() + n <= old(self).input().len() {
                old(self).pos() + n
            } else {
                old(self).input().len() as int
            },
            r@ == old(self).input().subrange(old(self).pos(), final(self).pos()),
    {
        let r = self.peek_n(n);
        if n >= self.data.len() - self.index {
            self.index = self.data.len();
        } else {
            self.index = self.index + n;
        }
        r
    }

    /// Append the character at the scan position to the current lexeme and
    /// move past it.
    fn add_it(&mut self)
        requires
            old(self).pos() < old(self).input().len(),
        ensures
            final(self).wf(),
            final(self).input() == old(self).input(),
            final(self).pos() == old(self).pos() + 1,
            final(self).ctx() == (SpecCtx {
                lexeme: old(self).ctx().lexeme.push(char_at(old(self).input(), old(self).pos())),
                ..old(self).ctx()
            }),
    {
        let c = self.consume_one();
        self.context.current_chars.push(c);
        proof {
            assert(self.ctx() =~= (SpecCtx {
                lexeme: old(self).ctx().lexeme.push(char_at(old(self).input(), old(self).pos())),
                ..old(self).ctx()
            }));
        }
    }

    /// Append the next `n` characters (or as many as remain) to the current
    /// lexeme and move past them.
    fn add_them(&mut self, n: usize)
        requires
            old(self).wf(),
        ensures
            final(self).wf(),
            final(self).input() == old(self).input(),
            final(self).pos() == if old(self).pos() + n <= old(self).input().len() {
                old(self).pos() + n
            } else {
                old(self).input().len() as int
            },
            final(self).ctx() == (SpecCtx {
                lexeme: old(self).ctx().lexeme + old(self).input().subrange(
                    old(self).pos(),
                    final(self).pos(),
                ),
                ..old(self).ctx()
            }),
    {
        let chars = self.consume_n(n);
        let mut k: usize = 0;
        while k < chars.len()
            invariant
                k <= chars@.len(),
                self.input() == old(self).input(),
                self.pos() == old(self).pos() + chars@.len(),
                self.ctx() == (SpecCtx {
                    lexeme: old(self).ctx().lexeme + chars@.subrange(0, k as int),
                    ..old(self).ctx()
                }),
            decreases chars@.len() - k,
        {
            let c = chars[k];
            self.context.current_chars.push(c);
            proof {
                assert(old(self).ctx().lexeme + chars@.subrange(0, k as int) + seq![chars@[k as int]]
                    =~= old(self).ctx().lexeme + chars@.subrange(0, k as int + 1));
                assert(self.ctx() =~= (SpecCtx {
                    lexeme: old(self).ctx().lexeme + chars@.subrange(0, k as int + 1),
                    ..old(self).ctx()
                }));
            }
            k += 1;
        }
        proof {
            assert(chars@.subrange(0, chars@.len() as int) =~= chars@);
        }
    }

    /// Is the given lexeme a non-empty prefix of some entry of the
    /// operator table?
    fn is_operator_start(lexeme: &Vec<char>) -> (r: bool)
        ensures
            r == is_op_prefix(lexeme@),
    {
        if lexeme.len() == 0 {
            return false;
        }
        let mut i: usize = 0;
        while i < 10
            invariant
                i <= 10,
                lexeme@.len() > 0,
                forall|j: int| 0 <= j < i ==> !is_prefix_of(lexeme@, #[trigger] operators()[j]),
            decreases 10 - i,
        {
            let entry = op_entry(i);
            if chars_prefix(lexeme, &entry) {
                return true;
            }
            i += 1;
        }
        false
    }

    /// Would the current lexeme, extended by the character at the scan
    /// position, still be a prefix of some operator?
    fn reconize_operator_start(&self) -> (r: bool)
        ensures
            r == is_op_prefix(self.ctx().lexeme.push(char_at(self.input(), self.pos()))),
    {
        let mut lexeme: Vec<char> = Vec::new();
        let mut k: usize = 0;
        while k < self.context.current_chars.len()
            invariant
                k <= self.ctx().lexeme.len(),
                lexeme@ == self.ctx().lexeme.subrange(0, k as int),
            decreases self.ctx().lexeme.len() - k,
        {
            lexeme.push(self.context.current_chars[k]);
            assert(lexeme@ =~= self.ctx().lexeme.subrange(0, k as int + 1));
            k += 1;
        }
        lexeme.push(self.peek_one());
        proof {
            assert(lexeme@ =~= self.ctx().lexeme.push(char_at(self.input(), self.pos())));
        }
        Lexer::is_operator_start(&lexeme)
    }

    /// Delimit the current token: the accumulated lexeme under the
    /// tentative category, a purely-decimal word immediately followed by
    /// `<` or `>` becoming an io number.
    fn delimit_token(&self) -> (t: Token)
        ensures
            t@ == spec_delimit(self.input(), self.pos(), self.ctx()),
    {
        let lexeme = chars_to_string(&self.context.current_chars);
        match self.context.expected_token {
            Some(TokenKind::Word) => {
                if self.context.current_chars.len() > 0 && digits_only(&self.context.current_chars)
                {
                    let nc = self.peek_one();
                    if nc == '<' || nc == '>' {
                        Token::IoNumber(lexeme)
                    } else {
                        Token::Word(lexeme)
                    }
                } else {
                    Token::Word(lexeme)
                }
            },
            Some(TokenKind::Operator) => Token::Operator(lexeme),
            Some(TokenKind::IoNumber) => Token::IoNumber(lexeme),
            Some(TokenKind::NewLine) => Token::NewLine,
            None => Token::Word(lexeme),
        }
    }

    /// Do the characters at the scan position spell out `m` exactly?
    fn peek_matches(&self, m: &Vec<char>) -> (r: bool)
        requires
            self.wf(),
        ensures
            r == marker_match(self.input(), self.pos(), m@),
    {
        if m.len() > self.data.len() - self.index {
            return false;
        }
        let mut k: usize = 0;
        while k < m.len()
            invariant
                self.wf(),
                k <= m@.len(),
                self.pos() + m@.len() <= self.input().len(),
                self.input().len() <= usize::MAX,
                forall|j: int| 0 <= j < k ==> self.input()[self.pos() + j] == m@[j],
            decreases m@.len() - k,
        {
            if self.data[self.index + k] != m[k] {
                assert(!marker_match(self.input(), self.pos(), m@)) by {
                    if marker_match(self.input(), self.pos(), m@) {
                        assert(self.input().subrange(self.pos(), self.pos() + m@.len())[k as int]
                            == m@[k as int]);
                    }
                }
                return false;
            }
            k += 1;
        }
        proof {
            assert(self.input().subrange(self.pos(), self.pos() + m@.len()) =~= m@);
        }
        true
    }

    /// At a substitution start: consume (and append) the opening marker and
    /// return the closing marker to look for, or `None` for a bare simple-
    /// parameter reference, which ends with the `$` itself.
    fn get_closing_substitution_symbol(&mut self) -> (r: Option<Vec<char>>)
        requires
            old(self).wf(),
            char_at(old(self).input(), old(self).pos()) == '$' || char_at(
                old(self).input(),
                old(self).pos(),
            ) == '`',
        ensures
            final(self).wf(),
            final(self).input() == old(self).input(),
            ({
                let (i2, m) = subst_open(old(self).input(), old(self).pos());
                &&& final(self).pos() == i2
                &&& final(self).ctx() == (SpecCtx {
                    lexeme: old(self).ctx().lexeme + old(self).input().subrange(
                        old(self).pos(),
                        i2,
                    ),
                    ..old(self).ctx()
                })
                &&& (match (r, m) {
                    (None, None) => true,
                    (Some(v), Some(mk)) => v@ == mk,
                    _ => false,
                })
            }),
    {
        let ghost pre = *self;
        let r: Option<Vec<char>> = if self.peek_one() == '`' {
            self.add_it();
            Some(vec!['`'])
        } else {
            if self.peek_at(1) == '(' {
                if self.peek_at(2) == '(' {
                    self.add_them(3);
                    Some(vec![')', ')'])
                } else {
                    self.add_them(2);
                    Some(vec![')'])
                }
            } else if self.peek_at(1) == '{' {
                self.add_them(2);
                Some(vec!['}'])
            } else {
                self.add_it();
                None
            }
        };
        proof {
            assert(self.ctx() =~= (SpecCtx {
                lexeme: pre.ctx().lexeme + pre.input().subrange(pre.pos(), self.pos()),
                ..pre.ctx()
            }));
        }
        r
    }

    /// Consume a whole substitution construct, quoting and nesting
    /// included, appending everything consumed to the current lexeme. If
    /// the input ends before the closing marker, the scan stops there
    /// silently, leaving any open quote recorded in the context.
    fn consume_substitution(&mut self)
        requires
            old(self).wf(),
            char_at(old(self).input(), old(self).pos()) == '$' || char_at(
                old(self).input(),
                old(self).pos(),
            ) == '`',
            old(self).ctx().quote is None,
        ensures
            final(self).wf(),
            final(self).input() == old(self).input(),
            ({
                let (j, q) = spec_subst(old(self).input(), old(self).pos());
                &&& final(self).pos() == j
                &&& final(self).ctx() == (SpecCtx {
                    lexeme: old(self).ctx().lexeme + old(self).input().subrange(
                        old(self).pos(),
                        j,
                    ),
                    quote: q,
                    kind: old(self).ctx().kind,
                })
            }),
        decreases old(self).input().len() - old(self).pos(),
    {
        let ghost pre = *self;
        let ghost input = pre.input();
        proof {
            lemma_spec_subst_advances(input, pre.pos());
        }
        let closing = self.get_closing_substitution_symbol();
        let closing_symbol = match closing {
            Some(sym) => sym,
            None => {
                proof {
                    assert(self.ctx() =~= (SpecCtx {
                        lexeme: pre.ctx().lexeme + input.subrange(
                            pre.pos(),
                            spec_subst(input, pre.pos()).0,
                        ),
                        quote: spec_subst(input, pre.pos()).1,
                        kind: pre.ctx().kind,
                    }));
                }
                return ;
            },
        };
        let ghost mk = closing_symbol@;
        let ghost body_start = self.pos();
        loop
            invariant
                pre == *old(self),
                input == old(self).input(),
                self.wf(),
                self.input() == input,
                closing_symbol@ == mk,
                pre.pos() < body_start <= self.pos(),
                self.ctx().kind == pre.ctx().kind,
                self.ctx().lexeme == pre.ctx().lexeme + input.subrange(pre.pos(), self.pos()),
                spec_subst(input, pre.pos()) == spec_subst_body(input, body_start, seq![mk], None),
                spec_subst_body(input, body_start, seq![mk], None) == spec_subst_body(
                    input,
                    self.pos(),
                    seq![mk],
                    self.ctx().quote,
                ),
            decreases input.len() - self.pos(),
        {
            let ghost ib = self.pos();
            let ghost ctxb = self.ctx();
            let c = self.peek_one();
            let quoted = self.context.quoted.is_some();
            if c == '\0' {
                proof {
                    assert(self.ctx() =~= (SpecCtx {
                        lexeme: pre.ctx().lexeme + input.subrange(
                            pre.pos(),
                            spec_subst(input, pre.pos()).0,
                        ),
                        quote: spec_subst(input, pre.pos()).1,
                        kind: pre.ctx().kind,
                    }));
                }
                return ;
            } else if !quoted && (c == '\'' || c == '"' || c == '\\') {
                self.context.quoted = Some(c);
                self.add_it();
                proof {
                    assert(self.ctx().lexeme =~= pre.ctx().lexeme + input.subrange(
                        pre.pos(),
                        self.pos(),
                    ));
                }
            } else if !quoted && self.peek_matches(&closing_symbol) {
                self.add_them(closing_symbol.len());
                proof {
                    assert(self.ctx().lexeme =~= pre.ctx().lexeme + input.subrange(
                        pre.pos(),
                        self.pos(),
                    ));
                    assert(self.ctx() =~= (SpecCtx {
                        lexeme: pre.ctx().lexeme + input.subrange(
                            pre.pos(),
                            spec_subst(input, pre.pos()).0,
                        ),
                        quote: spec_subst(input, pre.pos()).1,
                        kind: pre.ctx().kind,
                    }));
                }
                return ;
            } else if !quoted && (c == '$' || c == '`') {
                self.consume_substitution();
                proof {
                    lemma_spec_subst_advances(input, ib);
                    let (i2, m2) = subst_open(input, ib);
                    match m2 {
                        None => {},
                        Some(mk2) => {
                            lemma_spec_subst_body_bounds(input, i2, seq![mk2], None);
                            lemma_subst_stack(input, i2, seq![mk], mk2, None);
                        },
                    }
                    assert(self.ctx().lexeme =~= pre.ctx().lexeme + input.subrange(
                        pre.pos(),
                        self.pos(),
                    ));
                }
            } else {
                let qclose = match self.context.quoted {
                    Some(q) => q == c || q == '\\',
                    None => false,
                };
                if qclose {
                    self.context.quoted = None;
                }
                self.add_it();
                proof {
                    assert(self.ctx().lexeme =~= pre.ctx().lexeme + input.subrange(
                        pre.pos(),
                        self.pos(),
                    ));
                }
            }
        }
    }

    /// Scan the input and produce the next token, or `None` once the input
    /// is exhausted; every call after that returns `None` again. The token
    /// produced and the new scan position are exactly those given by
    /// [`spec_next`] for the old position with a fresh scratch state.
    pub fn next_token(&mut self) -> (r: Option<Token>)
        requires
            old(self).wf(),
        ensures
            final(self).wf(),
            final(self).input() == old(self).input(),
            ({
                let (t, j) = spec_next(old(self).input(), old(self).pos(), empty_ctx());
                &&& final(self).pos() == j
                &&& (match (r, t) {
                    (None, None) => true,
                    (Some(tok), Some(st)) => tok@ == st,
                    _ => false,
                })
            }),
    {
        self.context = LexerContext::new();
        let ghost input = self.data@;
        let ghost i0 = self.index as int;
        loop
            invariant
                input == old(self).input(),
                i0 == old(self).pos(),
                self.wf(),
                self.input() == input,
                spec_next(input, i0, empty_ctx()) == spec_next(input, self.pos(), self.ctx()),
            decreases input.len() - self.pos(),
        {
            let ghost ib = self.pos();
            let ghost ctxb = self.ctx();
            let c = self.peek_one();
            if c == '\0' {
                if self.context.empty() {
                    return None;
                } else {
                    return Some(self.delimit_token());
                }
            }
            let quoted = self.context.quoted.is_some();
            let op_pending = matches!(self.context.expected_token, Some(TokenKind::Operator));
            let word_pending = matches!(self.context.expected_token, Some(TokenKind::Word));
            let kind_none = matches!(self.context.expected_token, None);
            let mut one: Vec<char> = Vec::new();
            one.push(c);
            proof {
                assert(one@ =~= seq![c]);
            }
            let single = Lexer::is_operator_start(&one);
            if !quoted && op_pending {
                if self.reconize_operator_start() {
                    self.add_it();
                    proof {
                        assert(self.ctx() =~= (SpecCtx {
                            lexeme: ctxb.lexeme.push(c),
                            quote: ctxb.quote,
                            kind: ctxb.kind,
                        }));
                    }
                } else {
                    return Some(self.delimit_token());
                }
            } else if !quoted && (c == '\'' || c == '"' || c == '\\') {
                self.context.quoted = Some(c);
                if matches!(self.context.expected_token, None) {
                    self.context.expected_token = Some(TokenKind::Word);
                }
                self.add_it();
                proof {
                    assert(self.ctx() =~= (SpecCtx {
                        lexeme: ctxb.lexeme.push(c),
                        quote: Some(c),
                        kind: if ctxb.kind is None {
                            Some(TokenKind::Word)
                        } else {
                            ctxb.kind
                        },
                    }));
                }
            } else if !quoted && (c == '$' || c == '`') {
                self.context.expected_token = Some(TokenKind::Word);
                self.consume_substitution();
                proof {
                    lemma_spec_subst_advances(input, ib);
                    assert(self.ctx() =~= (SpecCtx {
                        lexeme: ctxb.lexeme + input.subrange(ib, self.pos()),
                        quote: spec_subst(input, ib).1,
                        kind: Some(TokenKind::Word),
                    }));
                }
            } else if !quoted && single {
                if self.context.empty() {
                    self.context.expected_token = Some(TokenKind::Operator);
                    self.add_it();
                    proof {
                        assert(self.ctx() =~= (SpecCtx {
                            lexeme: seq![c],
                            quote: ctxb.quote,
                            kind: Some(TokenKind::Operator),
                        }));
                    }
                } else {
                    return Some(self.delimit_token());
                }
            } else if !quoted && (c == ' ' || c == '\t') {
                if self.context.empty() {
                    self.consume_one();
                } else {
                    return Some(self.delimit_token());
                }
            } else if c == '\n' {
                if self.context.empty() {
                    self.consume_one();
                    return Some(Token::NewLine);
                } else {
                    return Some(self.delimit_token());
                }
            } else if word_pending {
                let qclose = match self.context.quoted {
                    Some(q) => q == c || q == '\\',
                    None => false,
                };
                self.add_it();
                if qclose {
                    self.context.quoted = None;
                }
                proof {
                    assert(self.ctx() =~= (SpecCtx {
                        lexeme: ctxb.lexeme.push(c),
                        quote: if ctxb.quote == Some(c) || ctxb.quote == Some('\\') {
                            None
                        } else {
                            ctxb.quote
                        },
                        kind: ctxb.kind,
                    }));
                }
            } else if c == '#' && kind_none {
                self.consume_one();
                proof {
                    lemma_spec_skip_comment_bounds(input, ib + 1);
                    assert(spec_next(input, ib, ctxb) == spec_next(
                        input,
                        spec_skip_comment(input, ib + 1),
                        ctxb,
                    ));
                }
                loop
                    invariant
                        input == old(self).input(),
                        i0 == old(self).pos(),
                        self.wf(),
                        self.input() == input,
                        self.ctx() == ctxb,
                        ib + 1 <= self.pos(),
                        spec_next(input, i0, empty_ctx()) == spec_next(
                            input,
                            spec_skip_comment(input, self.pos()),
                            ctxb,
                        ),
                    ensures
                        input == old(self).input(),
                        i0 == old(self).pos(),
                        self.wf(),
                        self.input() == input,
                        ib + 1 <= self.pos(),
                        spec_next(input, i0, empty_ctx()) == spec_next(
                            input,
                            self.pos(),
                            self.ctx(),
                        ),
                    decreases input.len() - self.pos(),
                {
                    let cc = self.peek_one();
                    if cc == '\n' || cc == '\0' {
                        break ;
                    } else {
                        self.consume_one();
                    }
                }
            } else {
                self.add_it();
                self.context.expected_token = Some(TokenKind::Word);
                proof {
                    assert(self.ctx() =~= (SpecCtx {
                        lexeme: ctxb.lexeme.push(c),
                        quote: ctxb.quote,
                        kind: Some(TokenKind::Word),
                    }));
                }
            }
        }
    }
}

} // verus!
