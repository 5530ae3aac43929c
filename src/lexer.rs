//! Tokenizer: a forward-only cursor over the characters of the source text.
use vstd::prelude::*;
use vstd::string::*;

verus! {

/// The classification of a token.
#[derive(Debug, Clone, Copy, PartialEq, Eq, Structural)]
pub enum TokenKind {
    ParenL,
    ParenR,
    SquareL,
    SquareR,
    CurlyL,
    CurlyR,
    Integer,
    Float,
    Keyword,
    String,
    Field,
    Comma,
    Pipe,
    Comment,
    Invalid,
}

impl TokenKind {
    /// How the kind reads in a message.
    pub fn name(&self) -> &'static str {
        match self {
            TokenKind::ParenL => "'('",
            TokenKind::ParenR => "')'",
            TokenKind::SquareL => "'['",
            TokenKind::SquareR => "']'",
            TokenKind::CurlyL => "'{'",
            TokenKind::CurlyR => "'}'",
            TokenKind::Integer => "Integer",
            TokenKind::Float => "Float",
            TokenKind::Keyword => "Keyword",
            TokenKind::String => "String",
            TokenKind::Field => "Field",
            TokenKind::Comma => "','",
            TokenKind::Pipe => "'|'",
            TokenKind::Comment => "Comment",
            TokenKind::Invalid => "Invalid",
        }
    }
}

/// A classified half-open range `[start, end)` of character positions of the source.
#[derive(Debug, Clone, Copy, PartialEq, Eq, Structural)]
pub struct Token {
    pub kind: TokenKind,
    pub start: usize,
    pub end: usize,
}

pub open spec fn is_ws(c: char) -> bool {
    c == ' ' || c == '\n' || c == '\t'
}

pub open spec fn is_digit(c: char) -> bool {
    '0' <= c && c <= '9'
}

pub open spec fn is_lower(c: char) -> bool {
    'a' <= c && c <= 'z'
}

pub open spec fn is_upper(c: char) -> bool {
    'A' <= c && c <= 'Z'
}

pub open spec fn is_ident_char(c: char) -> bool {
    is_lower(c) || is_upper(c) || is_digit(c) || c == '_'
}

/// The first position at or after `p` that is not whitespace.
pub open spec fn skip_ws(s: Seq<char>, p: int) -> int
    decreases s.len() - p,
{
    if 0 <= p < s.len() && is_ws(s[p]) {
        skip_ws(s, p + 1)
    } else {
        p
    }
}

/// The end of a run of identifier characters starting at `p`.
pub open spec fn ident_end(s: Seq<char>, p: int) -> int
    decreases s.len() - p,
{
    if 0 <= p < s.len() && is_ident_char(s[p]) {
        ident_end(s, p + 1)
    } else {
        p
    }
}

/// The position of the first newline at or after `p`, or the end of the input.
pub open spec fn comment_end(s: Seq<char>, p: int) -> int
    decreases s.len() - p,
{
    if 0 <= p < s.len() && s[p] != '\n' {
        comment_end(s, p + 1)
    } else {
        p
    }
}

/// The position just after the first `"` at or after `p`; `None` when there is none.
pub open spec fn string_end(s: Seq<char>, p: int) -> Option<int>
    decreases s.len() - p,
{
    if 0 <= p < s.len() {
        if s[p] == '"' {
            Some(p + 1)
        } else {
            string_end(s, p + 1)
        }
    } else {
        None
    }
}

/// Scans the rest of a number from `p`: the end of the run and whether it holds a dot;
/// `None` for a second dot or a `-` inside the run.
pub open spec fn number_end(s: Seq<char>, p: int, seen_dot: bool) -> Option<(int, bool)>
    decreases s.len() - p,
{
    if 0 <= p < s.len() {
        let c = s[p];
        if is_digit(c) || c == '_' {
            number_end(s, p + 1, seen_dot)
        } else if c == '.' {
            if seen_dot {
                None
            } else {
                number_end(s, p + 1, true)
            }
        } else if c == '-' {
            None
        } else {
            Some((p, seen_dot))
        }
    } else {
        Some((p, seen_dot))
    }
}

pub open spec fn number_kind(r: Option<(int, bool)>) -> Option<(TokenKind, int)> {
    match r {
        Some((e, dot)) => Some((if dot { TokenKind::Float } else { TokenKind::Integer }, e)),
        None => None,
    }
}

/// The kind and end of the token whose first character is at `start`;
/// `None` where the text there is no token.
pub open spec fn scan(s: Seq<char>, start: int) -> Option<(TokenKind, int)> {
    let c = s[start];
    if c == '(' {
        Some((TokenKind::ParenL, start + 1))
    } else if c == ')' {
        Some((TokenKind::ParenR, start + 1))
    } else if c == '{' {
        Some((TokenKind::CurlyL, start + 1))
    } else if c == '}' {
        Some((TokenKind::CurlyR, start + 1))
    } else if c == '[' {
        Some((TokenKind::SquareL, start + 1))
    } else if c == ']' {
        Some((TokenKind::SquareR, start + 1))
    } else if c == ',' {
        Some((TokenKind::Comma, start + 1))
    } else if c == '|' {
        Some((TokenKind::Pipe, start + 1))
    } else if c == '#' {
        Some((TokenKind::Comment, comment_end(s, start + 1)))
    } else if c == '"' {
        match string_end(s, start + 1) {
            Some(e) => Some((TokenKind::String, e)),
            None => None,
        }
    } else if is_digit(c) || c == '-' {
        number_kind(number_end(s, start + 1, false))
    } else if c == '.' {
        number_kind(number_end(s, start + 1, true))
    } else if is_lower(c) {
        Some((TokenKind::Field, ident_end(s, start + 1)))
    } else if is_upper(c) {
        Some((TokenKind::Keyword, ident_end(s, start + 1)))
    } else {
        None
    }
}

/// The abstract state of a lexer: the source, the cursor, and whether the stream has
/// stopped after an invalid token.
pub struct LexState {
    pub src: Seq<char>,
    pub pos: int,
    pub invalidated: bool,
}

impl LexState {
    pub open spec fn wf(self) -> bool {
        0 <= self.pos <= self.src.len() && self.src.len() <= usize::MAX
    }

    /// A measure that each produced token makes smaller.
    pub open spec fn rank(self) -> int {
        if self.invalidated {
            0
        } else {
            self.src.len() - self.pos + 1
        }
    }
}

pub open spec fn mk_token(kind: TokenKind, start: int, end: int) -> Token {
    Token { kind, start: start as usize, end: end as usize }
}

/// The next token of the stream and the state after it.
pub open spec fn lex_next(st: LexState) -> (Option<Token>, LexState) {
    let s = st.src;
    if st.invalidated {
        (None, st)
    } else {
        let start = skip_ws(s, st.pos);
        if start >= s.len() {
            (None, LexState { pos: s.len() as int, ..st })
        } else {
            match scan(s, start) {
                Some((k, e)) => (Some(mk_token(k, start, e)), LexState { pos: e, ..st }),
                None => (
                    Some(mk_token(TokenKind::Invalid, start, s.len() as int)),
                    LexState { pos: s.len() as int, invalidated: true, ..st },
                ),
            }
        }
    }
}


/// The next token that is not a comment, and the state after it.
pub open spec fn nc_next(st: LexState) -> (Option<Token>, LexState)
    decreases st.rank(),
    when st.wf()
    via nc_next_decreases
{
    let (t, st2) = lex_next(st);
    match t {
        Some(tok) => if tok.kind == TokenKind::Comment {
            nc_next(st2)
        } else {
            (t, st2)
        },
        None => (t, st2),
    }
}

#[via_fn]
proof fn nc_next_decreases(st: LexState) {
    lemma_lex_next(st);
}

proof fn lemma_skip_ws(s: Seq<char>, p: int)
    requires
        0 <= p <= s.len(),
    ensures
        p <= skip_ws(s, p) <= s.len(),
    decreases s.len() - p,
{
    if p < s.len() && is_ws(s[p]) {
        lemma_skip_ws(s, p + 1);
    }
}

proof fn lemma_ident_end(s: Seq<char>, p: int)
    requires
        0 <= p <= s.len(),
    ensures
        p <= ident_end(s, p) <= s.len(),
    decreases s.len() - p,
{
    if p < s.len() && is_ident_char(s[p]) {
        lemma_ident_end(s, p + 1);
    }
}

proof fn lemma_comment_end(s: Seq<char>, p: int)
    requires
        0 <= p <= s.len(),
    ensures
        p <= comment_end(s, p) <= s.len(),
    decreases s.len() - p,
{
    if p < s.len() && s[p] != '\n' {
        lemma_comment_end(s, p + 1);
    }
}

proof fn lemma_string_end(s: Seq<char>, p: int)
    requires
        0 <= p <= s.len(),
    ensures
        string_end(s, p) matches Some(e) ==> p < e <= s.len(),
    decreases s.len() - p,
{
    if p < s.len() && s[p] != '"' {
        lemma_string_end(s, p + 1);
    }
}

proof fn lemma_number_end(s: Seq<char>, p: int, seen_dot: bool)
    requires
        0 <= p <= s.len(),
    ensures
        number_end(s, p, seen_dot) matches Some((e, _)) ==> p <= e <= s.len(),
    decreases s.len() - p,
{
    if p < s.len() {
        let c = s[p];
        if is_digit(c) || c == '_' {
            lemma_number_end(s, p + 1, seen_dot);
        } else if c == '.' && !seen_dot {
            lemma_number_end(s, p + 1, true);
        }
    }
}

proof fn lemma_scan(s: Seq<char>, start: int)
    requires
        0 <= start < s.len(),
    ensures
        scan(s, start) matches Some((k, e)) ==> start < e <= s.len() && (k == TokenKind::String
            ==> start + 2 <= e),
{
    lemma_ident_end(s, start + 1);
    lemma_comment_end(s, start + 1);
    lemma_string_end(s, start + 1);
    lemma_number_end(s, start + 1, false);
    lemma_number_end(s, start + 1, true);
}

/// Each token comes from the text after the cursor, and makes the state's rank smaller.
pub proof fn lemma_lex_next(st: LexState)
    requires
        st.wf(),
    ensures
        lex_next(st).1.wf(),
        lex_next(st).1.src == st.src,
        lex_next(st).1.rank() <= st.rank(),
        lex_next(st).0 matches Some(t) ==> lex_next(st).1.rank() < st.rank() && st.pos <= t.start
            < t.end <= st.src.len() && t.end <= lex_next(st).1.pos && (t.kind == TokenKind::String
            ==> t.start + 2 <= t.end),
{
    if !st.invalidated {
        lemma_skip_ws(st.src, st.pos);
        let start = skip_ws(st.src, st.pos);
        if start < st.src.len() {
            lemma_scan(st.src, start);
        }
    }
}

/// The comment-free stream keeps the properties of the raw one.
pub proof fn lemma_nc_next(st: LexState)
    requires
        st.wf(),
    ensures
        nc_next(st).1.wf(),
        nc_next(st).1.src == st.src,
        nc_next(st).1.rank() <= st.rank(),
        nc_next(st).0 matches Some(t) ==> nc_next(st).1.rank() < st.rank() && st.pos <= t.start
            < t.end <= st.src.len() && t.end <= nc_next(st).1.pos && t.kind != TokenKind::Comment
            && (t.kind == TokenKind::String ==> t.start + 2 <= t.end),
    decreases st.rank(),
{
    lemma_lex_next(st);
    let (t, st2) = lex_next(st);
    if let Some(tok) = t {
        if tok.kind == TokenKind::Comment {
            lemma_nc_next(st2);
        }
    }
}

/// A forward-only cursor over the characters of a source text.
pub struct Lexer {
    chars: Vec<char>,
    pos: usize,
    invalidated: bool,
}

impl View for Lexer {
    type V = LexState;

    closed spec fn view(&self) -> LexState {
        LexState { src: self.chars@, pos: self.pos as int, invalidated: self.invalidated }
    }
}

impl Lexer {
    /// A lexer at the start of `string`.
    pub fn new(string: &str) -> (r: Lexer)
        ensures
            r@ == (LexState { src: string@, pos: 0, invalidated: false }),
            r@.wf(),
    {
        let n = string.unicode_len();
        let mut chars: Vec<char> = Vec::new();
        let mut i: usize = 0;
        while i < n
            invariant
                n == string@.len(),
                i <= n,
                chars@ == string@.subrange(0, i as int),
            decreases n - i,
        {
            chars.push(string.get_char(i));
            i = i + 1;
            assert(chars@ =~= string@.subrange(0, i as int));
        }
        assert(chars@ =~= string@);
        Lexer { chars, pos: 0, invalidated: false }
    }

    /// The character of the source at position `i`.
    pub fn char_at(&self, i: usize) -> (c: char)
        requires
            i < self@.src.len(),
        ensures
            c == self@.src[i as int],
    {
        self.chars[i]
    }

    /// The length of the source in characters.
    pub fn source_len(&self) -> (n: usize)
        ensures
            n == self@.src.len(),
    {
        self.chars.len()
    }

    /// The same stream with comment tokens left out.
    pub fn no_comments(self) -> (r: NoCommentLexer)
        ensures
            r@ == self@,
    {
        NoCommentLexer(self)
    }

    /// Produces the next token, or `None` when the stream has ended. After an
    /// `Invalid` token the stream ends.
    pub fn consume(&mut self) -> (r: Option<Token>)
        requires
            old(self)@.wf(),
        ensures
            (r, final(self)@) == lex_next(old(self)@),
            final(self)@.wf(),
    {
        proof {
            lemma_lex_next(self@);
        }
        if self.invalidated {
            return None;
        }
        self.consume_whitespace();
        let len = self.chars.len();
        if self.pos >= len {
            return None;
        }
        let start = self.pos;
        let c = self.chars[start];
        self.pos = start + 1;
        proof {
            lemma_scan(self.chars@, start as int);
        }
        let kind = if c == '(' {
            Some(TokenKind::ParenL)
        } else if c == ')' {
            Some(TokenKind::ParenR)
        } else if c == '{' {
            Some(TokenKind::CurlyL)
        } else if c == '}' {
            Some(TokenKind::CurlyR)
        } else if c == '[' {
            Some(TokenKind::SquareL)
        } else if c == ']' {
            Some(TokenKind::SquareR)
        } else if c == ',' {
            Some(TokenKind::Comma)
        } else if c == '|' {
            Some(TokenKind::Pipe)
        } else if c == '#' {
            self.consume_comment()
        } else if c == '"' {
            self.consume_string()
        } else if ('0' <= c && c <= '9') || c == '-' {
            self.consume_number(false)
        } else if c == '.' {
            self.consume_number(true)
        } else if 'a' <= c && c <= 'z' {
            self.consume_field()
        } else if 'A' <= c && c <= 'Z' {
            self.consume_keyword()
        } else {
            None
        };
        match kind {
            Some(k) => Some(Token { kind: k, start, end: self.pos }),
            None => {
                self.invalidated = true;
                self.pos = len;
                Some(Token { kind: TokenKind::Invalid, start, end: len })
            },
        }
    }

    fn consume_whitespace(&mut self)
        requires
            old(self)@.wf(),
        ensures
            final(self)@ == (LexState { pos: skip_ws(old(self)@.src, old(self)@.pos), ..old(self)@ }),
            final(self)@.wf(),
    {
        let ghost p0 = self.pos as int;
        while self.pos < self.chars.len() && (self.chars[self.pos] == ' '
            || self.chars[self.pos] == '\n' || self.chars[self.pos] == '\t')
            invariant
                p0 == old(self)@.pos,
                p0 <= self.pos <= self.chars.len(),
                self@.src == old(self)@.src,
                self.invalidated == old(self).invalidated,
                skip_ws(self@.src, self.pos as int) == skip_ws(self@.src, p0),
            decreases self.chars.len() - self.pos,
        {
            self.pos = self.pos + 1;
        }
    }

    fn consume_comment(&mut self) -> (r: Option<TokenKind>)
        requires
            old(self)@.wf(),
        ensures
            r == Some(TokenKind::Comment),
            final(self)@ == (LexState { pos: comment_end(old(self)@.src, old(self)@.pos), ..old(self)@ }),
            final(self)@.wf(),
    {
        let ghost p0 = self.pos as int;
        while self.pos < self.chars.len() && self.chars[self.pos] != '\n'
            invariant
                p0 == old(self)@.pos,
                p0 <= self.pos <= self.chars.len(),
                self@.src == old(self)@.src,
                self.invalidated == old(self).invalidated,
                comment_end(self@.src, self.pos as int) == comment_end(self@.src, p0),
            decreases self.chars.len() - self.pos,
        {
            self.pos = self.pos + 1;
        }
        Some(TokenKind::Comment)
    }

    fn consume_number(&mut self, seen_dot: bool) -> (r: Option<TokenKind>)
        requires
            old(self)@.wf(),
        ensures
            final(self)@.wf(),
            final(self)@.src == old(self)@.src,
            final(self)@.invalidated == old(self)@.invalidated,
            match number_end(old(self)@.src, old(self)@.pos, seen_dot) {
                Some((e, dot)) => r == Some(if dot { TokenKind::Float } else { TokenKind::Integer })
                    && final(self)@.pos == e,
                None => r is None,
            },
    {
        let ghost p0 = self.pos as int;
        let mut dot = seen_dot;
        while self.pos < self.chars.len()
            invariant
                p0 == old(self)@.pos,
                p0 <= self.pos <= self.chars.len(),
                self@.src == old(self)@.src,
                self.invalidated == old(self).invalidated,
                number_end(self@.src, self.pos as int, dot) == number_end(self@.src, p0, seen_dot),
            decreases self.chars.len() - self.pos,
        {
            let c = self.chars[self.pos];
            if ('0' <= c && c <= '9') || c == '_' {
            } else if c == '.' {
                if dot {
                    return None;
                }
                dot = true;
            } else if c == '-' {
                return None;
            } else {
                return if dot {
                    Some(TokenKind::Float)
                } else {
                    Some(TokenKind::Integer)
                };
            }
            self.pos = self.pos + 1;
        }
        if dot {
            Some(TokenKind::Float)
        } else {
            Some(TokenKind::Integer)
        }
    }

    fn consume_ident_rest(&mut self)
        requires
            old(self)@.wf(),
        ensures
            final(self)@ == (LexState { pos: ident_end(old(self)@.src, old(self)@.pos), ..old(self)@ }),
            final(self)@.wf(),
    {
        let ghost p0 = self.pos as int;
        while self.pos < self.chars.len() && is_ident_char_exec(self.chars[self.pos])
            invariant
                p0 == old(self)@.pos,
                p0 <= self.pos <= self.chars.len(),
                self@.src == old(self)@.src,
                self.invalidated == old(self).invalidated,
                ident_end(self@.src, self.pos as int) == ident_end(self@.src, p0),
            decreases self.chars.len() - self.pos,
        {
            self.pos = self.pos + 1;
        }
    }

    fn consume_keyword(&mut self) -> (r: Option<TokenKind>)
        requires
            old(self)@.wf(),
        ensures
            r == Some(TokenKind::Keyword),
            final(self)@ == (LexState { pos: ident_end(old(self)@.src, old(self)@.pos), ..old(self)@ }),
            final(self)@.wf(),
    {
        self.consume_ident_rest();
        Some(TokenKind::Keyword)
    }

    fn consume_field(&mut self) -> (r: Option<TokenKind>)
        requires
            old(self)@.wf(),
        ensures
            r == Some(TokenKind::Field),
            final(self)@ == (LexState { pos: ident_end(old(self)@.src, old(self)@.pos), ..old(self)@ }),
            final(self)@.wf(),
    {
        self.consume_ident_rest();
        Some(TokenKind::Field)
    }

    /// Consumes the rest of a string literal through its closing quote; `None` when the
    /// input ends first.
    fn consume_string(&mut self) -> (r: Option<TokenKind>)
        requires
            old(self)@.wf(),
        ensures
            final(self)@.wf(),
            final(self)@.src == old(self)@.src,
            final(self)@.invalidated == old(self)@.invalidated,
            match string_end(old(self)@.src, old(self)@.pos) {
                Some(e) => r == Some(TokenKind::String) && final(self)@.pos == e,
                None => r is None,
            },
    {
        let ghost p0 = self.pos as int;
        while self.pos < self.chars.len()
            invariant
                p0 == old(self)@.pos,
                p0 <= self.pos <= self.chars.len(),
                self@.src == old(self)@.src,
                self.invalidated == old(self).invalidated,
                string_end(self@.src, self.pos as int) == string_end(self@.src, p0),
            decreases self.chars.len() - self.pos,
        {
            let c = self.chars[self.pos];
            self.pos = self.pos + 1;
            if c == '"' {
                return Some(TokenKind::String);
            }
        }
        None
    }
}

fn is_ident_char_exec(c: char) -> (r: bool)
    ensures
        r == is_ident_char(c),
{
    ('a' <= c && c <= 'z') || ('A' <= c && c <= 'Z') || ('0' <= c && c <= '9') || c == '_'
}

/// A lexer whose stream leaves out comment tokens.
pub struct NoCommentLexer(Lexer);

impl View for NoCommentLexer {
    type V = LexState;

    closed spec fn view(&self) -> LexState {
        self.0@
    }
}

impl NoCommentLexer {
    /// The character of the source at position `i`.
    pub fn char_at(&self, i: usize) -> (c: char)
        requires
            i < self@.src.len(),
        ensures
            c == self@.src[i as int],
    {
        self.0.char_at(i)
    }

    /// The length of the source in characters.
    pub fn source_len(&self) -> (n: usize)
        ensures
            n == self@.src.len(),
    {
        self.0.source_len()
    }

    /// Produces the next token that is not a comment, or `None` when the stream has ended.
    pub fn next(&mut self) -> (r: Option<Token>)
        requires
            old(self)@.wf(),
        ensures
            (r, final(self)@) == nc_next(old(self)@),
            final(self)@.wf(),
    {
        loop
            invariant
                self@.wf(),
                nc_next(self@) == nc_next(old(self)@),
            decreases self@.rank(),
        {
            proof {
                lemma_lex_next(self@);
            }
            let t = self.0.consume();
            match t {
                Some(tok) => {
                    if tok.kind != TokenKind::Comment {
                        return t;
                    }
                },
                None => {
                    return t;
                },
            }
        }
    }
}

} // verus!
