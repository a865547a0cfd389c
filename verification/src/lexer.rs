//! The JSON lexer: turns text into tokens. Spaces between tokens are skipped; strings
//! run to the next double quote (or to the end); numbers are runs of decimal digits.
use crate::text::{chars_of, string_from_chars};
use vstd::prelude::*;
use vstd::string::StringExecFns;

verus! {

/// A JSON token. A number is kept as the digits it was written with.
#[derive(Clone, Debug, PartialEq)]
pub enum Token {
    LeftBrace,
    RightBrace,
    LeftBracket,
    RightBracket,
    Colon,
    Comma,
    String(String),
    Number(String),
    Bool(bool),
    Null,
}

/// A token, with its text as a sequence of characters.
pub enum SpecToken {
    LeftBrace,
    RightBrace,
    LeftBracket,
    RightBracket,
    Colon,
    Comma,
    Str(Seq<char>),
    Number(Seq<char>),
    Bool(bool),
    Null,
}

impl View for Token {
    type V = SpecToken;

    open spec fn view(&self) -> SpecToken {
        match self {
            Token::LeftBrace => SpecToken::LeftBrace,
            Token::RightBrace => SpecToken::RightBrace,
            Token::LeftBracket => SpecToken::LeftBracket,
            Token::RightBracket => SpecToken::RightBracket,
            Token::Colon => SpecToken::Colon,
            Token::Comma => SpecToken::Comma,
            Token::String(s) => SpecToken::Str(s@),
            Token::Number(s) => SpecToken::Number(s@),
            Token::Bool(b) => SpecToken::Bool(*b),
            Token::Null => SpecToken::Null,
        }
    }
}

/// The views of a sequence of tokens.
pub open spec fn tokens_view(ts: Seq<Token>) -> Seq<SpecToken> {
    ts.map_values(|t: Token| t@)
}

/// Digits without the zeros in front; a number of zeros only is `0`.
pub open spec fn strip_zeros(d: Seq<char>) -> Seq<char>
    decreases d.len(),
{
    if d.len() == 0 {
        seq!['0']
    } else if d[0] == '0' {
        if d.len() == 1 {
            seq!['0']
        } else {
            strip_zeros(d.drop_first())
        }
    } else {
        d
    }
}

/// How a token is written out: punctuation as itself, a string as its contents, a number
/// as its digits without leading zeros, `true`, `false`, and `Null`.
pub open spec fn token_text(t: SpecToken) -> Seq<char> {
    match t {
        SpecToken::LeftBrace => seq!['{'],
        SpecToken::RightBrace => seq!['}'],
        SpecToken::LeftBracket => seq!['['],
        SpecToken::RightBracket => seq![']'],
        SpecToken::Colon => seq![':'],
        SpecToken::Comma => seq![','],
        SpecToken::Str(s) => s,
        SpecToken::Number(d) => strip_zeros(d),
        SpecToken::Bool(b) => if b {
            seq!['t', 'r', 'u', 'e']
        } else {
            seq!['f', 'a', 'l', 's', 'e']
        },
        SpecToken::Null => seq!['N', 'u', 'l', 'l'],
    }
}

/// A copy of a token.
pub fn clone_token(t: &Token) -> (c: Token)
    ensures
        c@ == t@,
{
    match t {
        Token::LeftBrace => Token::LeftBrace,
        Token::RightBrace => Token::RightBrace,
        Token::LeftBracket => Token::LeftBracket,
        Token::RightBracket => Token::RightBracket,
        Token::Colon => Token::Colon,
        Token::Comma => Token::Comma,
        Token::String(s) => Token::String(s.clone()),
        Token::Number(s) => Token::Number(s.clone()),
        Token::Bool(b) => Token::Bool(*b),
        Token::Null => Token::Null,
    }
}

/// A copy of a sequence of tokens.
pub fn clone_tokens(ts: &Vec<Token>) -> (c: Vec<Token>)
    ensures
        tokens_view(c@) == tokens_view(ts@),
{
    let mut c: Vec<Token> = Vec::new();
    for i in 0..ts.len()
        invariant
            c@.len() == i,
            forall|j: int| 0 <= j < i ==> (#[trigger] c@[j])@ == ts@[j]@,
    {
        c.push(clone_token(&ts[i]));
    }
    assert(tokens_view(c@) =~= tokens_view(ts@));
    c
}

impl Token {
    /// The token written out, as `token_text` says.
    pub fn to_text(&self) -> (s: String)
        ensures
            s@ == token_text(self@),
    {
        match self {
            Token::LeftBrace => {
                proof { reveal_strlit("{"); }
                String::from_str("{")
            },
            Token::RightBrace => {
                proof { reveal_strlit("}"); }
                String::from_str("}")
            },
            Token::LeftBracket => {
                proof { reveal_strlit("["); }
                String::from_str("[")
            },
            Token::RightBracket => {
                proof { reveal_strlit("]"); }
                String::from_str("]")
            },
            Token::Colon => {
                proof { reveal_strlit(":"); }
                String::from_str(":")
            },
            Token::Comma => {
                proof { reveal_strlit(","); }
                String::from_str(",")
            },
            Token::String(s) => s.clone(),
            Token::Number(d) => strip_leading_zeros(d),
            Token::Bool(b) => {
                if *b {
                    proof { reveal_strlit("true"); }
                    String::from_str("true")
                } else {
                    proof { reveal_strlit("false"); }
                    String::from_str("false")
                }
            },
            Token::Null => {
                proof { reveal_strlit("Null"); }
                String::from_str("Null")
            },
        }
    }
}

proof fn lemma_strip_zeros_skip(d: Seq<char>, i: int)
    requires
        0 <= i < d.len(),
        forall|j: int| 0 <= j < i ==> d[j] == '0',
    ensures
        strip_zeros(d) == strip_zeros(d.skip(i)),
    decreases i,
{
    if i > 0 {
        lemma_strip_zeros_skip(d.drop_first(), i - 1);
        assert(d.drop_first().skip(i - 1) =~= d.skip(i));
    } else {
        assert(d.skip(0) =~= d);
    }
}

pub(crate) fn strip_leading_zeros(d: &String) -> (s: String)
    ensures
        s@ == strip_zeros(d@),
{
    let cs = chars_of(d.as_str());
    let n = cs.len();
    if n == 0 {
        proof { reveal_strlit("0"); }
        return String::from_str("0");
    }
    let mut i: usize = 0;
    while i + 1 < n && cs[i] == '0'
        invariant
            n == cs@.len(),
            cs@ == d@,
            n >= 1,
            i < n,
            forall|j: int| 0 <= j < i ==> cs@[j] == '0',
        decreases n - i,
    {
        i = i + 1;
    }
    proof {
        lemma_strip_zeros_skip(cs@, i as int);
        let rest = cs@.skip(i as int);
        if rest.len() == 1 {
            assert(rest[0] == cs@[i as int]);
        }
    }
    let r = string_from_chars(&cs.as_slice()[i..n]);
    proof {
        assert(cs@.subrange(i as int, n as int) =~= cs@.skip(i as int));
        reveal_strlit("0");
    }
    if cs[i] == '0' {
        proof {
            assert(cs@.skip(i as int) =~= seq!['0']);
        }
    }
    r
}

/// Why lexing stopped.
#[derive(Debug, PartialEq, Eq, Clone, Copy)]
pub enum LexError {
    /// A character that starts no token.
    InvalidJson,
    /// A word starting with `t`, `f` or `n` that is not `true`, `false` or `null`.
    InvalidLiteral,
}

/// An ASCII decimal digit.
pub open spec fn is_digit(c: char) -> bool {
    '0' <= c && c <= '9'
}

/// The first position from `pos` that does not hold a space.
pub open spec fn skip_spaces(input: Seq<char>, pos: int) -> int
    decreases input.len() - pos,
{
    if 0 <= pos < input.len() && input[pos] == ' ' {
        skip_spaces(input, pos + 1)
    } else {
        pos
    }
}

/// The first position from `pos` that holds a double quote, or the end.
pub open spec fn string_end(input: Seq<char>, pos: int) -> int
    decreases input.len() - pos,
{
    if 0 <= pos < input.len() && input[pos] != '"' {
        string_end(input, pos + 1)
    } else {
        pos
    }
}

/// The first position from `pos` that does not hold a digit.
pub open spec fn digits_end(input: Seq<char>, pos: int) -> int
    decreases input.len() - pos,
{
    if 0 <= pos < input.len() && is_digit(input[pos]) {
        digits_end(input, pos + 1)
    } else {
        pos
    }
}

/// Scanning from `pos` ends between `pos` and the end of the input; a run of digits
/// that starts at `pos` is not empty.
pub proof fn lemma_scan_bounds(input: Seq<char>, pos: int)
    requires
        0 <= pos <= input.len(),
    ensures
        pos <= skip_spaces(input, pos) <= input.len(),
        pos <= string_end(input, pos) <= input.len(),
        pos <= digits_end(input, pos) <= input.len(),
        pos < input.len() && is_digit(input[pos]) ==> pos < digits_end(input, pos),
    decreases input.len() - pos,
{
    if pos < input.len() {
        lemma_scan_bounds(input, pos + 1);
    }
}

/// `word` is written at `pos`.
pub open spec fn word_at(input: Seq<char>, pos: int, word: Seq<char>) -> bool {
    pos + word.len() <= input.len() && input.subrange(pos, pos + word.len()) == word
}

/// The literal written at `pos`, with the position after it.
pub open spec fn literal_at(input: Seq<char>, pos: int) -> Option<(SpecToken, int)> {
    if word_at(input, pos, seq!['t', 'r', 'u', 'e']) {
        Some((SpecToken::Bool(true), pos + 4))
    } else if word_at(input, pos, seq!['f', 'a', 'l', 's', 'e']) {
        Some((SpecToken::Bool(false), pos + 5))
    } else if word_at(input, pos, seq!['n', 'u', 'l', 'l']) {
        Some((SpecToken::Null, pos + 4))
    } else {
        None
    }
}

/// The punctuation token for a character.
pub open spec fn punctuation(c: char) -> Option<SpecToken> {
    if c == '[' {
        Some(SpecToken::LeftBracket)
    } else if c == ']' {
        Some(SpecToken::RightBracket)
    } else if c == '{' {
        Some(SpecToken::LeftBrace)
    } else if c == '}' {
        Some(SpecToken::RightBrace)
    } else if c == ',' {
        Some(SpecToken::Comma)
    } else if c == ':' {
        Some(SpecToken::Colon)
    } else {
        None
    }
}

/// What lexing from a position gives: the tokens found, the error that stopped it if
/// any, and the position where it ended.
pub struct LexOutcome {
    pub tokens: Seq<SpecToken>,
    pub error: Option<LexError>,
    pub end: int,
}

/// The outcome `o` with the token `t` found before it.
pub open spec fn prepend(t: SpecToken, o: LexOutcome) -> LexOutcome {
    LexOutcome { tokens: seq![t] + o.tokens, error: o.error, end: o.end }
}

/// Lexing the input from `pos` to its end. A string without a closing quote runs to the
/// end of the input.
pub open spec fn lex_from(input: Seq<char>, pos: int) -> LexOutcome
    decreases input.len() + 1 - pos,
{
    if pos < 0 || pos >= input.len() {
        LexOutcome { tokens: Seq::empty(), error: None, end: pos }
    } else {
        let p = skip_spaces(input, pos);
        proof {
            lemma_scan_bounds(input, pos);
        }
        if p >= input.len() {
            LexOutcome { tokens: Seq::empty(), error: None, end: p }
        } else {
            let c = input[p];
            proof {
                lemma_scan_bounds(input, p);
                lemma_scan_bounds(input, p + 1);
            }
            match punctuation(c) {
                Some(t) => prepend(t, lex_from(input, p + 1)),
                None => if c == 't' || c == 'f' || c == 'n' {
                    match literal_at(input, p) {
                        Some(lit) => prepend(lit.0, lex_from(input, lit.1)),
                        None => LexOutcome { tokens: Seq::empty(), error: Some(LexError::InvalidLiteral), end: p },
                    }
                } else if c == '"' {
                    let e = string_end(input, p + 1);
                    prepend(SpecToken::Str(input.subrange(p + 1, e)), lex_from(input, e + 1))
                } else if is_digit(c) {
                    let e = digits_end(input, p);
                    prepend(SpecToken::Number(input.subrange(p, e)), lex_from(input, e))
                } else {
                    LexOutcome { tokens: Seq::empty(), error: Some(LexError::InvalidJson), end: p }
                },
            }
        }
    }
}

/// Whether `word` is written at `pos`.
fn word_at_exec(input: &Vec<char>, pos: usize, word: &[char]) -> (b: bool)
    requires
        pos <= input@.len(),
    ensures
        b == word_at(input@, pos as int, word@),
{
    let len = input.len();
    if len - pos < word.len() {
        return false;
    }
    let mut i: usize = 0;
    while i < word.len()
        invariant
            len == input@.len(),
            pos + word@.len() <= input@.len(),
            i <= word@.len(),
            forall|j: int| 0 <= j < i ==> input@[pos + j] == word@[j],
        decreases word@.len() - i,
    {
        if input[pos + i] != word[i] {
            assert(input@.subrange(pos as int, pos + word@.len())[i as int] != word@[i as int]);
            return false;
        }
        i = i + 1;
    }
    assert(input@.subrange(pos as int, pos + word@.len()) =~= word@);
    true
}

/// Turns text into JSON tokens.
pub struct Lexer {
    pub tokens: Vec<Token>,
    pub input: Vec<char>,
    pos: usize,
}

impl Lexer {
    /// Where lexing stands.
    pub closed spec fn position(&self) -> int {
        self.pos as int
    }

    /// The characters being lexed.
    pub closed spec fn spec_input(&self) -> Seq<char> {
        self.input@
    }

    /// The tokens found so far.
    pub closed spec fn spec_tokens(&self) -> Seq<SpecToken> {
        tokens_view(self.tokens@)
    }

    /// A lexer at the start of `input`, with no tokens yet.
    pub fn new(input: &str) -> (l: Self)
        ensures
            l.spec_input() == input@,
            l.spec_tokens().len() == 0,
            l.position() == 0,
    {
        Lexer { input: chars_of(input), tokens: Vec::new(), pos: 0 }
    }

    fn peek(&self) -> (c: Option<char>)
        ensures
            c == (if self.pos < self.input@.len() {
                Some(self.input@[self.pos as int])
            } else {
                None::<char>
            }),
    {
        if self.pos >= self.input.len() {
            return None;
        }
        Some(self.input[self.pos])
    }

    fn skip_whitespace(&mut self)
        requires
            old(self).pos <= old(self).input@.len(),
        ensures
            final(self).input == old(self).input,
            final(self).tokens == old(self).tokens,
            final(self).pos == skip_spaces(old(self).input@, old(self).pos as int),
    {
        proof {
            lemma_scan_bounds(self.input@, self.pos as int);
        }
        let len = self.input.len();
        while self.pos < len && self.input[self.pos] == ' '
            invariant
                len == self.input@.len(),
                self.input == old(self).input,
                self.tokens == old(self).tokens,
                old(self).pos <= self.pos <= self.input@.len(),
                skip_spaces(self.input@, old(self).pos as int) == skip_spaces(self.input@, self.pos as int),
            decreases self.input@.len() - self.pos,
        {
            self.pos = self.pos + 1;
        }
    }

    /// Reads a string whose opening quote is at the current position, up to the closing
    /// quote or the end; stops on the closing quote.
    fn process_string(&mut self) -> (s: String)
        requires
            old(self).pos < old(self).input@.len(),
        ensures
            final(self).input == old(self).input,
            final(self).tokens == old(self).tokens,
            final(self).pos == string_end(old(self).input@, old(self).pos + 1),
            s@ == old(self).input@.subrange(old(self).pos + 1, final(self).pos as int),
    {
        let len = self.input.len();
        self.pos = self.pos + 1;
        let start_pos = self.pos;
        proof {
            lemma_scan_bounds(self.input@, start_pos as int);
        }
        while self.pos < len && self.input[self.pos] != '"'
            invariant
                len == self.input@.len(),
                self.input == old(self).input,
                self.tokens == old(self).tokens,
                start_pos <= self.pos <= self.input@.len(),
                start_pos == old(self).pos + 1,
                string_end(self.input@, start_pos as int) == string_end(self.input@, self.pos as int),
            decreases self.input@.len() - self.pos,
        {
            self.pos = self.pos + 1;
        }
        string_from_chars(&self.input.as_slice()[start_pos..self.pos])
    }

    /// Reads the digits from the current position.
    fn process_number(&mut self) -> (s: String)
        requires
            old(self).pos < old(self).input@.len(),
        ensures
            final(self).input == old(self).input,
            final(self).tokens == old(self).tokens,
            final(self).pos == digits_end(old(self).input@, old(self).pos as int),
            s@ == old(self).input@.subrange(old(self).pos as int, final(self).pos as int),
    {
        let start_pos = self.pos;
        let len = self.input.len();
        proof {
            lemma_scan_bounds(self.input@, start_pos as int);
        }
        while self.pos < len && self.input[self.pos] >= '0' && self.input[self.pos] <= '9'
            invariant
                len == self.input@.len(),
                self.input == old(self).input,
                self.tokens == old(self).tokens,
                start_pos <= self.pos <= self.input@.len(),
                start_pos == old(self).pos,
                digits_end(self.input@, start_pos as int) == digits_end(self.input@, self.pos as int),
            decreases self.input@.len() - self.pos,
        {
            self.pos = self.pos + 1;
        }
        string_from_chars(&self.input.as_slice()[start_pos..self.pos])
    }

    /// Reads `true`, `false` or `null` at the current position.
    fn process_literal(&mut self) -> (r: Result<Token, LexError>)
        requires
            old(self).pos < old(self).input@.len(),
        ensures
            final(self).input == old(self).input,
            final(self).tokens == old(self).tokens,
            match literal_at(old(self).input@, old(self).pos as int) {
                Some(lit) => r matches Ok(t) && t@ == lit.0 && final(self).pos == lit.1,
                None => r == Err::<Token, LexError>(LexError::InvalidLiteral) && final(self).pos == old(self).pos,
            },
    {
        let _len = self.input.len();
        if word_at_exec(&self.input, self.pos, &['t', 'r', 'u', 'e']) {
            self.pos = self.pos + 4;
            Ok(Token::Bool(true))
        } else if word_at_exec(&self.input, self.pos, &['f', 'a', 'l', 's', 'e']) {
            self.pos = self.pos + 5;
            Ok(Token::Bool(false))
        } else if word_at_exec(&self.input, self.pos, &['n', 'u', 'l', 'l']) {
            self.pos = self.pos + 4;
            Ok(Token::Null)
        } else {
            Err(LexError::InvalidLiteral)
        }
    }

    /// Lexes from the current position to the end of the input, appending the tokens found
    /// to `tokens`; returns all tokens, or the error that stopped lexing (the tokens found
    /// before it stay appended).
    pub fn process_tokens(&mut self) -> (r: Result<Vec<Token>, LexError>)
        requires
            old(self).spec_input().len() < usize::MAX,
        ensures
            final(self).spec_input() == old(self).spec_input(),
            final(self).spec_tokens() == old(self).spec_tokens() + lex_from(old(self).spec_input(), old(self).position()).tokens,
            final(self).position() == lex_from(old(self).spec_input(), old(self).position()).end,
            r is Ok <==> lex_from(old(self).spec_input(), old(self).position()).error is None,
            r matches Ok(ts) ==> tokens_view(ts@) == final(self).spec_tokens(),
            r matches Err(e) ==> lex_from(old(self).spec_input(), old(self).position()).error == Some(e),
    {
        let len = self.input.len();
        let ghost input = self.input@;
        let ghost whole = lex_from(input, self.pos as int);
        let ghost start_tokens = tokens_view(self.tokens@);
        while self.pos < len
            invariant
                len == self.input@.len(),
                len < usize::MAX,
                input == self.input@,
                input == old(self).input@,
                whole == lex_from(old(self).input@, old(self).pos as int),
                start_tokens == tokens_view(old(self).tokens@),
                start_tokens + whole.tokens == tokens_view(self.tokens@) + lex_from(input, self.pos as int).tokens,
                whole.error == lex_from(input, self.pos as int).error,
                whole.end == lex_from(input, self.pos as int).end,
            decreases len + 1 - self.pos,
        {
            let ghost pos0 = self.pos as int;
            let ghost toks0 = tokens_view(self.tokens@);
            self.skip_whitespace();
            let ghost p = self.pos as int;
            proof {
                lemma_scan_bounds(input, pos0);
            }
            if self.pos >= len {
                return Ok(clone_tokens(&self.tokens));
            }
            proof {
                lemma_scan_bounds(input, p);
                lemma_scan_bounds(input, p + 1);
            }
            let c = self.input[self.pos];
            let tok: Token;
            if c == '[' {
                tok = Token::LeftBracket;
                self.pos = self.pos + 1;
            } else if c == ']' {
                tok = Token::RightBracket;
                self.pos = self.pos + 1;
            } else if c == '{' {
                tok = Token::LeftBrace;
                self.pos = self.pos + 1;
            } else if c == '}' {
                tok = Token::RightBrace;
                self.pos = self.pos + 1;
            } else if c == ',' {
                tok = Token::Comma;
                self.pos = self.pos + 1;
            } else if c == ':' {
                tok = Token::Colon;
                self.pos = self.pos + 1;
            } else if c == 'f' || c == 't' || c == 'n' {
                match self.process_literal() {
                    Ok(literal) => {
                        tok = literal;
                    },
                    Err(e) => {
                        return Err(e);
                    },
                }
            } else if c == '"' {
                let string_result = self.process_string();
                tok = Token::String(string_result);
                self.pos = self.pos + 1;
            } else if c >= '0' && c <= '9' {
                let num = self.process_number();
                tok = Token::Number(num);
            } else {
                return Err(LexError::InvalidJson);
            }
            let ghost t = tok@;
            self.tokens.push(tok);
            proof {
                assert(tokens_view(self.tokens@) =~= toks0.push(t));
                assert(lex_from(input, pos0) == prepend(t, lex_from(input, self.pos as int)));
                assert(toks0 + lex_from(input, pos0).tokens =~= tokens_view(self.tokens@) + lex_from(input, self.pos as int).tokens);
            }
        }
        Ok(clone_tokens(&self.tokens))
    }
}

/// Lexing that ends without an error ends at or past the end of the input.
proof fn lemma_lex_end(input: Seq<char>, pos: int)
    requires
        0 <= pos,
        lex_from(input, pos).error is None,
    ensures
        lex_from(input, pos).end >= input.len(),
    decreases input.len() + 1 - pos,
{
    if pos < input.len() {
        lemma_scan_bounds(input, pos);
        let p = skip_spaces(input, pos);
        if p < input.len() {
            lemma_scan_bounds(input, p);
            lemma_scan_bounds(input, p + 1);
            let c = input[p];
            match punctuation(c) {
                Some(t) => lemma_lex_end(input, p + 1),
                None => if c == 't' || c == 'f' || c == 'n' {
                    match literal_at(input, p) {
                        Some(lit) => lemma_lex_end(input, lit.1),
                        None => {},
                    }
                } else if c == '"' {
                    lemma_lex_end(input, string_end(input, p + 1) + 1);
                } else if is_digit(c) {
                    lemma_lex_end(input, digits_end(input, p));
                },
            }
        }
    }
}

/// Lexing again from where an error-free lexing ended finds nothing more and stays there:
/// a second `process_tokens` adds no token and gives back the same tokens.
pub proof fn lemma_lexing_again_adds_nothing(input: Seq<char>, pos: int)
    requires
        lex_from(input, pos).error is None,
    ensures
        lex_from(input, lex_from(input, pos).end).tokens.len() == 0,
        lex_from(input, lex_from(input, pos).end).error is None,
        lex_from(input, lex_from(input, pos).end).end == lex_from(input, pos).end,
{
    if pos >= 0 {
        lemma_lex_end(input, pos);
    }
}

proof fn lemma_string_end_at(input: Seq<char>, pos: int, e: int)
    requires
        0 <= pos <= e <= input.len(),
        forall|k: int| pos <= k < e ==> input[k] != '"',
        e == input.len() || input[e] == '"',
    ensures
        string_end(input, pos) == e,
    decreases e - pos,
{
    if pos < e {
        lemma_string_end_at(input, pos + 1, e);
    }
}

/// A string token holds every character from its opening quote up to the next double
/// quote (or up to the end, where none follows), whatever those characters are; lexing
/// goes on after that closing quote.
pub proof fn lemma_string_token(input: Seq<char>, p: int, e: int)
    requires
        0 <= p < e <= input.len(),
        input[p] == '"',
        forall|k: int| p < k < e ==> input[k] != '"',
        e == input.len() || input[e] == '"',
    ensures
        lex_from(input, p) == prepend(SpecToken::Str(input.subrange(p + 1, e)), lex_from(input, e + 1)),
{
    assert(skip_spaces(input, p) == p);
    lemma_string_end_at(input, p + 1, e);
}

} // verus!
