use vstd::prelude::*;

verus! {

/// A lexical token as produced by the tokenizer.
///
/// A number keeps the characters of its literal: a digit followed by digits
/// and at most one `.`.
#[derive(Debug, Clone, PartialEq)]
pub enum JsonToken {
    LeftBrace,
    RightBrace,
    LeftBracket,
    RightBracket,
    Colon,
    Comma,
    String(String),
    Number(String),
    True,
    False,
    Null,
}

/// The mathematical value of a token.
pub enum Token {
    LeftBrace,
    RightBrace,
    LeftBracket,
    RightBracket,
    Colon,
    Comma,
    String(Seq<char>),
    Number(Seq<char>),
    True,
    False,
    Null,
}

impl View for JsonToken {
    type V = Token;

    open spec fn view(&self) -> Token {
        match self {
            JsonToken::LeftBrace => Token::LeftBrace,
            JsonToken::RightBrace => Token::RightBrace,
            JsonToken::LeftBracket => Token::LeftBracket,
            JsonToken::RightBracket => Token::RightBracket,
            JsonToken::Colon => Token::Colon,
            JsonToken::Comma => Token::Comma,
            JsonToken::String(s) => Token::String(s@),
            JsonToken::Number(s) => Token::Number(s@),
            JsonToken::True => Token::True,
            JsonToken::False => Token::False,
            JsonToken::Null => Token::Null,
        }
    }
}

/// The models of a sequence of tokens.
pub open spec fn token_models(ts: Seq<JsonToken>) -> Seq<Token> {
    ts.map_values(|t: JsonToken| t@)
}

#[derive(Debug, Clone, PartialEq)]
pub enum TokenizeError {
    /// The offending character and its position.
    UnexpectedCharacter(char, u32),
}

/// What the scan yields at one position of the text.
pub enum Lexed {
    /// The character is not part of any token.
    Skip,
    /// A token, and the position just after it.
    Emit(Token, int),
    /// A lexical error: a character and a position.
    Fail(char, int),
}

pub open spec fn is_digit(c: char) -> bool {
    '0' <= c && c <= '9'
}

pub open spec fn is_number_char(c: char) -> bool {
    is_digit(c) || c == '.'
}

/// Length of the run of digits and dots that starts at `i`.
pub open spec fn number_len(s: Seq<char>, i: int) -> nat
    decreases s.len() - i,
{
    if 0 <= i < s.len() && is_number_char(s[i]) {
        1 + number_len(s, i + 1)
    } else {
        0
    }
}

/// Number of dots in the run of digits and dots that starts at `i`.
pub open spec fn run_dots(s: Seq<char>, i: int) -> nat
    decreases s.len() - i,
{
    if 0 <= i < s.len() && is_number_char(s[i]) {
        (if s[i] == '.' { 1nat } else { 0nat }) + run_dots(s, i + 1)
    } else {
        0
    }
}

/// Number of characters from `i` up to the next `"` or the end of the text.
pub open spec fn quote_dist(s: Seq<char>, i: int) -> nat
    decreases s.len() - i,
{
    if 0 <= i < s.len() && s[i] != '"' {
        1 + quote_dist(s, i + 1)
    } else {
        0
    }
}

/// How many leading characters of `kw` the text matches from `i + t` on.
pub open spec fn matched(s: Seq<char>, i: int, kw: Seq<char>, t: int) -> nat
    decreases kw.len() - t,
{
    if 0 <= t < kw.len() && 0 <= i + t < s.len() && s[i + t] == kw[t] {
        1 + matched(s, i, kw, t + 1)
    } else {
        0
    }
}

pub open spec fn keyword_true() -> Seq<char> {
    seq!['t', 'r', 'u', 'e']
}

pub open spec fn keyword_false() -> Seq<char> {
    seq!['f', 'a', 'l', 's', 'e']
}

pub open spec fn keyword_null() -> Seq<char> {
    seq!['n', 'u', 'l', 'l']
}

/// A number literal that starts at `i`, where `s[i]` is a digit.
pub open spec fn lex_number(s: Seq<char>, i: int) -> Lexed {
    let j = i + number_len(s, i);
    if run_dots(s, i) <= 1 {
        Lexed::Emit(Token::Number(s.subrange(i, j)), j)
    } else {
        Lexed::Fail(if j < s.len() { s[j] } else { '\0' }, j)
    }
}

/// A string literal whose opening quote is at `i`.
pub open spec fn lex_string(s: Seq<char>, i: int) -> Lexed {
    let k = i + 1 + quote_dist(s, i + 1);
    if k < s.len() {
        Lexed::Emit(Token::String(s.subrange(i + 1, k)), k + 1)
    } else {
        Lexed::Fail('"', s.len() as int)
    }
}

/// The keyword `kw` expected at `i`.
pub open spec fn lex_keyword(s: Seq<char>, i: int, kw: Seq<char>, tok: Token) -> Lexed {
    let m = matched(s, i, kw, 0);
    if m == kw.len() {
        Lexed::Emit(tok, i + kw.len())
    } else {
        Lexed::Fail(if i + m < s.len() { s[i + m] } else { '\0' }, i + m + 1)
    }
}

/// What the scan does with the character at `i`.
pub open spec fn lex_at(s: Seq<char>, i: int) -> Lexed {
    let c = s[i];
    if c == '{' {
        Lexed::Emit(Token::LeftBrace, i + 1)
    } else if c == '}' {
        Lexed::Emit(Token::RightBrace, i + 1)
    } else if c == ',' {
        Lexed::Emit(Token::Comma, i + 1)
    } else if c == ':' {
        Lexed::Emit(Token::Colon, i + 1)
    } else if c == '[' {
        Lexed::Emit(Token::LeftBracket, i + 1)
    } else if c == ']' {
        Lexed::Emit(Token::RightBracket, i + 1)
    } else if is_digit(c) {
        lex_number(s, i)
    } else if c == '"' {
        lex_string(s, i)
    } else if c == 't' {
        lex_keyword(s, i, keyword_true(), Token::True)
    } else if c == 'f' {
        lex_keyword(s, i, keyword_false(), Token::False)
    } else if c == 'n' {
        lex_keyword(s, i, keyword_null(), Token::Null)
    } else {
        Lexed::Skip
    }
}

/// Puts `ts` in front of the tokens of a successful scan.
pub open spec fn prepend(ts: Seq<Token>, r: Result<Seq<Token>, (char, int)>) -> Result<
    Seq<Token>,
    (char, int),
> {
    match r {
        Ok(rest) => Ok(ts + rest),
        Err(e) => Err(e),
    }
}

/// The tokens of `s` from position `i` on, or the first lexical error.
pub open spec fn lex_from(s: Seq<char>, i: int) -> Result<Seq<Token>, (char, int)>
    decreases s.len() - i,
{
    if i < 0 || i >= s.len() {
        Ok(Seq::empty())
    } else {
        match lex_at(s, i) {
            Lexed::Skip => lex_from(s, i + 1),
            // a token always ends past `i` and within the text: the other
            // branch is never taken
            Lexed::Emit(t, j) => if i < j <= s.len() {
                prepend(seq![t], lex_from(s, j))
            } else {
                Ok(Seq::empty())
            },
            Lexed::Fail(c, p) => Err((c, p)),
        }
    }
}

/// The tokens of the whole text `s`, or the first lexical error.
pub open spec fn lex(s: Seq<char>) -> Result<Seq<Token>, (char, int)> {
    lex_from(s, 0)
}

/// `r` is what the executable scan returns for the outcome `l`, and the cursor
/// ends at `pos`.
pub open spec fn step_agrees(l: Lexed, r: Result<JsonToken, TokenizeError>, pos: int) -> bool {
    match l {
        Lexed::Emit(t, j) => r is Ok && r->Ok_0@ == t && pos == j,
        Lexed::Fail(c, p) => r is Err && r->Err_0->UnexpectedCharacter_0 == c
            && r->Err_0->UnexpectedCharacter_1 as int == p,
        Lexed::Skip => false,
    }
}

/// The outcome of a whole scan in the form the model gives it.
pub open spec fn tokenize_model(r: Result<Vec<JsonToken>, TokenizeError>) -> Result<
    Seq<Token>,
    (char, int),
> {
    match r {
        Ok(ts) => Ok(token_models(ts@)),
        Err(TokenizeError::UnexpectedCharacter(c, p)) => Err((c, p as int)),
    }
}

/// A cursor over the characters of a text.
pub struct JsonTokenizer<'a> {
    input: &'a str,
    length: usize,
    position: usize,
}

impl<'a> JsonTokenizer<'a> {
    /// The characters being scanned.
    pub closed spec fn text(&self) -> Seq<char> {
        self.input@
    }

    /// How many characters have been consumed so far.
    pub closed spec fn pos(&self) -> int {
        self.position as int
    }

    pub closed spec fn wf(&self) -> bool {
        &&& self.length == self.input@.len()
        &&& self.position <= self.length
    }

    pub fn new(input: &'a str) -> (r: Self)
        ensures
            r.wf(),
            r.text() == input@,
            r.pos() == 0,
    {
        let length = input.unicode_len();
        JsonTokenizer { input, length, position: 0 }
    }

    /// Consumes and returns the next character, or returns `None` without
    /// moving when the text is exhausted.
    pub fn next(&mut self) -> (r: Option<char>)
        requires
            old(self).wf(),
        ensures
            final(self).wf(),
            final(self).text() == old(self).text(),
            old(self).pos() < old(self).text().len() ==> r == Some(old(self).text()[old(self).pos()])
                && final(self).pos() == old(self).pos() + 1,
            old(self).pos() >= old(self).text().len() ==> r is None && final(self).pos()
                == old(self).pos(),
    {
        if self.position < self.length {
            let c = self.input.get_char(self.position);
            self.position = self.position + 1;
            Some(c)
        } else {
            None
        }
    }

    /// Scans the number literal that starts at the cursor.
    fn parse_int(&mut self) -> (r: Result<JsonToken, TokenizeError>)
        requires
            old(self).wf(),
            old(self).text().len() < u32::MAX,
            old(self).pos() < old(self).text().len(),
            is_digit(old(self).text()[old(self).pos()]),
        ensures
            final(self).wf(),
            final(self).text() == old(self).text(),
            step_agrees(lex_number(old(self).text(), old(self).pos()), r, final(self).pos()),
    {
        let ghost s = self.text();
        let start = self.position;
        let mut dots: usize = 0;
        loop
            invariant
                self.wf(),
                self.text() == s,
                s == old(self).text(),
                start == old(self).pos(),
                start <= self.position,
                s.len() < u32::MAX,
                dots <= self.position - start,
                number_len(s, start as int) == (self.position - start) + number_len(
                    s,
                    self.position as int,
                ),
                run_dots(s, start as int) == dots + run_dots(s, self.position as int),
            decreases s.len() - self.position,
        {
            match self.next() {
                Some(ch) => {
                    if !(('0' <= ch && ch <= '9') || ch == '.') {
                        // step back so that the next token starts at `ch`
                        self.position = self.position - 1;
                        if dots <= 1 {
                            let text = self.input.substring_char(start, self.position).to_owned();
                            return Ok(JsonToken::Number(text));
                        } else {
                            return Err(TokenizeError::UnexpectedCharacter(ch, self.position as u32));
                        }
                    }
                    if ch == '.' {
                        dots = dots + 1;
                    }
                },
                None => {
                    if dots <= 1 {
                        let text = self.input.substring_char(start, self.position).to_owned();
                        return Ok(JsonToken::Number(text));
                    } else {
                        return Err(TokenizeError::UnexpectedCharacter('\0', self.position as u32));
                    }
                },
            }
        }
    }

    /// Scans a string literal whose opening quote was just consumed.
    fn parse_string(&mut self) -> (r: Result<JsonToken, TokenizeError>)
        requires
            old(self).wf(),
            old(self).text().len() < u32::MAX,
            0 < old(self).pos() <= old(self).text().len(),
            old(self).text()[old(self).pos() - 1] == '"',
        ensures
            final(self).wf(),
            final(self).text() == old(self).text(),
            step_agrees(lex_string(old(self).text(), old(self).pos() - 1), r, final(self).pos()),
    {
        let ghost s = self.text();
        let start = self.position;
        loop
            invariant
                self.wf(),
                self.text() == s,
                s == old(self).text(),
                start == old(self).pos(),
                start <= self.position,
                s.len() < u32::MAX,
                quote_dist(s, start as int) == (self.position - start) + quote_dist(
                    s,
                    self.position as int,
                ),
            decreases s.len() - self.position,
        {
            match self.next() {
                Some(ch) => {
                    if ch == '"' {
                        let text = self.input.substring_char(start, self.position - 1).to_owned();
                        return Ok(JsonToken::String(text));
                    }
                },
                None => {
                    return Err(TokenizeError::UnexpectedCharacter('"', self.length as u32));
                },
            }
        }
    }

    /// Matches `keyword` from the character that was just consumed on.
    fn parse_keyword(&mut self, keyword: &str, token: JsonToken) -> (r: Result<
        JsonToken,
        TokenizeError,
    >)
        requires
            old(self).wf(),
            old(self).text().len() < u32::MAX,
            0 < old(self).pos() <= old(self).text().len(),
            keyword@.len() > 0,
        ensures
            final(self).wf(),
            final(self).text() == old(self).text(),
            step_agrees(
                lex_keyword(old(self).text(), old(self).pos() - 1, keyword@, token@),
                r,
                final(self).pos(),
            ),
    {
        let ghost s = self.text();
        self.position = self.position - 1;
        let start = self.position;
        let ghost kw = keyword@;
        let n = keyword.unicode_len();
        let mut k: usize = 0;
        while k < n
            invariant
                self.wf(),
                self.text() == s,
                s == old(self).text(),
                start == old(self).pos() - 1,
                kw == keyword@,
                n == kw.len(),
                s.len() < u32::MAX,
                k <= n,
                self.position == start + k,
                matched(s, start as int, kw, 0) == k + matched(s, start as int, kw, k as int),
            decreases n - k,
        {
            let expected = keyword.get_char(k);
            match self.next() {
                Some(ch) => {
                    if ch != expected {
                        return Err(TokenizeError::UnexpectedCharacter(ch, self.position as u32));
                    }
                },
                None => {
                    return Err(
                        TokenizeError::UnexpectedCharacter('\0', (self.position + 1) as u32),
                    );
                },
            }
            k = k + 1;
        }
        Ok(token)
    }

    /// Scans the rest of the text into tokens, stopping at the first lexical
    /// error.
    pub fn tokenize(&mut self) -> (r: Result<Vec<JsonToken>, TokenizeError>)
        requires
            old(self).wf(),
            old(self).text().len() < u32::MAX,
        ensures
            final(self).wf(),
            final(self).text() == old(self).text(),
            tokenize_model(r) == lex_from(old(self).text(), old(self).pos()),
    {
        let ghost s = self.text();
        let ghost p0 = self.pos();
        let mut tokens: Vec<JsonToken> = Vec::new();
        loop
            invariant
                self.wf(),
                self.text() == s,
                s == old(self).text(),
                p0 == old(self).pos(),
                s.len() < u32::MAX,
                0 <= p0 <= s.len(),
                lex_from(s, p0) == prepend(token_models(tokens@), lex_from(s, self.pos())),
            decreases s.len() - self.pos(),
        {
            let ghost before = self.pos();
            let ghost done = token_models(tokens@);
            let next = self.next();
            let ch = match next {
                Some(ch) => ch,
                None => {
                    assert(done + Seq::<Token>::empty() =~= done);
                    return Ok(tokens);
                },
            };
            let step = match ch {
                '{' => Ok(JsonToken::LeftBrace),
                '}' => Ok(JsonToken::RightBrace),
                ',' => Ok(JsonToken::Comma),
                ':' => Ok(JsonToken::Colon),
                '[' => Ok(JsonToken::LeftBracket),
                ']' => Ok(JsonToken::RightBracket),
                '0'..='9' => {
                    // step back to the first digit of the number
                    self.position = self.position - 1;
                    self.parse_int()
                },
                '"' => self.parse_string(),
                't' => {
                    proof {
                        reveal_strlit("true");
                        assert("true"@ =~= keyword_true());
                    }
                    self.parse_keyword("true", JsonToken::True)
                },
                'f' => {
                    proof {
                        reveal_strlit("false");
                        assert("false"@ =~= keyword_false());
                    }
                    self.parse_keyword("false", JsonToken::False)
                },
                'n' => {
                    proof {
                        reveal_strlit("null");
                        assert("null"@ =~= keyword_null());
                    }
                    self.parse_keyword("null", JsonToken::Null)
                },
                _ => {
                    continue;
                },
            };
            match step {
                Ok(token) => {
                    proof {
                        let t = token@;
                        let after = lex_from(s, self.pos());
                        assert(token_models(tokens@.push(token)) =~= done.push(t));
                        match after {
                            Ok(rest) => {
                                assert(done + (seq![t] + rest) =~= done.push(t) + rest);
                            },
                            Err(_) => {},
                        }
                    }
                    tokens.push(token);
                },
                Err(e) => {
                    return Err(e);
                },
            }
        }
    }
}

} // verus!
