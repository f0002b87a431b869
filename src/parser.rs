use vstd::prelude::*;

use crate::tokenizer::{token_models, JsonToken, Token};
use crate::value::{members_view, Json, JsonValue};

verus! {

#[derive(Debug, PartialEq)]
pub enum ParseError {
    /// A token that no grammar rule allows where it stands.
    UnexpectedToken(JsonToken),
    /// The tokens ran out before the value was complete.
    UnexpectedEnd,
}

/// The outcome of reading one value from token `i` on: the value and the
/// index just past it, or the offending token (`None` when the tokens ran
/// out).
pub type Parsed = Result<(Json, int), Option<Token>>;

/// One value read from token `i` on.
pub open spec fn parse_value(t: Seq<Token>, i: int) -> Parsed
    decreases t.len() - i, 0int,
{
    if i < 0 || i >= t.len() {
        Err(None)
    } else {
        match t[i] {
            Token::Null => Ok((Json::Null, i + 1)),
            Token::True => Ok((Json::Bool(true), i + 1)),
            Token::False => Ok((Json::Bool(false), i + 1)),
            Token::Number(n) => Ok((Json::Number(n), i + 1)),
            Token::String(s) => Ok((Json::String(s), i + 1)),
            Token::LeftBrace => parse_members(t, i + 1, Seq::empty()),
            Token::LeftBracket => parse_elements(t, i + 1, Seq::empty()),
            other => Err(Some(other)),
        }
    }
}

/// The rest of an array from token `i` on, after the elements `acc`.
pub open spec fn parse_elements(t: Seq<Token>, i: int, acc: Seq<Json>) -> Parsed
    decreases t.len() - i, 1int,
{
    if i < 0 || i >= t.len() {
        Err(None)
    } else if t[i] is RightBracket {
        Ok((Json::Array(acc), i + 1))
    } else {
        match parse_value(t, i) {
            Err(e) => Err(e),
            Ok((v, j)) => {
                // a value always spans at least one token: `j <= i` never holds
                if j <= i || j >= t.len() {
                    Err(None)
                } else if t[j] is Comma {
                    parse_elements(t, j + 1, acc.push(v))
                } else if t[j] is RightBracket {
                    Ok((Json::Array(acc.push(v)), j + 1))
                } else {
                    Err(Some(t[j]))
                }
            },
        }
    }
}

/// The rest of an object from token `i` on, after the pairs `acc`.
pub open spec fn parse_members(t: Seq<Token>, i: int, acc: Seq<(Seq<char>, Json)>) -> Parsed
    decreases t.len() - i, 1int,
{
    if i < 0 || i >= t.len() {
        Err(None)
    } else {
        match t[i] {
            Token::RightBrace => Ok((Json::Object(acc), i + 1)),
            Token::String(key) => {
                if i + 1 >= t.len() {
                    Err(None)
                } else if !(t[i + 1] is Colon) {
                    Err(Some(t[i + 1]))
                } else {
                    match parse_value(t, i + 2) {
                        Err(e) => Err(e),
                        Ok((v, j)) => {
                            // a value always spans at least one token: `j <= i` never holds
                            if j <= i || j >= t.len() {
                                Err(None)
                            } else if t[j] is Comma {
                                parse_members(t, j + 1, acc.push((key, v)))
                            } else if t[j] is RightBrace {
                                Ok((Json::Object(acc.push((key, v))), j + 1))
                            } else {
                                Err(Some(t[j]))
                            }
                        },
                    }
                }
            },
            other => Err(Some(other)),
        }
    }
}

/// A value that is read spans at least one token and ends within the tokens.
pub proof fn lemma_value_span(t: Seq<Token>, i: int)
    ensures
        parse_value(t, i) is Ok ==> i < parse_value(t, i)->Ok_0.1 <= t.len(),
    decreases t.len() - i, 0int,
{
    if 0 <= i < t.len() {
        match t[i] {
            Token::LeftBrace => lemma_members_span(t, i + 1, Seq::empty()),
            Token::LeftBracket => lemma_elements_span(t, i + 1, Seq::empty()),
            _ => {},
        }
    }
}

/// The rest of an array that is read spans at least one token.
pub proof fn lemma_elements_span(t: Seq<Token>, i: int, acc: Seq<Json>)
    ensures
        parse_elements(t, i, acc) is Ok ==> i < parse_elements(t, i, acc)->Ok_0.1 <= t.len(),
    decreases t.len() - i, 1int,
{
    if 0 <= i < t.len() && !(t[i] is RightBracket) {
        lemma_value_span(t, i);
        match parse_value(t, i) {
            Ok((v, j)) => {
                if i < j < t.len() && t[j] is Comma {
                    lemma_elements_span(t, j + 1, acc.push(v));
                }
            },
            Err(_) => {},
        }
    }
}

/// The rest of an object that is read spans at least one token.
pub proof fn lemma_members_span(t: Seq<Token>, i: int, acc: Seq<(Seq<char>, Json)>)
    ensures
        parse_members(t, i, acc) is Ok ==> i < parse_members(t, i, acc)->Ok_0.1 <= t.len(),
    decreases t.len() - i, 1int,
{
    if 0 <= i < t.len() - 1 && t[i] is String && t[i + 1] is Colon {
        lemma_value_span(t, i + 2);
        match parse_value(t, i + 2) {
            Ok((v, j)) => {
                if i < j < t.len() && t[j] is Comma {
                    lemma_members_span(t, j + 1, acc.push((t[i]->String_0, v)));
                }
            },
            Err(_) => {},
        }
    }
}

/// `r` is the executable form of the outcome `m`, positions aside.
pub open spec fn value_agrees(m: Parsed, r: Result<JsonValue, ParseError>) -> bool {
    match m {
        Ok((v, _)) => r is Ok && r->Ok_0@ == v,
        Err(None) => r is Err && r->Err_0 is UnexpectedEnd,
        Err(Some(t)) => r is Err && r->Err_0 is UnexpectedToken && r->Err_0->UnexpectedToken_0@
            == t,
    }
}

/// `r` is the executable form of `m`, and the cursor ends at `pos` on success.
pub open spec fn parse_agrees(m: Parsed, r: Result<JsonValue, ParseError>, pos: int) -> bool {
    &&& value_agrees(m, r)
    &&& m is Ok ==> pos == m->Ok_0.1
}

/// A token with the same model as `t`.
pub fn copy_token(t: &JsonToken) -> (r: JsonToken)
    ensures
        r@ == t@,
{
    match t {
        JsonToken::LeftBrace => JsonToken::LeftBrace,
        JsonToken::RightBrace => JsonToken::RightBrace,
        JsonToken::LeftBracket => JsonToken::LeftBracket,
        JsonToken::RightBracket => JsonToken::RightBracket,
        JsonToken::Colon => JsonToken::Colon,
        JsonToken::Comma => JsonToken::Comma,
        JsonToken::String(s) => JsonToken::String(s.clone()),
        JsonToken::Number(n) => JsonToken::Number(n.clone()),
        JsonToken::True => JsonToken::True,
        JsonToken::False => JsonToken::False,
        JsonToken::Null => JsonToken::Null,
    }
}

/// A cursor over a sequence of tokens.
pub struct JsonParser<'a> {
    tokens: &'a [JsonToken],
    position: usize,
}

impl<'a> JsonParser<'a> {
    /// The models of the tokens being read.
    pub closed spec fn toks(&self) -> Seq<Token> {
        token_models(self.tokens@)
    }

    /// How many tokens have been consumed so far.
    pub closed spec fn pos(&self) -> int {
        self.position as int
    }

    pub closed spec fn wf(&self) -> bool {
        self.position <= self.tokens@.len()
    }

    pub fn new(tokens: &'a [JsonToken]) -> (r: Self)
        ensures
            r.wf(),
            r.toks() == token_models(tokens@),
            r.pos() == 0,
    {
        JsonParser { tokens, position: 0 }
    }

    /// Consumes and returns the next token, or returns `None` without moving
    /// when the tokens are exhausted.
    pub fn next(&mut self) -> (r: Option<&'a JsonToken>)
        requires
            old(self).wf(),
        ensures
            final(self).wf(),
            final(self).toks() == old(self).toks(),
            old(self).pos() < old(self).toks().len() ==> r is Some && r->Some_0@ == old(
                self,
            ).toks()[old(self).pos()] && final(self).pos() == old(self).pos() + 1,
            old(self).pos() >= old(self).toks().len() ==> r is None && final(self).pos()
                == old(self).pos(),
    {
        let tokens: &'a [JsonToken] = self.tokens;
        if self.position < tokens.len() {
            let t = &tokens[self.position];
            self.position = self.position + 1;
            Some(t)
        } else {
            None
        }
    }

    /// Reads one value from the cursor on.
    pub fn parse(&mut self) -> (r: Result<JsonValue, ParseError>)
        requires
            old(self).wf(),
        ensures
            final(self).wf(),
            final(self).toks() == old(self).toks(),
            parse_agrees(parse_value(old(self).toks(), old(self).pos()), r, final(self).pos()),
        decreases old(self).toks().len() - old(self).pos(), 0int,
    {
        match self.next() {
            Some(token) => match token {
                JsonToken::Null => Ok(JsonValue::Null),
                JsonToken::True => Ok(JsonValue::Bool(true)),
                JsonToken::False => Ok(JsonValue::Bool(false)),
                JsonToken::Number(n) => Ok(JsonValue::Number(n.clone())),
                JsonToken::String(s) => Ok(JsonValue::String(s.clone())),
                JsonToken::LeftBrace => self.parse_object(),
                JsonToken::LeftBracket => self.parse_array(),
                _ => Err(ParseError::UnexpectedToken(copy_token(token))),
            },
            None => Err(ParseError::UnexpectedEnd),
        }
    }

    /// Reads the rest of an object whose opening brace was just consumed.
    fn parse_object(&mut self) -> (r: Result<JsonValue, ParseError>)
        requires
            old(self).wf(),
        ensures
            final(self).wf(),
            final(self).toks() == old(self).toks(),
            parse_agrees(
                parse_members(old(self).toks(), old(self).pos(), Seq::empty()),
                r,
                final(self).pos(),
            ),
        decreases old(self).toks().len() - old(self).pos(), 1int,
    {
        let ghost t = self.toks();
        let ghost start = self.pos();
        let mut object: Vec<(String, JsonValue)> = Vec::new();
        let ghost mut acc: Seq<(Seq<char>, Json)> = Seq::empty();
        loop
            invariant
                self.wf(),
                self.toks() == t,
                t == old(self).toks(),
                start == old(self).pos(),
                start <= self.pos(),
                acc == members_view(object@),
                parse_members(t, start, Seq::empty()) == parse_members(t, self.pos(), acc),
            decreases t.len() - self.pos(),
        {
            let ghost here = self.pos();
            match self.next() {
                Some(token) => match token {
                    JsonToken::RightBrace => {
                        return Ok(JsonValue::Object(object));
                    },
                    JsonToken::String(key) => {
                        match self.next() {
                            Some(JsonToken::Colon) => {},
                            Some(other) => {
                                return Err(ParseError::UnexpectedToken(copy_token(other)));
                            },
                            None => {
                                return Err(ParseError::UnexpectedEnd);
                            },
                        }
                        proof {
                            lemma_value_span(t, self.pos());
                        }
                        let value = match self.parse() {
                            Ok(v) => v,
                            Err(e) => {
                                return Err(e);
                            },
                        };
                        let ghost pair = (key@, value@);
                        let ghost before = object@;
                        object.push((key.clone(), value));
                        proof {
                            assert(object@.drop_last() =~= before);
                            acc = acc.push(pair);
                        }
                        match self.next() {
                            Some(JsonToken::Comma) => {},
                            Some(JsonToken::RightBrace) => {
                                assert(acc == members_view(object@));
                                assert(JsonValue::Object(object)@ == Json::Object(acc));
                                return Ok(JsonValue::Object(object));
                            },
                            Some(other) => {
                                return Err(ParseError::UnexpectedToken(copy_token(other)));
                            },
                            None => {
                                return Err(ParseError::UnexpectedEnd);
                            },
                        }
                    },
                    _ => {
                        return Err(ParseError::UnexpectedToken(copy_token(token)));
                    },
                },
                None => {
                    return Err(ParseError::UnexpectedEnd);
                },
            }
        }
    }

    /// Reads the rest of an array whose opening bracket was just consumed.
    fn parse_array(&mut self) -> (r: Result<JsonValue, ParseError>)
        requires
            old(self).wf(),
        ensures
            final(self).wf(),
            final(self).toks() == old(self).toks(),
            parse_agrees(
                parse_elements(old(self).toks(), old(self).pos(), Seq::empty()),
                r,
                final(self).pos(),
            ),
        decreases old(self).toks().len() - old(self).pos(), 1int,
    {
        let ghost t = self.toks();
        let ghost start = self.pos();
        let mut array: Vec<JsonValue> = Vec::new();
        let ghost mut acc: Seq<Json> = Seq::empty();
        loop
            invariant
                self.wf(),
                self.toks() == t,
                t == old(self).toks(),
                start == old(self).pos(),
                start <= self.pos(),
                acc.len() == array@.len(),
                forall|k: int| 0 <= k < acc.len() ==> acc[k] == array@[k]@,
                parse_elements(t, start, Seq::empty()) == parse_elements(t, self.pos(), acc),
            decreases t.len() - self.pos(),
        {
            match self.next() {
                Some(token) => match token {
                    JsonToken::RightBracket => {
                        let r = JsonValue::Array(array);
                        assert(r@ == Json::Array(acc)) by {
                            assert(acc =~= match r@ {
                                Json::Array(p) => p,
                                _ => acc,
                            });
                        }
                        return Ok(r);
                    },
                    _ => {
                        // step back so that the element starts at this token
                        self.position = self.position - 1;
                        proof {
                            lemma_value_span(t, self.pos());
                        }
                        let value = match self.parse() {
                            Ok(v) => v,
                            Err(e) => {
                                return Err(e);
                            },
                        };
                        let ghost v = value@;
                        array.push(value);
                        proof {
                            acc = acc.push(v);
                        }
                        match self.next() {
                            Some(JsonToken::Comma) => {},
                            Some(JsonToken::RightBracket) => {
                                let r = JsonValue::Array(array);
                                assert(r@ == Json::Array(acc)) by {
                                    assert(acc =~= match r@ {
                                        Json::Array(p) => p,
                                        _ => acc,
                                    });
                                }
                                return Ok(r);
                            },
                            Some(other) => {
                                return Err(ParseError::UnexpectedToken(copy_token(other)));
                            },
                            None => {
                                return Err(ParseError::UnexpectedEnd);
                            },
                        }
                    },
                },
                None => {
                    return Err(ParseError::UnexpectedEnd);
                },
            }
        }
    }
}

} // verus!
