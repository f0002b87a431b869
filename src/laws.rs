use vstd::prelude::*;

use crate::parser::{parse_elements, parse_members, parse_value};
use crate::value::Json;
use crate::tokenizer::{
    is_digit, is_number_char, keyword_false, keyword_null, keyword_true, lex, lex_at, lex_from,
    matched, number_len, prepend, quote_dist, run_dots, Lexed, Token,
};

verus! {

/// Every lexical error lies past the position where the scan that reports it
/// started, and at most one past the end of the text: the scan never reports a
/// position behind its cursor.
pub proof fn law_error_position_ahead(s: Seq<char>, i: int)
    requires
        0 <= i <= s.len(),
    ensures
        lex_from(s, i) is Err ==> i < lex_from(s, i)->Err_0.1 <= s.len() + 1,
    decreases s.len() - i,
{
    if i < s.len() {
        lemma_lex_at_fail_position(s, i);
        match lex_at(s, i) {
            Lexed::Skip => law_error_position_ahead(s, i + 1),
            Lexed::Emit(t, j) => {
                if i < j <= s.len() {
                    law_error_position_ahead(s, j);
                }
            },
            Lexed::Fail(_, _) => {},
        }
    }
}

proof fn lemma_number_len_bound(s: Seq<char>, i: int)
    requires
        0 <= i <= s.len(),
    ensures
        i + number_len(s, i) <= s.len(),
    decreases s.len() - i,
{
    if i < s.len() {
        lemma_number_len_bound(s, i + 1);
    }
}

proof fn lemma_matched_bound(s: Seq<char>, i: int, kw: Seq<char>, t: int)
    requires
        0 <= i,
        0 <= t <= kw.len(),
        i + t <= s.len(),
    ensures
        t + matched(s, i, kw, t) <= kw.len(),
        t + matched(s, i, kw, t) < kw.len() ==> i + t + matched(s, i, kw, t) <= s.len(),
    decreases kw.len() - t,
{
    if t < kw.len() && i + t < s.len() && s[i + t] == kw[t] {
        lemma_matched_bound(s, i, kw, t + 1);
    }
}

proof fn lemma_lex_at_fail_position(s: Seq<char>, i: int)
    requires
        0 <= i < s.len(),
    ensures
        lex_at(s, i) is Fail ==> i < lex_at(s, i)->Fail_1 <= s.len() + 1,
{
    lemma_number_len_bound(s, i);
    lemma_matched_bound(s, i, keyword_true(), 0);
    lemma_matched_bound(s, i, keyword_false(), 0);
    lemma_matched_bound(s, i, keyword_null(), 0);
    if is_digit(s[i]) {
        assert(number_len(s, i) >= 1);
    }
}

/// A string that is still open when the text ends is reported at the length of
/// the text, with `"` as the character.
pub proof fn law_unterminated_string(s: Seq<char>, i: int)
    requires
        0 <= i < s.len(),
        s[i] == '"',
        forall|k: int| i < k < s.len() ==> s[k] != '"',
    ensures
        lex_from(s, i) == Err::<Seq<Token>, (char, int)>(('"', s.len() as int)),
{
    lemma_quote_dist_to_end(s, i + 1);
}

proof fn lemma_quote_dist_to_end(s: Seq<char>, k: int)
    requires
        1 <= k <= s.len(),
        forall|m: int| k <= m < s.len() ==> s[m] != '"',
    ensures
        k + quote_dist(s, k) == s.len(),
    decreases s.len() - k,
{
    if k < s.len() {
        lemma_quote_dist_to_end(s, k + 1);
    }
}

/// A run of digits and dots that holds two or more dots is a lexical error,
/// reported at the end of the run: it is never read as a shorter number.
pub proof fn law_malformed_number(s: Seq<char>, i: int)
    requires
        0 <= i < s.len(),
        is_digit(s[i]),
        run_dots(s, i) >= 2,
    ensures
        lex_from(s, i) is Err,
        lex_from(s, i)->Err_0.1 == i + number_len(s, i),
{
}

/// Space, tab or newline.
pub open spec fn is_blank(c: char) -> bool {
    c == ' ' || c == '\t' || c == '\n'
}

/// A non-empty run of blanks.
pub open spec fn blank_run(g: Seq<char>) -> bool {
    g.len() > 0 && forall|k: int| 0 <= k < g.len() ==> is_blank(g[k])
}

/// The text of a number literal: a digit, then digits and at most one dot.
pub open spec fn number_literal(n: Seq<char>) -> bool {
    &&& n.len() > 0
    &&& is_digit(n[0])
    &&& forall|k: int| 0 <= k < n.len() ==> is_number_char(n[k])
    &&& run_dots(n, 0) <= 1
}

/// The contents of a string literal: no unescaped quote.
pub open spec fn string_literal(c: Seq<char>) -> bool {
    forall|k: int| 0 <= k < c.len() ==> c[k] != '"'
}

/// A token that some text lexes to.
pub open spec fn well_formed_token(t: Token) -> bool {
    match t {
        Token::Number(n) => number_literal(n),
        Token::String(c) => string_literal(c),
        _ => true,
    }
}

/// The text that stands for a token.
pub open spec fn token_text(t: Token) -> Seq<char> {
    match t {
        Token::LeftBrace => seq!['{'],
        Token::RightBrace => seq!['}'],
        Token::LeftBracket => seq!['['],
        Token::RightBracket => seq![']'],
        Token::Colon => seq![':'],
        Token::Comma => seq![','],
        Token::String(c) => seq!['"'] + c + seq!['"'],
        Token::Number(n) => n,
        Token::True => keyword_true(),
        Token::False => keyword_false(),
        Token::Null => keyword_null(),
    }
}

/// The tokens `ts` written out, each followed by the run `gaps[k]`.
pub open spec fn spell(ts: Seq<Token>, gaps: Seq<Seq<char>>) -> Seq<char>
    decreases ts.len(),
{
    if ts.len() == 0 || gaps.len() == 0 {
        Seq::empty()
    } else {
        token_text(ts[0]) + gaps[0] + spell(ts.drop_first(), gaps.drop_first())
    }
}

/// Well-formed tokens written out with runs of blanks between them lex back
/// to the same tokens, whatever the runs are.
pub proof fn law_spelled_tokens_lex_back(ts: Seq<Token>, gaps: Seq<Seq<char>>)
    requires
        gaps.len() == ts.len(),
        forall|k: int| 0 <= k < ts.len() ==> well_formed_token(#[trigger] ts[k]),
        forall|k: int| 0 <= k < gaps.len() ==> blank_run(#[trigger] gaps[k]),
    ensures
        lex(spell(ts, gaps)) == Ok::<Seq<Token>, (char, int)>(ts),
{
    let s = spell(ts, gaps);
    assert(s.subrange(0, s.len() as int) =~= s);
    lemma_lex_spelled(s, 0, ts, gaps);
}

/// Inserting other runs of blanks between the tokens of a text changes
/// nothing in what it lexes to.
pub proof fn law_blanks_between_tokens(ts: Seq<Token>, g1: Seq<Seq<char>>, g2: Seq<Seq<char>>)
    requires
        g1.len() == ts.len(),
        g2.len() == ts.len(),
        forall|k: int| 0 <= k < ts.len() ==> well_formed_token(#[trigger] ts[k]),
        forall|k: int| 0 <= k < g1.len() ==> blank_run(#[trigger] g1[k]),
        forall|k: int| 0 <= k < g2.len() ==> blank_run(#[trigger] g2[k]),
    ensures
        lex(spell(ts, g1)) == lex(spell(ts, g2)),
{
    law_spelled_tokens_lex_back(ts, g1);
    law_spelled_tokens_lex_back(ts, g2);
}

proof fn lemma_lex_spelled(s: Seq<char>, p: int, ts: Seq<Token>, gaps: Seq<Seq<char>>)
    requires
        0 <= p <= s.len(),
        s.subrange(p, s.len() as int) == spell(ts, gaps),
        gaps.len() == ts.len(),
        forall|k: int| 0 <= k < ts.len() ==> well_formed_token(#[trigger] ts[k]),
        forall|k: int| 0 <= k < gaps.len() ==> blank_run(#[trigger] gaps[k]),
    ensures
        lex_from(s, p) == Ok::<Seq<Token>, (char, int)>(ts),
    decreases ts.len(),
{
    if ts.len() == 0 {
        assert(ts =~= Seq::<Token>::empty());
    } else {
        let t = ts[0];
        let w = token_text(t);
        let g = gaps[0];
        let rest = spell(ts.drop_first(), gaps.drop_first());
        let q = p + w.len();
        let r = q + g.len();
        assert(well_formed_token(t));
        assert(blank_run(g));
        let whole = s.subrange(p, s.len() as int);
        assert(whole == w + g + rest);
        assert(whole.len() == w.len() + g.len() + rest.len());
        assert forall|k: int| 0 <= k < w.len() implies s[p + k] == w[k] by {
            assert(s.subrange(p, s.len() as int)[k] == (w + g + rest)[k]);
        }
        assert forall|k: int| 0 <= k < g.len() implies s[q + k] == g[k] by {
            assert(s.subrange(p, s.len() as int)[w.len() + k] == (w + g + rest)[w.len() + k]);
        }
        assert(s.subrange(r, s.len() as int) =~= rest) by {
            assert forall|k: int| 0 <= k < rest.len() implies s.subrange(r, s.len() as int)[k]
                == rest[k] by {
                assert(s.subrange(p, s.len() as int)[w.len() + g.len() + k] == (w + g + rest)[w.len()
                    + g.len() + k]);
            }
        }
        assert(s[q + 0] == g[0]);
        assert(is_blank(g[0]));
        lemma_token_at(s, p, t);
        lemma_skip_blanks(s, q, g, 0);
        assert forall|k: int| 0 <= k < ts.drop_first().len() implies well_formed_token(
            #[trigger] ts.drop_first()[k],
        ) by {
            assert(well_formed_token(ts[k + 1]));
        }
        assert forall|k: int| 0 <= k < gaps.drop_first().len() implies blank_run(
            #[trigger] gaps.drop_first()[k],
        ) by {
            assert(blank_run(gaps[k + 1]));
        }
        lemma_lex_spelled(s, r, ts.drop_first(), gaps.drop_first());
        assert(seq![t] + ts.drop_first() =~= ts);
    }
}

/// Blanks from `q + k` to the end of the run `g` are skipped.
proof fn lemma_skip_blanks(s: Seq<char>, q: int, g: Seq<char>, k: int)
    requires
        0 <= q,
        0 <= k <= g.len(),
        q + g.len() <= s.len(),
        forall|m: int| 0 <= m < g.len() ==> s[q + m] == g[m],
        forall|m: int| 0 <= m < g.len() ==> is_blank(g[m]),
    ensures
        lex_from(s, q + k) == lex_from(s, q + g.len()),
    decreases g.len() - k,
{
    if k < g.len() {
        assert(s[q + k] == g[k]);
        assert(is_blank(s[q + k]));
        lemma_skip_blanks(s, q, g, k + 1);
    }
}

/// A well-formed token written at `p`, and followed by a blank, lexes to
/// itself.
proof fn lemma_token_at(s: Seq<char>, p: int, t: Token)
    requires
        0 <= p,
        well_formed_token(t),
        p + token_text(t).len() <= s.len(),
        forall|k: int| 0 <= k < token_text(t).len() ==> s[p + k] == token_text(t)[k],
        p + token_text(t).len() < s.len() ==> is_blank(s[p + token_text(t).len()]),
    ensures
        token_text(t).len() > 0,
        lex_at(s, p) == Lexed::Emit(t, p + token_text(t).len()),
{
    let w = token_text(t);
    match t {
        Token::Number(n) => {
            assert(s[p] == n[0]);
            lemma_number_copy(s, p, n, 0);
            assert(s.subrange(p, p + n.len()) =~= n);
        },
        Token::String(c) => {
            assert(s[p] == w[0]);
            assert forall|k: int| 0 <= k < c.len() implies s[p + 1 + k] == c[k] by {
                assert(s[p + 1 + k] == w[1 + k]);
            }
            assert(s[p + 1 + c.len()] == w[1 + c.len() as int]);
            lemma_quote_copy(s, p + 1, c, 0);
            assert(s.subrange(p + 1, p + 1 + c.len()) =~= c);
        },
        Token::True => {
            assert(s[p] == w[0]);
            lemma_keyword_copy(s, p, w, 0);
        },
        Token::False => {
            assert(s[p] == w[0]);
            lemma_keyword_copy(s, p, w, 0);
        },
        Token::Null => {
            assert(s[p] == w[0]);
            lemma_keyword_copy(s, p, w, 0);
        },
        _ => {
            assert(s[p] == w[0]);
        },
    }
}

proof fn lemma_number_copy(s: Seq<char>, p: int, n: Seq<char>, k: int)
    requires
        0 <= p,
        0 <= k <= n.len(),
        p + n.len() <= s.len(),
        forall|m: int| 0 <= m < n.len() ==> s[p + m] == n[m],
        forall|m: int| 0 <= m < n.len() ==> is_number_char(n[m]),
        p + n.len() < s.len() ==> !is_number_char(s[p + n.len()]),
    ensures
        number_len(s, p + k) == n.len() - k,
        run_dots(s, p + k) == run_dots(n, k),
    decreases n.len() - k,
{
    if k < n.len() {
        assert(s[p + k] == n[k]);
        assert(is_number_char(n[k]));
        lemma_number_copy(s, p, n, k + 1);
    }
}

proof fn lemma_quote_copy(s: Seq<char>, p: int, c: Seq<char>, k: int)
    requires
        0 <= p,
        0 <= k <= c.len(),
        p + c.len() < s.len(),
        forall|m: int| 0 <= m < c.len() ==> s[p + m] == c[m],
        forall|m: int| 0 <= m < c.len() ==> c[m] != '"',
        s[p + c.len()] == '"',
    ensures
        quote_dist(s, p + k) == c.len() - k,
    decreases c.len() - k,
{
    if k < c.len() {
        assert(s[p + k] == c[k]);
        lemma_quote_copy(s, p, c, k + 1);
    }
}

proof fn lemma_keyword_copy(s: Seq<char>, p: int, kw: Seq<char>, k: int)
    requires
        0 <= p,
        0 <= k <= kw.len(),
        p + kw.len() <= s.len(),
        forall|m: int| 0 <= m < kw.len() ==> s[p + m] == kw[m],
    ensures
        matched(s, p, kw, k) == kw.len() - k,
    decreases kw.len() - k,
{
    if k < kw.len() {
        lemma_keyword_copy(s, p, kw, k + 1);
    }
}

/// The tokens that stand for a value: arrays and objects with commas between
/// their entries and none after the last.
pub open spec fn value_tokens(v: Json) -> Seq<Token>
    decreases v, 0int,
{
    match v {
        Json::Null => seq![Token::Null],
        Json::Bool(b) => if b {
            seq![Token::True]
        } else {
            seq![Token::False]
        },
        Json::Number(n) => seq![Token::Number(n)],
        Json::String(c) => seq![Token::String(c)],
        Json::Array(items) => seq![Token::LeftBracket] + items_tokens(items, 0) + seq![
            Token::RightBracket,
        ],
        Json::Object(pairs) => seq![Token::LeftBrace] + pairs_tokens(pairs, 0) + seq![
            Token::RightBrace,
        ],
    }
}

/// The tokens of the elements `items[k..]`, separated by commas.
pub open spec fn items_tokens(items: Seq<Json>, k: int) -> Seq<Token>
    decreases items, items.len() - k,
{
    if k < 0 || k >= items.len() {
        Seq::empty()
    } else if k == items.len() - 1 {
        value_tokens(items[k])
    } else {
        value_tokens(items[k]) + seq![Token::Comma] + items_tokens(items, k + 1)
    }
}

/// The tokens of the pairs `pairs[k..]`, separated by commas.
pub open spec fn pairs_tokens(pairs: Seq<(Seq<char>, Json)>, k: int) -> Seq<Token>
    decreases pairs, pairs.len() - k,
{
    if k < 0 || k >= pairs.len() {
        Seq::empty()
    } else {
        let head = seq![Token::String(pairs[k].0), Token::Colon] + value_tokens(pairs[k].1);
        if k == pairs.len() - 1 {
            head
        } else {
            head + seq![Token::Comma] + pairs_tokens(pairs, k + 1)
        }
    }
}

proof fn lemma_parse_value(t: Seq<Token>, i: int, v: Json)
    requires
        0 <= i,
        i + value_tokens(v).len() <= t.len(),
        forall|k: int| 0 <= k < value_tokens(v).len() ==> t[i + k] == value_tokens(v)[k],
    ensures
        parse_value(t, i) == Ok::<(Json, int), Option<Token>>((v, i + value_tokens(v).len())),
    decreases v, 0int,
{
    let vt = value_tokens(v);
    assert(t[i + 0] == vt[0]);
    match v {
        Json::Array(items) => {
            let it = items_tokens(items, 0);
            assert forall|k: int| 0 <= k < it.len() + 1 implies t[i + 1 + k] == (it + seq![
                Token::RightBracket,
            ])[k] by {
                assert(t[i + (1 + k)] == vt[1 + k]);
            }
            lemma_parse_items(t, i + 1, items, 0, Seq::empty());
            assert(Seq::<Json>::empty() + items.subrange(0, items.len() as int) =~= items);
        },
        Json::Object(pairs) => {
            let pt = pairs_tokens(pairs, 0);
            assert forall|k: int| 0 <= k < pt.len() + 1 implies t[i + 1 + k] == (pt + seq![
                Token::RightBrace,
            ])[k] by {
                assert(t[i + (1 + k)] == vt[1 + k]);
            }
            lemma_parse_pairs(t, i + 1, pairs, 0, Seq::empty());
            assert(Seq::<(Seq<char>, Json)>::empty() + pairs.subrange(0, pairs.len() as int)
                =~= pairs);
        },
        _ => {},
    }
}

/// The first token of a value opens it: it is never a closing or separating
/// token.
proof fn lemma_value_opens(v: Json)
    ensures
        value_tokens(v).len() > 0,
        !(value_tokens(v)[0] is RightBracket),
        !(value_tokens(v)[0] is RightBrace),
{
}

proof fn lemma_parse_items(t: Seq<Token>, i: int, items: Seq<Json>, k: int, acc: Seq<Json>)
    requires
        0 <= i,
        0 <= k <= items.len(),
        i + items_tokens(items, k).len() + 1 <= t.len(),
        forall|m: int|
            0 <= m < items_tokens(items, k).len() + 1 ==> t[i + m] == (items_tokens(items, k)
                + seq![Token::RightBracket])[m],
    ensures
        parse_elements(t, i, acc) == Ok::<(Json, int), Option<Token>>(
            (
                Json::Array(acc + items.subrange(k, items.len() as int)),
                i + items_tokens(items, k).len() + 1,
            ),
        ),
    decreases items, items.len() - k,
{
    let it = items_tokens(items, k);
    if k == items.len() {
        assert(t[i + 0] == (it + seq![Token::RightBracket])[0]);
        assert(acc + items.subrange(k, items.len() as int) =~= acc);
    } else {
        let x = items[k];
        let xt = value_tokens(x);
        lemma_value_opens(x);
        assert(t[i + 0] == (it + seq![Token::RightBracket])[0]);
        assert forall|m: int| 0 <= m < xt.len() implies t[i + m] == xt[m] by {
            assert(t[i + m] == (it + seq![Token::RightBracket])[m]);
        }
        lemma_parse_value(t, i, x);
        let j = i + xt.len();
        assert(t[j] == (it + seq![Token::RightBracket])[xt.len() as int]);
        if k == items.len() - 1 {
            assert(acc.push(x) =~= acc + items.subrange(k, items.len() as int));
        } else {
            let rt = items_tokens(items, k + 1);
            assert forall|m: int| 0 <= m < rt.len() + 1 implies t[j + 1 + m] == (rt + seq![
                Token::RightBracket,
            ])[m] by {
                assert(t[j + 1 + m] == (it + seq![Token::RightBracket])[xt.len() as int + 1 + m]);
            }
            lemma_parse_items(t, j + 1, items, k + 1, acc.push(x));
            assert(acc.push(x) + items.subrange(k + 1, items.len() as int) =~= acc
                + items.subrange(k, items.len() as int));
        }
    }
}

proof fn lemma_parse_pairs(
    t: Seq<Token>,
    i: int,
    pairs: Seq<(Seq<char>, Json)>,
    k: int,
    acc: Seq<(Seq<char>, Json)>,
)
    requires
        0 <= i,
        0 <= k <= pairs.len(),
        i + pairs_tokens(pairs, k).len() + 1 <= t.len(),
        forall|m: int|
            0 <= m < pairs_tokens(pairs, k).len() + 1 ==> t[i + m] == (pairs_tokens(pairs, k)
                + seq![Token::RightBrace])[m],
    ensures
        parse_members(t, i, acc) == Ok::<(Json, int), Option<Token>>(
            (
                Json::Object(acc + pairs.subrange(k, pairs.len() as int)),
                i + pairs_tokens(pairs, k).len() + 1,
            ),
        ),
    decreases pairs, pairs.len() - k,
{
    let pt = pairs_tokens(pairs, k);
    let all = pt + seq![Token::RightBrace];
    if k == pairs.len() {
        assert(t[i + 0] == all[0]);
        assert(acc + pairs.subrange(k, pairs.len() as int) =~= acc);
    } else {
        let (key, x) = pairs[k];
        let xt = value_tokens(x);
        assert(t[i + 0] == all[0]);
        assert(t[i + 1] == all[1]);
        assert forall|m: int| 0 <= m < xt.len() implies t[i + 2 + m] == xt[m] by {
            assert(t[i + (2 + m)] == all[2 + m]);
        }
        lemma_parse_value(t, i + 2, x);
        let j = i + 2 + xt.len();
        assert(t[j] == all[2 + xt.len() as int]);
        if k == pairs.len() - 1 {
            assert(acc.push((key, x)) =~= acc + pairs.subrange(k, pairs.len() as int));
        } else {
            let rt = pairs_tokens(pairs, k + 1);
            assert forall|m: int| 0 <= m < rt.len() + 1 implies t[j + 1 + m] == (rt + seq![
                Token::RightBrace,
            ])[m] by {
                assert(t[j + 1 + m] == all[2 + xt.len() as int + 1 + m]);
            }
            lemma_parse_pairs(t, j + 1, pairs, k + 1, acc.push((key, x)));
            assert(acc.push((key, x)) + pairs.subrange(k + 1, pairs.len() as int) =~= acc
                + pairs.subrange(k, pairs.len() as int));
        }
    }
}

/// A scalar literal alone (`true`, `false`, `null`, a number without exponent,
/// a string without a quote inside) lexes to its one token, which parses to
/// the matching value.
pub proof fn law_scalar_literal(v: Json)
    requires
        !(v is Array),
        !(v is Object),
        well_formed_token(value_tokens(v)[0]),
    ensures
        value_tokens(v).len() == 1,
        lex(token_text(value_tokens(v)[0])) == Ok::<Seq<Token>, (char, int)>(value_tokens(v)),
        parse_value(value_tokens(v), 0) == Ok::<(Json, int), Option<Token>>((v, 1)),
{
    let tok = value_tokens(v)[0];
    let s = token_text(tok);
    lemma_token_at(s, 0, tok);
    assert(lex_from(s, s.len() as int) == Ok::<Seq<Token>, (char, int)>(Seq::empty()));
    assert(lex_from(s, 0) == prepend(seq![tok], lex_from(s, s.len() as int)));
    assert(seq![tok] + Seq::<Token>::empty() =~= value_tokens(v));
    lemma_parse_value(value_tokens(v), 0, v);
}

/// A tree written out as tokens, with any runs of blanks between them, lexes
/// back to those tokens, and the tokens parse back to the same tree, with its
/// pairs and elements in their order.
pub proof fn law_round_trip(v: Json, gaps: Seq<Seq<char>>)
    requires
        forall|k: int|
            0 <= k < value_tokens(v).len() ==> well_formed_token(#[trigger] value_tokens(v)[k]),
        gaps.len() == value_tokens(v).len(),
        forall|k: int| 0 <= k < gaps.len() ==> blank_run(#[trigger] gaps[k]),
    ensures
        lex(spell(value_tokens(v), gaps)) == Ok::<Seq<Token>, (char, int)>(value_tokens(v)),
        parse_value(value_tokens(v), 0) == Ok::<(Json, int), Option<Token>>(
            (v, value_tokens(v).len() as int),
        ),
{
    law_spelled_tokens_lex_back(value_tokens(v), gaps);
    lemma_parse_value(value_tokens(v), 0, v);
}

} // verus!
