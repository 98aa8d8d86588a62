use vstd::prelude::*;
use vstd::string::StrSliceExecFns;
use vstd::string::StringExecFns;
use crate::number::{Number, LiteralError, literal_micros, fits_micros, parse_literal, push_digits, digits_text};

verus! {

/// One lexical unit of source text.
#[derive(Clone, Debug, PartialEq)]
pub enum Token {
    ParenOpen,
    ParenClose,
    Nil,
    Bool(bool),
    Num(Number),
    Str(String),
    Sym(String),
}

/// What a token holds, with its text as a sequence of characters.
pub enum TokenView {
    ParenOpen,
    ParenClose,
    Nil,
    Bool(bool),
    Num(Number),
    Str(Seq<char>),
    Sym(Seq<char>),
}

impl Token {
    pub open spec fn view(self) -> TokenView {
        match self {
            Token::ParenOpen => TokenView::ParenOpen,
            Token::ParenClose => TokenView::ParenClose,
            Token::Nil => TokenView::Nil,
            Token::Bool(b) => TokenView::Bool(b),
            Token::Num(n) => TokenView::Num(n),
            Token::Str(s) => TokenView::Str(s@),
            Token::Sym(s) => TokenView::Sym(s@),
        }
    }
}

pub open spec fn tokens_view(ts: Seq<Token>) -> Seq<TokenView> {
    ts.map_values(|t: Token| t.view())
}

pub open spec fn number_char(c: char) -> bool {
    ('0' <= c && c <= '9') || c == '-' || c == '.'
}

pub open spec fn symbol_char(c: char) -> bool {
    ('0' <= c && c <= '9') || ('a' <= c && c <= 'z') || ('A' <= c && c <= 'Z') || c == '_' || c == '-'
        || c == '+' || c == '*' || c == '/'
}

/// Whether `c` can stand in a numeric literal.
pub fn is_valid_number_char(c: char) -> (r: bool)
    ensures
        r == number_char(c),
{
    (c >= '0' && c <= '9') || c == '-' || c == '.'
}

/// Whether `c` can stand in a symbol.
pub fn is_valid_symbol_char(c: char) -> (r: bool)
    ensures
        r == symbol_char(c),
{
    (c >= '0' && c <= '9') || (c >= 'a' && c <= 'z') || (c >= 'A' && c <= 'Z') || c == '_' || c
        == '-' || c == '+' || c == '*' || c == '/'
}

/// First position at or after `i` that holds no numeric character.
pub open spec fn number_run_end(s: Seq<char>, i: int) -> int
    decreases s.len() - i,
{
    if 0 <= i < s.len() && number_char(s[i]) {
        number_run_end(s, i + 1)
    } else {
        i
    }
}

/// First position at or after `i` that holds no symbol character.
pub open spec fn symbol_run_end(s: Seq<char>, i: int) -> int
    decreases s.len() - i,
{
    if 0 <= i < s.len() && symbol_char(s[i]) {
        symbol_run_end(s, i + 1)
    } else {
        i
    }
}

/// First position at or after `k` of a `"` that no `\` precedes.
pub open spec fn closing_quote(s: Seq<char>, k: int) -> Option<int>
    decreases s.len() - k,
{
    if k < 1 || k >= s.len() {
        None
    } else if s[k] == '"' && s[k - 1] != '\\' {
        Some(k)
    } else {
        closing_quote(s, k + 1)
    }
}

pub open spec fn unterminated_message(i: int) -> Seq<char> {
    "unterminated string literal starting at: "@ + digits_text(i as nat)
}

pub open spec fn malformed_message(text: Seq<char>) -> Seq<char> {
    "malformed number literal: "@ + text
}

pub open spec fn range_message(text: Seq<char>) -> Seq<char> {
    "number literal out of range: "@ + text
}

pub open spec fn prepend(t: TokenView, r: Result<Seq<TokenView>, Seq<char>>) -> Result<Seq<TokenView>, Seq<char>> {
    match r {
        Ok(ts) => Ok(seq![t] + ts),
        Err(e) => Err(e),
    }
}

pub open spec fn prefix_with(p: Seq<TokenView>, r: Result<Seq<TokenView>, Seq<char>>) -> Result<Seq<TokenView>, Seq<char>> {
    match r {
        Ok(ts) => Ok(p + ts),
        Err(e) => Err(e),
    }
}

/// Tokens of `s` from position `i` on, or the message of the first lexing error.
pub open spec fn lex_from(s: Seq<char>, i: int) -> Result<Seq<TokenView>, Seq<char>>
    decreases s.len() - i,
{
    if i < 0 || i >= s.len() {
        Ok(Seq::empty())
    } else {
        let c = s[i];
        if c == '(' || c == '[' {
            prepend(TokenView::ParenOpen, lex_from(s, i + 1))
        } else if c == ')' || c == ']' {
            prepend(TokenView::ParenClose, lex_from(s, i + 1))
        } else if number_char(c) && !(c == '-' && number_run_end(s, i) == i + 1) {
            let e = number_run_end(s, i);
            let j = if i < e <= s.len() { e } else { i + 1 };
            match literal_micros(s.subrange(i, j)) {
                Some(v) => if fits_micros(v) {
                    prepend(TokenView::Num(Number { micros: v as i64 }), lex_from(s, j))
                } else {
                    Err(range_message(s.subrange(i, j)))
                },
                None => Err(malformed_message(s.subrange(i, j))),
            }
        } else if c == '"' {
            match closing_quote(s, i + 1) {
                Some(k) => {
                    let j = if i < k < s.len() { k + 1 } else { s.len() as int };
                    prepend(TokenView::Str(s.subrange(i + 1, j - 1)), lex_from(s, j))
                },
                None => Err(unterminated_message(i)),
            }
        } else if symbol_char(c) {
            let e = symbol_run_end(s, i);
            let j = if i < e <= s.len() { e } else { i + 1 };
            prepend(TokenView::Sym(s.subrange(i, j)), lex_from(s, j))
        } else {
            lex_from(s, i + 1)
        }
    }
}

pub open spec fn lex(s: Seq<char>) -> Result<Seq<TokenView>, Seq<char>> {
    lex_from(s, 0)
}

proof fn lemma_number_run(s: Seq<char>, i: int)
    requires
        0 <= i <= s.len(),
    ensures
        i <= number_run_end(s, i) <= s.len(),
        i < s.len() && number_char(s[i]) ==> i < number_run_end(s, i),
    decreases s.len() - i,
{
    if i < s.len() && number_char(s[i]) {
        lemma_number_run(s, i + 1);
    }
}

proof fn lemma_symbol_run(s: Seq<char>, i: int)
    requires
        0 <= i <= s.len(),
    ensures
        i <= symbol_run_end(s, i) <= s.len(),
        i < s.len() && symbol_char(s[i]) ==> i < symbol_run_end(s, i),
    decreases s.len() - i,
{
    if i < s.len() && symbol_char(s[i]) {
        lemma_symbol_run(s, i + 1);
    }
}

proof fn lemma_closing_quote(s: Seq<char>, k: int)
    requires
        1 <= k,
    ensures
        closing_quote(s, k) matches Some(q) ==> k <= q < s.len(),
    decreases s.len() - k,
{
    if k < s.len() && !(s[k] == '"' && s[k - 1] != '\\') {
        lemma_closing_quote(s, k + 1);
    }
}


proof fn lemma_prefix_prepend(p: Seq<TokenView>, t: TokenView, r: Result<Seq<TokenView>, Seq<char>>)
    ensures
        prefix_with(p, prepend(t, r)) == prefix_with(p.push(t), r),
{
    if let Ok(x) = r {
        assert(p + (seq![t] + x) =~= p.push(t) + x);
    }
}

fn number_end(chars: &Vec<char>, i: usize) -> (j: usize)
    requires
        i <= chars@.len(),
    ensures
        j == number_run_end(chars@, i as int),
{
    let mut j = i;
    while j < chars.len() && is_valid_number_char(chars[j])
        invariant
            i <= j <= chars@.len(),
            number_run_end(chars@, i as int) == number_run_end(chars@, j as int),
        decreases chars@.len() - j,
    {
        j = j + 1;
    }
    j
}

fn symbol_end(chars: &Vec<char>, i: usize) -> (j: usize)
    requires
        i <= chars@.len(),
    ensures
        j == symbol_run_end(chars@, i as int),
{
    let mut j = i;
    while j < chars.len() && is_valid_symbol_char(chars[j])
        invariant
            i <= j <= chars@.len(),
            symbol_run_end(chars@, i as int) == symbol_run_end(chars@, j as int),
        decreases chars@.len() - j,
    {
        j = j + 1;
    }
    j
}

fn find_closing_quote(chars: &Vec<char>, k: usize) -> (r: Option<usize>)
    requires
        1 <= k,
    ensures
        match closing_quote(chars@, k as int) {
            Some(q) => r == Some(q as usize),
            None => r is None,
        },
{
    let mut j = k;
    while j < chars.len()
        invariant
            1 <= k <= j,
            closing_quote(chars@, k as int) == closing_quote(chars@, j as int),
        decreases chars@.len() - j,
    {
        if chars[j] == '"' && chars[j - 1] != '\\' {
            return Some(j);
        }
        j = j + 1;
    }
    None
}

/// Splits source text into tokens. Fails on an unterminated string
/// literal, on numeric-class text that is no numeric literal (`1-2`,
/// `1.2.3`), and on a numeric literal whose magnitude, in millionths, does
/// not fit an `i64` (above about 9.2e12); every other numeric literal
/// becomes a number token, rounded to the nearest millionth.
pub fn tokenize(input: String) -> (r: Result<Vec<Token>, String>)
    ensures
        match lex(input@) {
            Ok(ts) => r matches Ok(v) && tokens_view(v@) == ts,
            Err(m) => r matches Err(e) && e@ == m,
        },
{
    let text = input.as_str();
    let n = text.unicode_len();
    let mut chars: Vec<char> = Vec::new();
    let mut k: usize = 0;
    while k < n
        invariant
            n == text@.len(),
            k <= n,
            chars@ == text@.subrange(0, k as int),
        decreases n - k,
    {
        chars.push(text.get_char(k));
        k = k + 1;
    }
    let ghost s = input@;
    assert(chars@ =~= s);
    let mut tokens: Vec<Token> = Vec::new();
    let mut i: usize = 0;
    assert(tokens_view(tokens@) =~= Seq::<TokenView>::empty());
    assert(prefix_with(Seq::empty(), lex(s)) == lex(s)) by {
        if let Ok(x) = lex(s) {
            assert(Seq::<TokenView>::empty() + x =~= x);
        }
    }
    while i < n
        invariant
            n == s.len(),
            s == input@,
            text@ == s,
            chars@ == s,
            i <= n,
            lex(s) == prefix_with(tokens_view(tokens@), lex_from(s, i as int)),
        decreases n - i,
    {
        let ghost old_view = tokens_view(tokens@);
        let c = chars[i];
        let mut handled = false;
        if c == '(' || c == '[' {
            tokens.push(Token::ParenOpen);
            proof {
                lemma_prefix_prepend(old_view, TokenView::ParenOpen, lex_from(s, i + 1));
                assert(tokens_view(tokens@) =~= old_view.push(TokenView::ParenOpen));
            }
            i = i + 1;
            handled = true;
        } else if c == ')' || c == ']' {
            tokens.push(Token::ParenClose);
            proof {
                lemma_prefix_prepend(old_view, TokenView::ParenClose, lex_from(s, i + 1));
                assert(tokens_view(tokens@) =~= old_view.push(TokenView::ParenClose));
            }
            i = i + 1;
            handled = true;
        } else if is_valid_number_char(c) {
            let j = number_end(&chars, i);
            proof {
                lemma_number_run(s, i as int);
            }
            if !(c == '-' && j == i + 1) {
                match parse_literal(&chars, i, j) {
                    Ok(num) => {
                        let ghost t = Token::Num(num);
                        tokens.push(Token::Num(num));
                        proof {
                            lemma_prefix_prepend(old_view, t.view(), lex_from(s, j as int));
                            assert(tokens_view(tokens@) =~= old_view.push(t.view()));
                        }
                        i = j;
                    },
                    Err(LiteralError::Malformed) => {
                        let mut m = String::from_str("malformed number literal: ");
                        m.append(text.substring_char(i, j));
                        assert(s.subrange(i as int, j as int) == chars@.subrange(i as int, j as int));
                        assert(lex_from(s, i as int) == Err::<Seq<TokenView>, Seq<char>>(m@));
                        return Err(m);
                    },
                    Err(LiteralError::OutOfRange) => {
                        let mut m = String::from_str("number literal out of range: ");
                        m.append(text.substring_char(i, j));
                        assert(s.subrange(i as int, j as int) == chars@.subrange(i as int, j as int));
                        assert(lex_from(s, i as int) == Err::<Seq<TokenView>, Seq<char>>(m@));
                        return Err(m);
                    },
                }
                handled = true;
            }
        }
        if !handled {
            if c == '"' {
                match find_closing_quote(&chars, i + 1) {
                    Some(q) => {
                        proof {
                            lemma_closing_quote(s, i + 1);
                        }
                        let t = Token::Str(String::from_str(text.substring_char(i + 1, q)));
                        let ghost tv = t.view();
                        tokens.push(t);
                        proof {
                            lemma_prefix_prepend(old_view, tv, lex_from(s, q + 1));
                            assert(tokens_view(tokens@) =~= old_view.push(tv));
                        }
                        i = q + 1;
                    },
                    None => {
                        let mut m = String::from_str("unterminated string literal starting at: ");
                        push_digits(&mut m, i as u64);
                        assert(lex_from(s, i as int) == Err::<Seq<TokenView>, Seq<char>>(m@));
                        return Err(m);
                    },
                }
            } else if is_valid_symbol_char(c) {
                let j = symbol_end(&chars, i);
                proof {
                    lemma_symbol_run(s, i as int);
                }
                let t = Token::Sym(String::from_str(text.substring_char(i, j)));
                let ghost tv = t.view();
                tokens.push(t);
                proof {
                    lemma_prefix_prepend(old_view, tv, lex_from(s, j as int));
                    assert(tokens_view(tokens@) =~= old_view.push(tv));
                }
                i = j;
            } else {
                i = i + 1;
            }
        }
    }
    assert(tokens_view(tokens@) + Seq::<TokenView>::empty() =~= tokens_view(tokens@));
    Ok(tokens)
}

/// Text that names a token and what it holds (`symbol[+]`).
pub fn format_token(t: &Token) -> (r: String)
    ensures
        r@ == token_text(t.view()),
{
    match t {
        Token::ParenOpen => String::from_str("paren_open"),
        Token::ParenClose => String::from_str("paren_close"),
        Token::Nil => String::from_str("nil"),
        Token::Bool(b) => {
            let mut r = String::from_str("bool[");
            if *b {
                r.append("true");
            } else {
                r.append("false");
            }
            r.append("]");
            r
        },
        Token::Num(v) => {
            let mut r = String::from_str("number[");
            let x = v.to_text();
            r.append(x.as_str());
            r.append("]");
            r
        },
        Token::Str(v) => {
            let mut r = String::from_str("string[\"");
            r.append(v.as_str());
            r.append("\"]");
            r
        },
        Token::Sym(v) => {
            let mut r = String::from_str("symbol[");
            r.append(v.as_str());
            r.append("]");
            r
        },
    }
}

pub open spec fn bool_text(b: bool) -> Seq<char> {
    if b { "true"@ } else { "false"@ }
}

pub open spec fn token_text(t: TokenView) -> Seq<char> {
    match t {
        TokenView::ParenOpen => "paren_open"@,
        TokenView::ParenClose => "paren_close"@,
        TokenView::Nil => "nil"@,
        TokenView::Bool(b) => "bool["@ + bool_text(b) + "]"@,
        TokenView::Num(n) => "number["@ + crate::number::number_text(n.micros as int) + "]"@,
        TokenView::Str(v) => "string[\""@ + v + "\"]"@,
        TokenView::Sym(v) => "symbol["@ + v + "]"@,
    }
}

} // verus!
