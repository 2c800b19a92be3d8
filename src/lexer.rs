//! Lexer: source text to tokens.
use vstd::prelude::*;

verus! {

/// A lexical token. Numbers are exact 64-bit integers.
#[derive(Debug, PartialEq, Eq)]
pub enum Token {
    Symbol(String),
    Number(i64),
    Bool(bool),
    String(String),
    LeftParen,
    RightParen,
}

/// The mathematical model of a token.
pub enum TokenV {
    Symbol(Seq<char>),
    Number(int),
    Bool(bool),
    Str(Seq<char>),
    LeftParen,
    RightParen,
}

#[derive(Debug, PartialEq, Eq)]
pub enum LexError {
    IllegalCharacter(char),
    IllegalNumber(String),
    IllegalHash(String),
    UnterminatedString,
}

pub enum LexErrorV {
    IllegalCharacter(char),
    IllegalNumber(Seq<char>),
    IllegalHash(Seq<char>),
    UnterminatedString,
}

impl View for Token {
    type V = TokenV;

    open spec fn view(&self) -> TokenV {
        match self {
            Token::Symbol(s) => TokenV::Symbol(s@),
            Token::Number(n) => TokenV::Number(*n as int),
            Token::Bool(b) => TokenV::Bool(*b),
            Token::String(s) => TokenV::Str(s@),
            Token::LeftParen => TokenV::LeftParen,
            Token::RightParen => TokenV::RightParen,
        }
    }
}

impl View for LexError {
    type V = LexErrorV;

    open spec fn view(&self) -> LexErrorV {
        match self {
            LexError::IllegalCharacter(c) => LexErrorV::IllegalCharacter(*c),
            LexError::IllegalNumber(s) => LexErrorV::IllegalNumber(s@),
            LexError::IllegalHash(s) => LexErrorV::IllegalHash(s@),
            LexError::UnterminatedString => LexErrorV::UnterminatedString,
        }
    }
}

/// Whether a non-ASCII character is alphanumeric, as std's `char` decides it.
pub uninterp spec fn unicode_alphanumeric(c: char) -> bool;

/// Whether a non-ASCII character is white space, as std's `char` decides it.
pub uninterp spec fn unicode_whitespace(c: char) -> bool;

/// Relies on char::is_alphanumeric: the answer depends on the character alone.
#[verifier::external_body]
fn char_is_alphanumeric(c: char) -> (r: bool)
    ensures
        r == unicode_alphanumeric(c),
{
    c.is_alphanumeric()
}

/// Relies on char::is_whitespace: the answer depends on the character alone.
#[verifier::external_body]
fn char_is_whitespace(c: char) -> (r: bool)
    ensures
        r == unicode_whitespace(c),
{
    c.is_whitespace()
}

/// Relies on String::push: the character is appended.
#[verifier::external_body]
pub(crate) fn push_char(s: &mut String, c: char)
    ensures
        final(s)@ == old(s)@.push(c),
{
    s.push(c)
}

pub open spec fn is_ascii_char(c: char) -> bool {
    (c as u32) < 128
}

pub open spec fn is_digit(c: char) -> bool {
    '0' <= c && c <= '9'
}

pub open spec fn is_ascii_alphanumeric(c: char) -> bool {
    is_digit(c) || ('a' <= c && c <= 'z') || ('A' <= c && c <= 'Z')
}

/// The punctuation that may occur in a symbol.
pub open spec fn is_symbol_punct(c: char) -> bool {
    c == '!' || c == '$' || c == '%' || c == '&' || c == '*' || c == '+' || c == '-' || c == '.'
        || c == '/' || c == ':' || c == '<' || c == '=' || c == '>' || c == '?' || c == '@'
        || c == '^' || c == '_' || c == '~'
}

pub open spec fn symbol_char(c: char) -> bool {
    if is_ascii_char(c) {
        is_ascii_alphanumeric(c) || is_symbol_punct(c)
    } else {
        unicode_alphanumeric(c)
    }
}

pub open spec fn whitespace_char(c: char) -> bool {
    if is_ascii_char(c) {
        c == ' ' || c == '\t' || c == '\n' || c == '\x0B' || c == '\x0C' || c == '\r'
    } else {
        unicode_whitespace(c)
    }
}

pub fn is_symbol_char(ch: char) -> (r: bool)
    ensures
        r == symbol_char(ch),
{
    if (ch as u32) < 128 {
        ('0' <= ch && ch <= '9') || ('a' <= ch && ch <= 'z') || ('A' <= ch && ch <= 'Z') || ch
            == '!' || ch == '$' || ch == '%' || ch == '&' || ch == '*' || ch == '+' || ch == '-'
            || ch == '.' || ch == '/' || ch == ':' || ch == '<' || ch == '=' || ch == '>' || ch
            == '?' || ch == '@' || ch == '^' || ch == '_' || ch == '~'
    } else {
        char_is_alphanumeric(ch)
    }
}

fn is_whitespace_char(ch: char) -> (r: bool)
    ensures
        r == whitespace_char(ch),
{
    if (ch as u32) < 128 {
        ch == ' ' || ch == '\t' || ch == '\n' || ch == '\x0B' || ch == '\x0C' || ch == '\r'
    } else {
        char_is_whitespace(ch)
    }
}

/// Value of a run of decimal digits.
pub open spec fn digits_value(ds: Seq<char>) -> int
    decreases ds.len(),
{
    if ds.len() == 0 {
        0
    } else {
        digits_value(ds.drop_last()) * 10 + (ds.last() as int - '0' as int)
    }
}

pub open spec fn all_digits(ds: Seq<char>) -> bool {
    ds.len() > 0 && forall|k: int| 0 <= k < ds.len() ==> is_digit(#[trigger] ds[k])
}

/// The integer a literal denotes: an optional sign followed by one or more digits.
pub open spec fn literal_value(s: Seq<char>) -> Option<int> {
    if s.len() > 0 && (s[0] == '+' || s[0] == '-') {
        if all_digits(s.drop_first()) {
            if s[0] == '-' {
                Some(-digits_value(s.drop_first()))
            } else {
                Some(digits_value(s.drop_first()))
            }
        } else {
            None
        }
    } else if all_digits(s) {
        Some(digits_value(s))
    } else {
        None
    }
}

pub open spec fn fits_i64(v: int) -> bool {
    i64::MIN <= v <= i64::MAX
}

/// What a maximal run of symbol characters stands for.
pub open spec fn classify(run: Seq<char>) -> Result<TokenV, LexErrorV> {
    match literal_value(run) {
        Some(v) if fits_i64(v) => Ok(TokenV::Number(v)),
        _ => if is_digit(run[0]) {
            Err(LexErrorV::IllegalNumber(run))
        } else {
            Ok(TokenV::Symbol(run))
        },
    }
}

/// End of the maximal run of symbol characters that starts at `i`.
pub open spec fn symbol_run_end(s: Seq<char>, i: int) -> int
    decreases s.len() - i,
{
    if i < 0 || i >= s.len() || !symbol_char(s[i]) {
        i
    } else {
        symbol_run_end(s, i + 1)
    }
}

/// Position of the first unescaped `"` at or after `i`; a backslash escapes the next character.
pub open spec fn string_end(s: Seq<char>, i: int) -> Option<int>
    decreases s.len() + 1 - i,
{
    if i < 0 || i >= s.len() {
        None
    } else if s[i] == '"' {
        Some(i)
    } else if s[i] == '\\' {
        string_end(s, i + 2)
    } else {
        string_end(s, i + 1)
    }
}

pub open spec fn prepend(t: TokenV, r: Result<Seq<TokenV>, LexErrorV>) -> Result<Seq<TokenV>, LexErrorV> {
    match r {
        Ok(ts) => Ok(seq![t] + ts),
        Err(e) => Err(e),
    }
}

pub open spec fn prepend_all(p: Seq<TokenV>, r: Result<Seq<TokenV>, LexErrorV>) -> Result<Seq<TokenV>, LexErrorV> {
    match r {
        Ok(ts) => Ok(p + ts),
        Err(e) => Err(e),
    }
}

/// The tokens of `s` from position `i` on, or the first lexical error there.
pub open spec fn lex_from(s: Seq<char>, i: int) -> Result<Seq<TokenV>, LexErrorV>
    decreases s.len() - i,
{
    if i < 0 || i >= s.len() {
        Ok(seq![])
    } else {
        let c = s[i];
        if c == '(' {
            prepend(TokenV::LeftParen, lex_from(s, i + 1))
        } else if c == ')' {
            prepend(TokenV::RightParen, lex_from(s, i + 1))
        } else if c == '#' {
            if i + 1 < s.len() && s[i + 1] == 't' {
                prepend(TokenV::Bool(true), lex_from(s, i + 2))
            } else if i + 1 < s.len() && s[i + 1] == 'f' {
                prepend(TokenV::Bool(false), lex_from(s, i + 2))
            } else if i + 1 < s.len() {
                Err(LexErrorV::IllegalHash(s.subrange(i, i + 2)))
            } else {
                Err(LexErrorV::IllegalHash(s.subrange(i, i + 1)))
            }
        } else if c == '"' {
            match string_end(s, i + 1) {
                Some(j) => if i < j < s.len() {
                    prepend(TokenV::Str(s.subrange(i + 1, j)), lex_from(s, j + 1))
                } else {
                    Err(LexErrorV::UnterminatedString)
                },
                None => Err(LexErrorV::UnterminatedString),
            }
        } else if symbol_char(c) {
            let j = symbol_run_end(s, i);
            if i < j <= s.len() {
                match classify(s.subrange(i, j)) {
                    Ok(t) => prepend(t, lex_from(s, j)),
                    Err(e) => Err(e),
                }
            } else {
                Err(LexErrorV::IllegalCharacter(c))
            }
        } else if whitespace_char(c) {
            lex_from(s, i + 1)
        } else {
            Err(LexErrorV::IllegalCharacter(c))
        }
    }
}

/// The tokens of a whole text.
pub open spec fn lex(s: Seq<char>) -> Result<Seq<TokenV>, LexErrorV> {
    lex_from(s, 0)
}

pub open spec fn tokens_view(ts: Seq<Token>) -> Seq<TokenV> {
    ts.map_values(|t: Token| t@)
}

pub proof fn lemma_tokens_view(ts: Seq<Token>)
    ensures
        tokens_view(ts).len() == ts.len(),
        forall|k: int| 0 <= k < ts.len() ==> #[trigger] tokens_view(ts)[k] == ts[k]@,
{
}

proof fn lemma_push_token(tv: Seq<TokenV>, ts: Seq<Token>, t: Token, rest: Result<Seq<TokenV>, LexErrorV>)
    requires
        tv == tokens_view(ts),
    ensures
        tokens_view(ts.push(t)) == tv.push(t@),
        prepend_all(tv.push(t@), rest) == prepend_all(tv, prepend(t@, rest)),
{
    assert(tokens_view(ts.push(t)) =~= tv.push(t@));
    match rest {
        Ok(r) => {
            assert(tv.push(t@) + r =~= tv + (seq![t@] + r));
        },
        Err(_) => {},
    }
}

proof fn lemma_digits_nonneg(ds: Seq<char>)
    requires
        forall|k: int| 0 <= k < ds.len() ==> is_digit(#[trigger] ds[k]),
    ensures
        digits_value(ds) >= 0,
    decreases ds.len(),
{
    if ds.len() > 0 {
        lemma_digits_nonneg(ds.drop_last());
    }
}

/// The characters `a..b` of `cs` as a string.
pub(crate) fn string_of_chars(cs: &Vec<char>, a: usize, b: usize) -> (r: String)
    requires
        a <= b <= cs@.len(),
    ensures
        r@ == cs@.subrange(a as int, b as int),
{
    let mut out = String::new();
    let mut k: usize = a;
    while k < b
        invariant
            a <= k <= b <= cs@.len(),
            out@ == cs@.subrange(a as int, k as int),
        decreases b - k,
    {
        push_char(&mut out, cs[k]);
        k = k + 1;
        assert(out@ =~= cs@.subrange(a as int, k as int));
    }
    out
}

/// The characters of a string, in order.
pub(crate) fn chars_of(src: &String) -> (r: Vec<char>)
    ensures
        r@ == src@,
{
    let s = src.as_str();
    let n = s.unicode_len();
    let mut out: Vec<char> = Vec::new();
    let mut k: usize = 0;
    while k < n
        invariant
            n == s@.len(),
            s@ == src@,
            k <= n,
            out@ == src@.subrange(0, k as int),
        decreases n - k,
    {
        out.push(s.get_char(k));
        k = k + 1;
        assert(out@ =~= src@.subrange(0, k as int));
    }
    assert(out@ =~= src@);
    out
}

/// The value of the integer literal `cs[a..b]`, where it denotes one that fits in `i64`.
fn literal_of(cs: &Vec<char>, a: usize, b: usize) -> (r: Option<i64>)
    requires
        a < b <= cs@.len(),
    ensures
        ({
            let run = cs@.subrange(a as int, b as int);
            match r {
                Some(v) => literal_value(run) == Some(v as int),
                None => !(literal_value(run) matches Some(v) && fits_i64(v)),
            }
        }),
{
    let ghost run = cs@.subrange(a as int, b as int);
    let negative = cs[a] == '-';
    let start: usize = if cs[a] == '-' || cs[a] == '+' { a + 1 } else { a };
    let ghost ds = cs@.subrange(start as int, b as int);
    assert(run[0] == cs@[a as int]);
    assert(start > a ==> ds =~= run.drop_first());
    assert(start == a ==> ds =~= run);
    if start == b {
        assert(!all_digits(ds));
        return None;
    }
    let mut k: usize = start;
    while k < b
        invariant
            start <= k <= b <= cs@.len(),
            ds == cs@.subrange(start as int, b as int),
            run == cs@.subrange(a as int, b as int),
            start == a + 1 ==> ds == run.drop_first() && (run[0] == '-' || run[0] == '+'),
            start == a ==> ds == run && !(run[0] == '-' || run[0] == '+'),
            negative == (run[0] == '-'),
            start == a || start == a + 1,
            forall|m: int| start <= m < k ==> is_digit(#[trigger] cs@[m]),
        decreases b - k,
    {
        if !('0' <= cs[k] && cs[k] <= '9') {
            assert(ds[k - start] == cs@[k as int]);
            assert(!all_digits(ds));
            return None;
        }
        k = k + 1;
    }
    assert(all_digits(ds)) by {
        assert forall|m: int| 0 <= m < ds.len() implies is_digit(#[trigger] ds[m]) by {
            assert(ds[m] == cs@[start + m]);
        }
    }
    // Saturate at one past the largest magnitude that can fit.
    let cap: u64 = 0x8000_0000_0000_0001;
    let mut acc: u64 = 0;
    let mut k: usize = start;
    while k < b
        invariant
            start <= k <= b <= cs@.len(),
            ds == cs@.subrange(start as int, b as int),
            run == cs@.subrange(a as int, b as int),
            start == a + 1 ==> ds == run.drop_first() && (run[0] == '-' || run[0] == '+'),
            start == a ==> ds == run && !(run[0] == '-' || run[0] == '+'),
            negative == (run[0] == '-'),
            start == a || start == a + 1,
            all_digits(ds),
            cap == 0x8000_0000_0000_0001,
            acc as int == if digits_value(cs@.subrange(start as int, k as int)) < cap as int {
                digits_value(cs@.subrange(start as int, k as int))
            } else {
                cap as int
            },
        decreases b - k,
    {
        let ghost pre = cs@.subrange(start as int, k as int);
        let ghost next = cs@.subrange(start as int, k + 1);
        assert(next.drop_last() =~= pre);
        assert(cs@[k as int] == ds[k - start]);
        proof {
            lemma_digits_nonneg(pre);
        }
        let d: u64 = (cs[k] as u32 - '0' as u32) as u64;
        assert(next.last() == cs@[k as int]);
        assert(digits_value(next) == digits_value(pre) * 10 + d);
        assert(digits_value(pre) >= acc);
        if acc > cap / 10 {
            assert(digits_value(next) >= cap) by (nonlinear_arith)
                requires
                    digits_value(next) == digits_value(pre) * 10 + d,
                    digits_value(pre) >= acc,
                    acc > cap / 10,
                    cap == 0x8000_0000_0000_0001,
                    d >= 0,
            ;
            acc = cap;
        } else {
            let v = acc * 10 + d;
            acc = if v < cap { v } else { cap };
        }
        k = k + 1;
    }
    assert(cs@.subrange(start as int, b as int) == ds);
    if negative {
        if acc <= 0x8000_0000_0000_0000 {
            let m: i128 = -(acc as i128);
            Some(m as i64)
        } else {
            None
        }
    } else if acc <= 0x7fff_ffff_ffff_ffff {
        Some(acc as i64)
    } else {
        None
    }
}

fn symbol_end(cs: &Vec<char>, i: usize) -> (j: usize)
    requires
        i <= cs@.len(),
    ensures
        j == symbol_run_end(cs@, i as int),
        i <= j <= cs@.len(),
        i < cs@.len() && symbol_char(cs@[i as int]) ==> i < j,
{
    let mut j: usize = i;
    while j < cs.len() && is_symbol_char(cs[j])
        invariant
            i <= j <= cs@.len(),
            symbol_run_end(cs@, j as int) == symbol_run_end(cs@, i as int),
            i < cs@.len() && symbol_char(cs@[i as int]) && j == i ==> j < cs@.len() && symbol_char(cs@[j as int]),
        decreases cs@.len() - j,
    {
        j = j + 1;
    }
    j
}

fn closing_quote(cs: &Vec<char>, i: usize) -> (r: Option<usize>)
    requires
        i <= cs@.len(),
    ensures
        r matches Some(j) ==> string_end(cs@, i as int) == Some(j as int) && i <= j < cs@.len(),
        r is None ==> string_end(cs@, i as int) is None,
{
    let mut j: usize = i;
    while j < cs.len()
        invariant
            i <= j <= cs@.len() + 1,
            string_end(cs@, j as int) == string_end(cs@, i as int),
        decreases cs@.len() + 1 - j,
    {
        if cs[j] == '"' {
            return Some(j);
        } else if cs[j] == '\\' {
            if j + 1 >= cs.len() {
                assert(string_end(cs@, j + 2) is None);
                assert(string_end(cs@, j as int) == string_end(cs@, j + 2));
                return None;
            }
            j = j + 2;
        } else {
            j = j + 1;
        }
    }
    None
}

fn classify_run(cs: &Vec<char>, a: usize, b: usize) -> (r: Result<Token, LexError>)
    requires
        a < b <= cs@.len(),
    ensures
        match r {
            Ok(t) => classify(cs@.subrange(a as int, b as int)) == Ok::<TokenV, LexErrorV>(t@),
            Err(e) => classify(cs@.subrange(a as int, b as int)) == Err::<TokenV, LexErrorV>(e@),
        },
{
    let ghost run = cs@.subrange(a as int, b as int);
    assert(run[0] == cs@[a as int]);
    match literal_of(cs, a, b) {
        Some(v) => Ok(Token::Number(v)),
        None => if '0' <= cs[a] && cs[a] <= '9' {
            Err(LexError::IllegalNumber(string_of_chars(cs, a, b)))
        } else {
            Ok(Token::Symbol(string_of_chars(cs, a, b)))
        },
    }
}

/// Splits a text into tokens; the first lexical error ends the scan.
pub fn tokenize(src: &String) -> (r: Result<Vec<Token>, LexError>)
    ensures
        match r {
            Ok(ts) => lex(src@) == Ok::<Seq<TokenV>, LexErrorV>(tokens_view(ts@)),
            Err(e) => lex(src@) == Err::<Seq<TokenV>, LexErrorV>(e@),
        },
{
    let cs = chars_of(src);
    let ghost s = cs@;
    let mut tokens: Vec<Token> = Vec::new();
    let mut i: usize = 0;
    assert(prepend_all(tokens_view(tokens@), lex_from(s, 0)) == lex_from(s, 0)) by {
        assert(tokens_view(tokens@) =~= seq![]);
        match lex_from(s, 0) {
            Ok(ts) => assert(seq![] + ts =~= ts),
            Err(_) => {},
        }
    }
    while i < cs.len()
        invariant
            s == cs@,
            s == src@,
            i <= s.len(),
            lex(s) == prepend_all(tokens_view(tokens@), lex_from(s, i as int)),
        decreases s.len() - i,
    {
        let c = cs[i];
        let ghost tv = tokens_view(tokens@);
        if c == '(' || c == ')' {
            let t = if c == '(' { Token::LeftParen } else { Token::RightParen };
            proof { lemma_push_token(tv, tokens@, t, lex_from(s, i + 1)); }
            tokens.push(t);
            i = i + 1;
        } else if c == '#' {
            if i + 1 < cs.len() && (cs[i + 1] == 't' || cs[i + 1] == 'f') {
                let t = Token::Bool(cs[i + 1] == 't');
                proof { lemma_push_token(tv, tokens@, t, lex_from(s, i + 2)); }
                tokens.push(t);
                i = i + 2;
            } else {
                let end: usize = if i + 1 < cs.len() { i + 2 } else { i + 1 };
                return Err(LexError::IllegalHash(string_of_chars(&cs, i, end)));
            }
        } else if c == '"' {
            match closing_quote(&cs, i + 1) {
                Some(j) => {
                    let t = Token::String(string_of_chars(&cs, i + 1, j));
                    proof { lemma_push_token(tv, tokens@, t, lex_from(s, j + 1)); }
                    tokens.push(t);
                    i = j + 1;
                },
                None => {
                    return Err(LexError::UnterminatedString);
                },
            }
        } else if is_symbol_char(c) {
            let j = symbol_end(&cs, i);
            match classify_run(&cs, i, j) {
                Ok(t) => {
                    proof { lemma_push_token(tv, tokens@, t, lex_from(s, j as int)); }
                    tokens.push(t);
                    i = j;
                },
                Err(e) => {
                    return Err(e);
                },
            }
        } else if is_whitespace_char(c) {
            i = i + 1;
        } else {
            return Err(LexError::IllegalCharacter(c));
        }
    }
    proof {
        assert(tokens_view(tokens@) + seq![] =~= tokens_view(tokens@));
    }
    Ok(tokens)
}

} // verus!
