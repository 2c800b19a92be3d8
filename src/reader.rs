//! Reader: tokens to s-expressions.
use vstd::prelude::*;
use crate::cursor::ClingyIter;
use crate::lexer::{Token, TokenV, tokens_view, push_char, lemma_tokens_view};

verus! {

/// A syntax node. The empty list is nil.
#[derive(Debug, PartialEq, Eq)]
pub enum Sexp {
    List(Vec<Sexp>),
    Symbol(String),
    String(String),
    Integer(i64),
    Bool(bool),
}

/// The mathematical model of a syntax node.
pub enum Form {
    List(Seq<Form>),
    Symbol(Seq<char>),
    Str(Seq<char>),
    Integer(int),
    Bool(bool),
}

#[derive(Debug, Clone, Copy, PartialEq, Eq, Structural)]
pub enum ParseError {
    UnexpectedCloseParen,
    UnterminatedList,
    NoTokens,
    InvalidEscape(char),
    DanglingEscape,
}

pub open spec fn form_of(s: Sexp) -> Form
    decreases s, 0nat,
{
    match s {
        Sexp::List(v) => Form::List(forms_of(v@)),
        Sexp::Symbol(n) => Form::Symbol(n@),
        Sexp::String(t) => Form::Str(t@),
        Sexp::Integer(i) => Form::Integer(i as int),
        Sexp::Bool(b) => Form::Bool(b),
    }
}

pub open spec fn forms_of(s: Seq<Sexp>) -> Seq<Form>
    decreases s, 1nat,
{
    if s.len() == 0 {
        seq![]
    } else {
        forms_of(s.drop_last()).push(form_of(s.last()))
    }
}

pub proof fn lemma_forms_of_push(s: Seq<Sexp>, x: Sexp)
    ensures
        forms_of(s.push(x)) == forms_of(s).push(form_of(x)),
{
    assert(s.push(x).drop_last() =~= s);
}

pub proof fn lemma_forms_of_index(s: Seq<Sexp>)
    ensures
        forms_of(s).len() == s.len(),
        forall|k: int| 0 <= k < s.len() ==> #[trigger] forms_of(s)[k] == form_of(s[k]),
    decreases s.len(),
{
    if s.len() > 0 {
        lemma_forms_of_index(s.drop_last());
    }
}

/// What an escape sequence `\c` stands for.
pub open spec fn escaped(c: char) -> Option<char> {
    if c == '\\' {
        Some('\\')
    } else if c == 'n' {
        Some('\n')
    } else if c == 't' {
        Some('\t')
    } else if c == '"' {
        Some('"')
    } else if c == 'r' {
        Some('\r')
    } else {
        None
    }
}

pub open spec fn prefix_chars(p: Seq<char>, r: Result<Seq<char>, ParseError>) -> Result<Seq<char>, ParseError> {
    match r {
        Ok(t) => Ok(p + t),
        Err(e) => Err(e),
    }
}

/// The raw contents of a string literal from position `i` on, with escapes resolved.
pub open spec fn unescape_from(s: Seq<char>, i: int) -> Result<Seq<char>, ParseError>
    decreases s.len() - i,
{
    if i < 0 || i >= s.len() {
        Ok(seq![])
    } else if s[i] == '\\' {
        if i + 1 >= s.len() {
            Err(ParseError::DanglingEscape)
        } else {
            match escaped(s[i + 1]) {
                Some(c) => prefix_chars(seq![c], unescape_from(s, i + 2)),
                None => Err(ParseError::InvalidEscape(s[i + 1])),
            }
        }
    } else {
        prefix_chars(seq![s[i]], unescape_from(s, i + 1))
    }
}

pub open spec fn unescape(s: Seq<char>) -> Result<Seq<char>, ParseError> {
    unescape_from(s, 0)
}

/// Reads one form at position `i`: the result and the position after it.
pub open spec fn read_at(ts: Seq<TokenV>, i: int) -> (Result<Form, ParseError>, int)
    decreases ts.len() - i, 0nat,
{
    if i < 0 || i >= ts.len() {
        (Err(ParseError::NoTokens), i)
    } else {
        match ts[i] {
            TokenV::Symbol(s) => (Ok(Form::Symbol(s)), i + 1),
            TokenV::Number(n) => (Ok(Form::Integer(n)), i + 1),
            TokenV::Bool(b) => (Ok(Form::Bool(b)), i + 1),
            TokenV::Str(s) => match unescape(s) {
                Ok(u) => (Ok(Form::Str(u)), i + 1),
                Err(e) => (Err(e), i + 1),
            },
            TokenV::RightParen => (Err(ParseError::UnexpectedCloseParen), i),
            TokenV::LeftParen => {
                let (r, j) = read_items(ts, i + 1);
                match r {
                    Ok(items) => (Ok(Form::List(items)), j),
                    Err(e) => (Err(e), j),
                }
            },
        }
    }
}

/// Reads the elements of a list up to and including its `)`.
pub open spec fn read_items(ts: Seq<TokenV>, i: int) -> (Result<Seq<Form>, ParseError>, int)
    decreases ts.len() - i, 1nat,
{
    if i < 0 || i >= ts.len() {
        (Err(ParseError::UnterminatedList), i)
    } else if ts[i] is RightParen {
        (Ok(seq![]), i + 1)
    } else {
        let (r, j) = read_at(ts, i);
        match r {
            Err(e) => (Err(e), j),
            Ok(f) => if i < j <= ts.len() {
                let (rest, k) = read_items(ts, j);
                match rest {
                    Ok(fs) => (Ok(seq![f] + fs), k),
                    Err(e) => (Err(e), k),
                }
            } else {
                (Err(ParseError::UnterminatedList), j)
            },
        }
    }
}

/// A successful read moves past at least one token and stays within the tokens.
pub proof fn lemma_read_advances(ts: Seq<TokenV>, i: int)
    requires
        0 <= i,
    ensures
        read_at(ts, i).0 is Ok ==> i < read_at(ts, i).1 <= ts.len(),
        read_items(ts, i).0 is Ok ==> i < read_items(ts, i).1 <= ts.len(),
    decreases ts.len() - i,
{
    if i < ts.len() {
        if ts[i] is LeftParen {
            lemma_read_advances(ts, i + 1);
        }
        if !(ts[i] is RightParen) {
            lemma_read_advances_at(ts, i);
            let j = read_at(ts, i).1;
            if read_at(ts, i).0 is Ok && i < j <= ts.len() {
                lemma_read_advances(ts, j);
            }
        }
    }
}

proof fn lemma_read_advances_at(ts: Seq<TokenV>, i: int)
    requires
        0 <= i,
    ensures
        read_at(ts, i).0 is Ok ==> i < read_at(ts, i).1 <= ts.len(),
    decreases ts.len() - i, 0nat,
{
    if i < ts.len() && ts[i] is LeftParen {
        lemma_read_advances(ts, i + 1);
    }
}

/// Resolves the escape sequences in the raw contents of a string literal.
pub fn parse_str_contents(s: &String) -> (r: Result<String, ParseError>)
    ensures
        match r {
            Ok(t) => unescape(s@) == Ok::<Seq<char>, ParseError>(t@),
            Err(e) => unescape(s@) == Err::<Seq<char>, ParseError>(e),
        },
{
    let cs = crate::lexer::chars_of(s);
    let ghost src = cs@;
    let mut out = String::new();
    let mut i: usize = 0;
    assert(prefix_chars(out@, unescape_from(src, 0)) == unescape_from(src, 0)) by {
        match unescape_from(src, 0) {
            Ok(t) => assert(out@ + t =~= t),
            Err(_) => {},
        }
    }
    while i < cs.len()
        invariant
            src == cs@,
            src == s@,
            i <= src.len(),
            unescape(src) == prefix_chars(out@, unescape_from(src, i as int)),
        decreases src.len() - i,
    {
        let ghost before = out@;
        let c = cs[i];
        if c == '\\' {
            if i + 1 >= cs.len() {
                return Err(ParseError::DanglingEscape);
            }
            let e = cs[i + 1];
            let u = if e == '\\' {
                '\\'
            } else if e == 'n' {
                '\n'
            } else if e == 't' {
                '\t'
            } else if e == '"' {
                '"'
            } else if e == 'r' {
                '\r'
            } else {
                return Err(ParseError::InvalidEscape(e));
            };
            push_char(&mut out, u);
            i = i + 2;
            proof {
                match unescape_from(src, i as int) {
                    Ok(t) => assert(before + (seq![u] + t) =~= out@ + t),
                    Err(_) => {},
                }
            }
        } else {
            push_char(&mut out, c);
            i = i + 1;
            proof {
                match unescape_from(src, i as int) {
                    Ok(t) => assert(before + (seq![c] + t) =~= out@ + t),
                    Err(_) => {},
                }
            }
        }
    }
    assert(out@ + seq![] =~= out@);
    Ok(out)
}

pub open spec fn prefix_forms(p: Seq<Form>, r: (Result<Seq<Form>, ParseError>, int)) -> (Result<Seq<Form>, ParseError>, int) {
    match r.0 {
        Ok(fs) => (Ok(p + fs), r.1),
        Err(e) => (Err(e), r.1),
    }
}

/// Whether `r` is the outcome that the model `m` describes.
pub open spec fn read_matches(r: Result<Sexp, ParseError>, m: Result<Form, ParseError>) -> bool {
    match r {
        Ok(s) => m == Ok::<Form, ParseError>(form_of(s)),
        Err(e) => m == Err::<Form, ParseError>(e),
    }
}

/// Reads one form from the cursor, leaving it just past the form.
pub fn read_sexp(citer: &mut ClingyIter<Token>) -> (r: Result<Sexp, ParseError>)
    requires
        old(citer).wf(),
    ensures
        final(citer).wf(),
        final(citer).items() == old(citer).items(),
        final(citer).pos() as int == read_at(tokens_view(old(citer).items()), old(citer).pos() as int).1,
        read_matches(r, read_at(tokens_view(old(citer).items()), old(citer).pos() as int).0),
    decreases old(citer).items().len() - old(citer).pos(),
{
    let ghost ts = tokens_view(citer.items());
    let ghost start = citer.pos() as int;
    proof {
        lemma_tokens_view(citer.items());
    }
    let mut symbol: Option<String> = None;
    let mut raw: Option<String> = None;
    let mut atom: Option<Sexp> = None;
    match citer.value() {
        None => {
            return Err(ParseError::NoTokens);
        },
        Some(t) => {
            assert(ts[start] == citer.items()[start]@);
            match t {
                Token::Symbol(s) => {
                    symbol = Some(s.clone());
                },
                Token::Number(n) => {
                    atom = Some(Sexp::Integer(*n));
                },
                Token::Bool(b) => {
                    atom = Some(Sexp::Bool(*b));
                },
                Token::String(s) => {
                    raw = Some(s.clone());
                },
                Token::RightParen => {
                    return Err(ParseError::UnexpectedCloseParen);
                },
                Token::LeftParen => {},
            }
        },
    }
    citer.advance();
    if let Some(s) = symbol {
        return Ok(Sexp::Symbol(s));
    }
    if let Some(a) = atom {
        return Ok(a);
    }
    if let Some(s) = raw {
        return match parse_str_contents(&s) {
            Ok(u) => Ok(Sexp::String(u)),
            Err(e) => Err(e),
        };
    }
    let mut contents: Vec<Sexp> = Vec::new();
    assert(prefix_forms(forms_of(contents@), read_items(ts, start + 1)) == read_items(ts, start + 1)) by {
        assert(forms_of(contents@) =~= seq![]);
        match read_items(ts, start + 1).0 {
            Ok(fs) => assert(seq![] + fs =~= fs),
            Err(_) => {},
        }
    }
    loop
        invariant
            citer.wf(),
            citer.items() == old(citer).items(),
            ts == tokens_view(citer.items()),
            ts.len() == citer.items().len(),
            forall|k: int| 0 <= k < ts.len() ==> #[trigger] ts[k] == citer.items()[k]@,
            start < citer.pos(),
            start == old(citer).pos(),
            ts[start] is LeftParen,
            0 <= start < ts.len(),
            read_items(ts, start + 1) == prefix_forms(forms_of(contents@), read_items(ts, citer.pos() as int)),
        decreases ts.len() - citer.pos() as int,
    {
        let mut close = false;
        let mut done = false;
        match citer.value() {
            None => {
                done = true;
            },
            Some(t) => {
                assert(ts[citer.pos() as int] == citer.items()[citer.pos() as int]@);
                if let Token::RightParen = t {
                    close = true;
                }
            },
        }
        if done {
            assert(read_items(ts, citer.pos() as int).0 == Err::<Seq<Form>, ParseError>(ParseError::UnterminatedList));
            assert(read_items(ts, start + 1).0 == Err::<Seq<Form>, ParseError>(ParseError::UnterminatedList));
            assert(read_at(ts, start).1 == read_items(ts, start + 1).1);
            return Err(ParseError::UnterminatedList);
        }
        if close {
            citer.advance();
            proof {
                assert(forms_of(contents@) + seq![] =~= forms_of(contents@));
            }
            return Ok(Sexp::List(contents));
        }
        let ghost cur = citer.pos() as int;
        proof {
            lemma_read_advances_at(ts, cur);
        }
        match read_sexp(citer) {
            Ok(x) => {
                proof {
                    lemma_forms_of_push(contents@, x);
                    match read_items(ts, citer.pos() as int).0 {
                        Ok(fs) => assert(forms_of(contents@) + (seq![form_of(x)] + fs) =~= forms_of(contents@).push(form_of(x)) + fs),
                        Err(_) => {},
                    }
                }
                contents.push(x);
            },
            Err(e) => {
                return Err(e);
            },
        }
    }
}

} // verus!
