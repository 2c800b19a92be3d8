//! Rendering a syntax node back to text and reading that text gives the node again.
use vstd::prelude::*;
use crate::lexer::{
    LexErrorV, TokenV, all_digits, classify, digits_value, fits_i64, is_digit, lex, lex_from,
    literal_value, prepend, prepend_all, string_end, symbol_char, symbol_run_end,
};
use crate::reader::{Form, ParseError, lemma_read_advances, read_at, read_items, unescape_from};
use crate::eval::{quote_form, quote_forms, lemma_quote_forms_index};
use crate::render::{digit_char, digits_text, escape_char, escape_text, int_text, items_text, value_text};

verus! {

/// A node the reader can give back from its own rendering: symbols are runs of symbol
/// characters that do not read as numbers, and numbers fit in a machine integer.
pub open spec fn readable(f: Form) -> bool
    decreases f, 0nat,
{
    match f {
        Form::List(items) => readable_all(items),
        Form::Symbol(s) => s.len() > 0 && (forall|k: int| 0 <= k < s.len() ==> symbol_char(#[trigger] s[k]))
            && classify(s) == Ok::<TokenV, crate::lexer::LexErrorV>(TokenV::Symbol(s)),
        Form::Integer(n) => fits_i64(n),
        Form::Bool(_) => true,
        Form::Str(_) => true,
    }
}

pub open spec fn readable_all(items: Seq<Form>) -> bool
    decreases items, 1nat,
{
    if items.len() == 0 {
        true
    } else {
        readable_all(items.drop_last()) && readable(items.last())
    }
}

/// The tokens that stand for a node.
pub open spec fn form_tokens(f: Form) -> Seq<TokenV>
    decreases f, 0nat,
{
    match f {
        Form::List(items) => seq![TokenV::LeftParen] + items_tokens(items) + seq![TokenV::RightParen],
        Form::Symbol(s) => seq![TokenV::Symbol(s)],
        Form::Integer(n) => seq![TokenV::Number(n)],
        Form::Bool(b) => seq![TokenV::Bool(b)],
        Form::Str(s) => seq![TokenV::Str(escape_text(s))],
    }
}

pub open spec fn items_tokens(items: Seq<Form>) -> Seq<TokenV>
    decreases items, 1nat,
{
    if items.len() == 0 {
        seq![]
    } else {
        items_tokens(items.drop_last()) + form_tokens(items.last())
    }
}

proof fn lemma_readable_all(items: Seq<Form>)
    ensures
        readable_all(items) <==> forall|k: int| 0 <= k < items.len() ==> readable(#[trigger] items[k]),
    decreases items.len(),
{
    if items.len() > 0 {
        lemma_readable_all(items.drop_last());
        let d = items.drop_last();
        if forall|k: int| 0 <= k < items.len() ==> readable(#[trigger] items[k]) {
            assert forall|k: int| 0 <= k < d.len() implies readable(#[trigger] d[k]) by {
                assert(d[k] == items[k]);
                assert(readable(items[k]));
            }
            assert(readable(items[items.len() - 1]));
        }
        if readable_all(items) {
            assert forall|k: int| 0 <= k < items.len() implies readable(#[trigger] items[k]) by {
                if k < d.len() {
                    assert(d[k] == items[k]);
                    assert(readable(d[k]));
                }
            }
        }
    }
}

proof fn lemma_items_tokens_take(items: Seq<Form>, k: int)
    requires
        0 <= k < items.len(),
    ensures
        items_tokens(items.take(k + 1)) == items_tokens(items.take(k)) + form_tokens(items[k]),
{
    assert(items.take(k + 1).drop_last() =~= items.take(k));
}

proof fn lemma_form_tokens_nonempty(f: Form)
    ensures
        form_tokens(f).len() >= 1,
{
}

/// Token positions: the part of `ts` from `i` on that spells `a + b`.
proof fn lemma_split(ts: Seq<TokenV>, i: int, a: Seq<TokenV>, b: Seq<TokenV>)
    requires
        0 <= i,
        i + a.len() + b.len() <= ts.len(),
        ts.subrange(i, i + a.len() + b.len()) == a + b,
    ensures
        ts.subrange(i, i + a.len()) == a,
        ts.subrange(i + a.len(), i + a.len() + b.len()) == b,
{
    let whole = ts.subrange(i, i + a.len() + b.len());
    assert forall|k: int| 0 <= k < a.len() implies ts[i + k] == a[k] by {
        assert(whole[k] == ts[i + k]);
        assert(whole[k] == (a + b)[k]);
    }
    assert forall|k: int| 0 <= k < b.len() implies ts[i + a.len() + k] == b[k] by {
        assert(whole[a.len() + k] == ts[i + a.len() + k]);
        assert(whole[a.len() + k] == (a + b)[a.len() + k]);
    }
    assert(ts.subrange(i, i + a.len()) =~= a);
    assert(ts.subrange(i + a.len(), i + a.len() + b.len()) =~= b);
}

/// Reading the tokens of a readable node at position `i` gives the node and the position after it.
pub proof fn lemma_read_form(ts: Seq<TokenV>, i: int, f: Form)
    requires
        readable(f),
        0 <= i,
        i + form_tokens(f).len() <= ts.len(),
        ts.subrange(i, i + form_tokens(f).len()) == form_tokens(f),
    ensures
        read_at(ts, i) == (Ok::<Form, ParseError>(f), i + form_tokens(f).len()),
    decreases f, 0int,
{
    assert(ts[i] == ts.subrange(i, i + form_tokens(f).len())[0]);
    match f {
        Form::List(items) => {
            let body = items_tokens(items);
            lemma_split(ts, i, seq![TokenV::LeftParen] + body, seq![TokenV::RightParen]);
            lemma_split(ts, i, seq![TokenV::LeftParen], body);
            let close = i + 1 + body.len();
            assert(ts.subrange(close, close + 1)[0] == ts[close]);
            lemma_readable_all(items);
            assert(items.take(0) =~= seq![]);
            assert(items.skip(0) =~= items);
            lemma_read_items(ts, i + 1, items, 0);
        },
        Form::Str(text) => {
            let e = escape_text(text);
            assert(e.subrange(0, e.len() as int) =~= e);
            lemma_unescape_escaped(e, 0, text);
        },
        _ => {},
    }
}

proof fn lemma_escape_text_cons(c: char, rest: Seq<char>)
    ensures
        escape_text(seq![c] + rest) == escape_char(c) + escape_text(rest),
    decreases rest.len(),
{
    if rest.len() == 0 {
        assert(seq![c] + rest =~= seq![c]);
        assert(seq![c].drop_last() =~= seq![]);
        assert(seq![c].last() == c);
        assert(escape_text(Seq::<char>::empty()) == Seq::<char>::empty());
        assert(Seq::<char>::empty() + escape_char(c) =~= escape_char(c));
        assert(escape_char(c) + Seq::<char>::empty() =~= escape_char(c));
    } else {
        lemma_escape_text_cons(c, rest.drop_last());
        assert((seq![c] + rest).drop_last() =~= seq![c] + rest.drop_last());
        assert((seq![c] + rest).last() == rest.last());
        assert(escape_char(c) + escape_text(rest.drop_last()) + escape_char(rest.last())
            =~= escape_char(c) + (escape_text(rest.drop_last()) + escape_char(rest.last())));
    }
}

/// Where `x` holds the escaped text of `t` from `i` to its end, reading its escapes gives `t`.
proof fn lemma_unescape_escaped(x: Seq<char>, i: int, t: Seq<char>)
    requires
        0 <= i,
        i + escape_text(t).len() == x.len(),
        x.subrange(i, x.len() as int) == escape_text(t),
    ensures
        unescape_from(x, i) == Ok::<Seq<char>, ParseError>(t),
    decreases t.len(),
{
    if t.len() == 0 {
        assert(t =~= seq![]);
    } else {
        let c = t[0];
        let rest = t.drop_first();
        assert(seq![c] + rest =~= t);
        lemma_escape_text_cons(c, rest);
        let ec = escape_char(c);
        let er = escape_text(rest);
        assert(x.subrange(i, x.len() as int)[0] == x[i]);
        assert(x[i] == ec[0]);
        if ec.len() == 2 {
            assert(x.subrange(i, x.len() as int)[1] == x[i + 1]);
            assert(x[i + 1] == ec[1]);
        }
        assert(x.subrange(i + ec.len(), x.len() as int) =~= x.subrange(i, x.len() as int).subrange(ec.len() as int, (ec + er).len() as int));
        assert((ec + er).subrange(ec.len() as int, (ec + er).len() as int) =~= er);
        lemma_unescape_escaped(x, i + ec.len(), rest);
    }
}

/// Where `x` holds the escaped text of `t` from `i` on, followed by `"`, that quote is the
/// first unescaped one.
proof fn lemma_string_end_escaped(x: Seq<char>, i: int, t: Seq<char>)
    requires
        0 <= i,
        i + escape_text(t).len() < x.len(),
        x.subrange(i, i + escape_text(t).len()) == escape_text(t),
        x[i + escape_text(t).len()] == '"',
    ensures
        string_end(x, i) == Some(i + escape_text(t).len()),
    decreases t.len(),
{
    if t.len() == 0 {
        assert(t =~= seq![]);
    } else {
        let c = t[0];
        let rest = t.drop_first();
        assert(seq![c] + rest =~= t);
        lemma_escape_text_cons(c, rest);
        let ec = escape_char(c);
        let er = escape_text(rest);
        let e = escape_text(t);
        assert(x.subrange(i, i + e.len())[0] == x[i]);
        assert(x[i] == ec[0]);
        assert(x.subrange(i + ec.len(), i + ec.len() + er.len()) =~= x.subrange(i, i + e.len()).subrange(ec.len() as int, e.len() as int));
        assert((ec + er).subrange(ec.len() as int, (ec + er).len() as int) =~= er);
        lemma_string_end_escaped(x, i + ec.len(), rest);
    }
}

/// Reading the items of a list from the `k`-th one on, where `ts` holds at `i` the tokens of
/// all items followed by `)`.
proof fn lemma_read_items(ts: Seq<TokenV>, i: int, items: Seq<Form>, k: int)
    requires
        0 <= k <= items.len(),
        forall|j: int| 0 <= j < items.len() ==> readable(#[trigger] items[j]),
        0 <= i,
        i + items_tokens(items).len() + 1 <= ts.len(),
        ts.subrange(i, i + items_tokens(items).len()) == items_tokens(items),
        ts[i + items_tokens(items).len()] == TokenV::RightParen,
    ensures
        read_items(ts, i + items_tokens(items.take(k)).len()) == (
            Ok::<Seq<Form>, ParseError>(items.skip(k)),
            i + items_tokens(items).len() + 1,
        ),
    decreases items, items.len() - k,
{
    let n = items.len();
    let p = i + items_tokens(items.take(k)).len();
    if k == n {
        assert(items.take(k) =~= items);
        assert(items.skip(k) =~= seq![]);
    } else {
        lemma_items_tokens_take(items, k);
        let ft = form_tokens(items[k]);
        lemma_form_tokens_nonempty(items[k]);
        // The tokens of the k-th item sit at p.
        lemma_items_tokens_split(items, k + 1);
        let a = items_tokens(items.take(k + 1));
        let b = items_tokens(items.skip(k + 1));
        assert(items_tokens(items) == a + b);
        lemma_split(ts, i, a, b);
        lemma_split(ts, i, items_tokens(items.take(k)), ft);
        assert(ts.subrange(p, p + ft.len()) == ft);
        assert(ts[p] == ft[0]);
        assert(!(ts[p] is RightParen)) by {
            match items[k] {
                Form::List(_) => {},
                _ => {},
            }
        }
        vstd::seq::axiom_seq_index_decreases(items, k);
        lemma_read_form(ts, p, items[k]);
        lemma_read_items(ts, i, items, k + 1);
        assert(seq![items[k]] + items.skip(k + 1) =~= items.skip(k));
    }
}

proof fn lemma_items_tokens_split(items: Seq<Form>, k: int)
    requires
        0 <= k <= items.len(),
    ensures
        items_tokens(items) == items_tokens(items.take(k)) + items_tokens(items.skip(k)),
    decreases items.len() - k,
{
    if k == items.len() {
        assert(items.take(k) =~= items);
        assert(items.skip(k) =~= seq![]);
        assert(items_tokens(items) + seq![] =~= items_tokens(items));
    } else {
        lemma_items_tokens_split(items, k + 1);
        lemma_items_tokens_take(items, k);
        // items.skip(k) is items[k] followed by items.skip(k + 1).
        lemma_items_tokens_cons(items[k], items.skip(k + 1));
        assert(seq![items[k]] + items.skip(k + 1) =~= items.skip(k));
        assert(items_tokens(items.take(k)) + form_tokens(items[k]) + items_tokens(items.skip(k + 1))
            =~= items_tokens(items.take(k)) + (form_tokens(items[k]) + items_tokens(items.skip(k + 1))));
    }
}

proof fn lemma_items_tokens_cons(f: Form, rest: Seq<Form>)
    ensures
        items_tokens(seq![f] + rest) == form_tokens(f) + items_tokens(rest),
    decreases rest.len(),
{
    if rest.len() == 0 {
        assert(seq![f] + rest =~= seq![f]);
        assert(seq![f].drop_last() =~= seq![]);
        assert(seq![f].last() == f);
        assert(items_tokens(Seq::<Form>::empty()) == Seq::<TokenV>::empty());
        assert(Seq::<TokenV>::empty() + form_tokens(f) =~= form_tokens(f));
        assert(form_tokens(f) + seq![] =~= form_tokens(f));
    } else {
        lemma_items_tokens_cons(f, rest.drop_last());
        assert((seq![f] + rest).drop_last() =~= seq![f] + rest.drop_last());
        assert((seq![f] + rest).last() == rest.last());
        assert(form_tokens(f) + items_tokens(rest.drop_last()) + form_tokens(rest.last())
            =~= form_tokens(f) + (items_tokens(rest.drop_last()) + form_tokens(rest.last())));
    }
}

/// The text a node renders to: its `write` rendering taken as a value.
pub open spec fn form_text(f: Form) -> Seq<char> {
    value_text(quote_form(f), true)
}

/// A character that ends a symbol or number run inside a rendered node.
pub open spec fn delimits(s: Seq<char>, j: int) -> bool {
    j == s.len() || (0 <= j < s.len() && (s[j] == ' ' || s[j] == ')'))
}

/// Where `s` holds `t` from position `i` on, it holds each part of `t` at the matching place.
proof fn lemma_sub_at(s: Seq<char>, i: int, t: Seq<char>, a: int, len: int)
    requires
        0 <= i,
        i + t.len() <= s.len(),
        s.subrange(i, i + t.len()) == t,
        0 <= a,
        0 <= len,
        a + len <= t.len(),
    ensures
        s.subrange(i + a, i + a + len) == t.subrange(a, a + len),
{
    let whole = s.subrange(i, i + t.len());
    assert forall|k: int| 0 <= k < len implies #[trigger] s[i + a + k] == t[a + k] by {
        assert(whole[a + k] == s[i + a + k]);
    }
    assert(s.subrange(i + a, i + a + len) =~= t.subrange(a, a + len));
}

proof fn lemma_run_end(s: Seq<char>, i: int, j: int)
    requires
        0 <= i <= j <= s.len(),
        forall|k: int| i <= k < j ==> symbol_char(#[trigger] s[k]),
        j == s.len() || !symbol_char(s[j]),
    ensures
        symbol_run_end(s, i) == j,
    decreases j - i,
{
    if i < j {
        lemma_run_end(s, i + 1, j);
    }
}

proof fn lemma_digits_text(m: nat)
    ensures
        digits_text(m).len() >= 1,
        all_digits(digits_text(m)),
        digits_value(digits_text(m)) == m,
    decreases m,
{
    let t = digits_text(m);
    if m < 10 {
        assert(digit_char(m as int) as int == m + 48);
        assert(t.drop_last() =~= seq![]);
        assert(t.last() == digit_char(m as int));
        assert(digits_value(t) == digits_value(t.drop_last()) * 10 + (t.last() as int - '0' as int));
    } else {
        lemma_digits_text(m / 10);
        let d = (m % 10) as int;
        assert(digit_char(d) as int == d + 48);
        assert(t.drop_last() =~= digits_text(m / 10));
        assert(t.last() == digit_char(d));
        assert(digits_value(t) == digits_value(t.drop_last()) * 10 + (t.last() as int - '0' as int));
        assert((m / 10) * 10 + d == m);
        assert forall|k: int| 0 <= k < t.len() implies is_digit(#[trigger] t[k]) by {
            if k < t.len() - 1 {
                assert(t[k] == digits_text(m / 10)[k]);
            }
        }
    }
}

proof fn lemma_int_text(n: int)
    requires
        fits_i64(n),
    ensures
        int_text(n).len() >= 1,
        forall|k: int| 0 <= k < int_text(n).len() ==> symbol_char(#[trigger] int_text(n)[k]),
        int_text(n)[0] == '-' || is_digit(int_text(n)[0]),
        classify(int_text(n)) == Ok::<TokenV, LexErrorV>(TokenV::Number(n)),
{
    let t = int_text(n);
    if n < 0 {
        let m = (-n) as nat;
        lemma_digits_text(m);
        assert(t.drop_first() =~= digits_text(m));
        assert forall|k: int| 0 <= k < t.len() implies symbol_char(#[trigger] t[k]) by {
            if k > 0 {
                assert(t[k] == digits_text(m)[k - 1]);
                assert(is_digit(digits_text(m)[k - 1]));
            }
        }
        assert(literal_value(t) == Some(n));
    } else {
        lemma_digits_text(n as nat);
        assert(is_digit(t[0]));
        assert forall|k: int| 0 <= k < t.len() implies symbol_char(#[trigger] t[k]) by {
            assert(is_digit(t[k]));
        }
    }
}

proof fn lemma_prepend_all_assoc(a: Seq<TokenV>, b: Seq<TokenV>, r: Result<Seq<TokenV>, LexErrorV>)
    ensures
        prepend_all(a, prepend_all(b, r)) == prepend_all(a + b, r),
{
    match r {
        Ok(x) => assert(a + (b + x) =~= (a + b) + x),
        Err(_) => {},
    }
}

/// Lexing the text of a readable node, followed by a delimiter or the end, gives its tokens.
pub proof fn lemma_lex_form(s: Seq<char>, i: int, f: Form)
    requires
        readable(f),
        0 <= i,
        i + form_text(f).len() <= s.len(),
        s.subrange(i, i + form_text(f).len()) == form_text(f),
        delimits(s, i + form_text(f).len()),
    ensures
        form_text(f).len() >= 1,
        lex_from(s, i) == prepend_all(form_tokens(f), lex_from(s, i + form_text(f).len())),
    decreases f, 0int,
{
    let t = form_text(f);
    match f {
        Form::Symbol(sym) => {
            assert(t == sym);
            assert forall|k: int| i <= k < i + t.len() implies symbol_char(#[trigger] s[k]) by {
                assert(s.subrange(i, i + t.len())[k - i] == s[k]);
            }
            assert(s[i] == t[0]);
            lemma_run_end(s, i, i + t.len());
        },
        Form::Integer(n) => {
            lemma_int_text(n);
            assert(t == int_text(n));
            assert forall|k: int| i <= k < i + t.len() implies symbol_char(#[trigger] s[k]) by {
                assert(s.subrange(i, i + t.len())[k - i] == s[k]);
            }
            assert(s[i] == t[0]);
            lemma_run_end(s, i, i + t.len());
        },
        Form::Bool(b) => {
            assert(s.subrange(i, i + t.len())[0] == s[i]);
            assert(s.subrange(i, i + t.len())[1] == s[i + 1]);
        },
        Form::Str(text) => {
            let e = escape_text(text);
            assert(t == seq!['"'] + e + seq!['"']);
            assert(s.subrange(i, i + t.len())[0] == s[i]);
            assert(s.subrange(i, i + t.len())[t.len() - 1] == s[i + t.len() - 1]);
            lemma_sub_at(s, i, t, 1, e.len() as int);
            assert(t.subrange(1, 1 + e.len() as int) =~= e);
            lemma_string_end_escaped(s, i + 1, text);
            assert(s.subrange(i + 1, i + 1 + e.len()) == e);
        },
        Form::List(items) => {
            lemma_readable_all(items);
            let qs = quote_forms(items);
            let it = items_text(qs, true);
            assert(t == seq!['('] + it + seq![')']);
            assert(s.subrange(i, i + t.len())[0] == s[i]);
            assert(s.subrange(i, i + t.len())[t.len() - 1] == s[i + t.len() - 1]);
            lemma_sub_at(s, i, t, 1, it.len() as int);
            assert(t.subrange(1, 1 + it.len() as int) =~= it);
            lemma_lex_items(s, i + 1, items, items.len() as int);
            assert(items.take(items.len() as int) =~= items);
            let close = i + 1 + it.len();
            assert(lex_from(s, close) == prepend(TokenV::RightParen, lex_from(s, close + 1)));
            lemma_prepend_all_assoc(items_tokens(items), seq![TokenV::RightParen], lex_from(s, close + 1));
            lemma_prepend_all_assoc(seq![TokenV::LeftParen], items_tokens(items) + seq![TokenV::RightParen], lex_from(s, close + 1));
            assert(seq![TokenV::LeftParen] + (items_tokens(items) + seq![TokenV::RightParen]) =~= form_tokens(f));
        },
    }
}

proof fn lemma_quote_forms_take(items: Seq<Form>, k: int)
    requires
        0 <= k <= items.len(),
    ensures
        quote_forms(items.take(k)) == quote_forms(items).take(k),
{
    lemma_quote_forms_index(items);
    lemma_quote_forms_index(items.take(k));
    assert(quote_forms(items.take(k)) =~= quote_forms(items).take(k));
}

proof fn lemma_items_text_push(vs: Seq<crate::eval::Value>, x: crate::eval::Value)
    ensures
        items_text(vs.push(x), true) == if vs.len() == 0 {
            value_text(x, true)
        } else {
            items_text(vs, true) + seq![' '] + value_text(x, true)
        },
{
    assert(vs.push(x).drop_last() =~= vs);
    if vs.len() == 0 {
        assert(vs.push(x)[0] == x);
    }
}

/// The text of the first `k` values is a prefix of the text of all, and a space follows it
/// when more values come.
proof fn lemma_items_text_prefix(vs: Seq<crate::eval::Value>, k: int)
    requires
        0 <= k <= vs.len(),
    ensures
        items_text(vs.take(k), true).len() <= items_text(vs, true).len(),
        items_text(vs, true).subrange(0, items_text(vs.take(k), true).len() as int) == items_text(vs.take(k), true),
        1 <= k < vs.len() ==> items_text(vs.take(k), true).len() < items_text(vs, true).len(),
        1 <= k < vs.len() ==> items_text(vs, true)[items_text(vs.take(k), true).len() as int] == ' ',
    decreases vs.len(),
{
    let all = items_text(vs, true);
    let pre = items_text(vs.take(k), true);
    if k == vs.len() {
        assert(vs.take(k) =~= vs);
        assert(all.subrange(0, all.len() as int) =~= all);
    } else {
        let d = vs.drop_last();
        lemma_items_text_prefix(d, k);
        assert(d.take(k) =~= vs.take(k));
        assert(vs.len() >= 1);
        if vs.len() == 1 {
            assert(vs.take(0) =~= seq![]);
            assert(all.subrange(0, 0) =~= seq![]);
        } else {
            let dt = items_text(d, true);
            assert(all == dt + seq![' '] + value_text(vs.last(), true));
            assert(all.subrange(0, pre.len() as int) =~= dt.subrange(0, pre.len() as int));
            if 1 <= k {
                if k < d.len() {
                    assert(all[pre.len() as int] == dt[pre.len() as int]);
                } else {
                    assert(d.take(k) =~= d);
                    assert(all[dt.len() as int] == ' ');
                }
            }
        }
    }
}

/// Lexing the texts of the first `k` items of a list, laid out from `i` as the list renders them.
proof fn lemma_lex_items(s: Seq<char>, i: int, items: Seq<Form>, k: int)
    requires
        0 <= k <= items.len(),
        forall|j: int| 0 <= j < items.len() ==> readable(#[trigger] items[j]),
        0 <= i,
        i + items_text(quote_forms(items), true).len() < s.len(),
        s.subrange(i, i + items_text(quote_forms(items), true).len()) == items_text(quote_forms(items), true),
        s[i + items_text(quote_forms(items), true).len()] == ')',
    ensures
        lex_from(s, i) == prepend_all(
            items_tokens(items.take(k)),
            lex_from(s, i + items_text(quote_forms(items.take(k)), true).len()),
        ),
    decreases items, k,
{
    let qs = quote_forms(items);
    let it = items_text(qs, true);
    if k == 0 {
        assert(items.take(0) =~= seq![]);
        assert(quote_forms(items.take(0)) =~= seq![]);
        match lex_from(s, i) {
            Ok(x) => assert(seq![] + x =~= x),
            Err(_) => {},
        }
    } else {
        lemma_lex_items(s, i, items, k - 1);
        lemma_quote_forms_take(items, k - 1);
        lemma_quote_forms_take(items, k);
        lemma_quote_forms_index(items);
        let prev = quote_forms(items.take(k - 1));
        let cur = quote_forms(items.take(k));
        assert(qs.take(k) =~= qs.take(k - 1).push(qs[k - 1]));
        assert(qs[k - 1] == quote_form(items[k - 1]));
        lemma_items_text_push(prev, quote_form(items[k - 1]));
        lemma_items_text_prefix(qs, k - 1);
        lemma_items_text_prefix(qs, k);
        let pt = items_text(prev, true);
        let ct = items_text(cur, true);
        let ft = form_text(items[k - 1]);
        let sep: int = if k - 1 == 0 { 0 } else { 1 };
        assert(ct == if k - 1 == 0 { ft } else { pt + seq![' '] + ft });
        assert(ct.len() == pt.len() + sep + ft.len());
        // The item's text sits in s right after the earlier items and their separator.
        lemma_sub_at(s, i, it, 0, ct.len() as int);
        lemma_sub_at(s, i, it, pt.len() + sep, ft.len() as int);
        assert(it.subrange(pt.len() + sep, pt.len() + sep + ft.len()) =~= ct.subrange(pt.len() + sep, ct.len() as int));
        assert(ct.subrange(pt.len() + sep, ct.len() as int) =~= ft);
        let p = i + pt.len();
        if sep == 1 {
            assert(it[pt.len() as int] == ' ');
            assert(s.subrange(i, i + it.len())[pt.len() as int] == s[p]);
            assert(lex_from(s, p) == lex_from(s, p + 1));
        }
        // What follows the item delimits it.
        let after = i + ct.len();
        if k < items.len() {
            assert(it[ct.len() as int] == ' ');
            assert(s.subrange(i, i + it.len())[ct.len() as int] == s[after]);
        } else {
            assert(items.take(k) =~= items);
        }
        vstd::seq::axiom_seq_index_decreases(items, k - 1);
        lemma_lex_form(s, p + sep, items[k - 1]);
        lemma_items_tokens_take(items, k - 1);
        lemma_prepend_all_assoc(items_tokens(items.take(k - 1)), form_tokens(items[k - 1]), lex_from(s, after));
    }
}

/// Rendering a readable node to text, then lexing and reading that text, gives the node back.
pub proof fn lemma_round_trip(f: Form)
    requires
        readable(f),
    ensures
        lex(form_text(f)) == Ok::<Seq<TokenV>, LexErrorV>(form_tokens(f)),
        read_at(form_tokens(f), 0) == (Ok::<Form, ParseError>(f), form_tokens(f).len() as int),
{
    let t = form_text(f);
    assert(t.subrange(0, t.len() as int) =~= t);
    lemma_lex_form(t, 0, f);
    assert(form_tokens(f) + seq![] =~= form_tokens(f));
    let ft = form_tokens(f);
    assert(ft.subrange(0, ft.len() as int) =~= ft);
    lemma_read_form(ft, 0, f);
}

/// A token as the lexer gives it: a symbol is a run of symbol characters that does not read
/// as a number, and a number fits in a machine integer.
pub open spec fn token_ok(t: TokenV) -> bool {
    match t {
        TokenV::Symbol(s) => s.len() > 0 && (forall|k: int| 0 <= k < s.len() ==> symbol_char(#[trigger] s[k]))
            && classify(s) == Ok::<TokenV, LexErrorV>(TokenV::Symbol(s)),
        TokenV::Number(n) => fits_i64(n),
        _ => true,
    }
}

proof fn lemma_run_chars(s: Seq<char>, i: int)
    requires
        0 <= i <= s.len(),
    ensures
        i <= symbol_run_end(s, i) <= s.len(),
        forall|k: int| i <= k < symbol_run_end(s, i) ==> symbol_char(#[trigger] s[k]),
    decreases s.len() - i,
{
    if i < s.len() && symbol_char(s[i]) {
        lemma_run_chars(s, i + 1);
    }
}

proof fn lemma_prepend_ok(t: TokenV, r: Result<Seq<TokenV>, LexErrorV>)
    requires
        token_ok(t),
        r matches Ok(ts) ==> forall|k: int| 0 <= k < ts.len() ==> token_ok(#[trigger] ts[k]),
    ensures
        prepend(t, r) matches Ok(ts) ==> forall|k: int| 0 <= k < ts.len() ==> token_ok(#[trigger] ts[k]),
{
    match r {
        Ok(ts) => {
            let all = seq![t] + ts;
            assert forall|k: int| 0 <= k < all.len() implies token_ok(#[trigger] all[k]) by {
                if k > 0 {
                    assert(all[k] == ts[k - 1]);
                }
            }
        },
        Err(_) => {},
    }
}

/// Every token the lexer gives is as `token_ok` describes.
pub proof fn lemma_lex_tokens_ok(s: Seq<char>, i: int)
    requires
        0 <= i,
    ensures
        lex_from(s, i) matches Ok(ts) ==> forall|k: int| 0 <= k < ts.len() ==> token_ok(#[trigger] ts[k]),
    decreases s.len() - i,
{
    if i < s.len() {
        let c = s[i];
        if c == '(' || c == ')' {
            lemma_lex_tokens_ok(s, i + 1);
            lemma_prepend_ok(if c == '(' { TokenV::LeftParen } else { TokenV::RightParen }, lex_from(s, i + 1));
        } else if c == '#' {
            if i + 1 < s.len() && (s[i + 1] == 't' || s[i + 1] == 'f') {
                lemma_lex_tokens_ok(s, i + 2);
                lemma_prepend_ok(TokenV::Bool(s[i + 1] == 't'), lex_from(s, i + 2));
            }
        } else if c == '"' {
            if let Some(j) = string_end(s, i + 1) {
                if i < j < s.len() {
                    lemma_lex_tokens_ok(s, j + 1);
                    lemma_prepend_ok(TokenV::Str(s.subrange(i + 1, j)), lex_from(s, j + 1));
                }
            }
        } else if symbol_char(c) {
            lemma_run_chars(s, i);
            let j = symbol_run_end(s, i);
            if i < j <= s.len() {
                lemma_lex_tokens_ok(s, j);
                let run = s.subrange(i, j);
                if let Ok(t) = classify(run) {
                    assert forall|k: int| 0 <= k < run.len() implies symbol_char(#[trigger] run[k]) by {
                        assert(run[k] == s[i + k]);
                    }
                    lemma_prepend_ok(t, lex_from(s, j));
                }
            }
        } else {
            lemma_lex_tokens_ok(s, i + 1);
        }
    }
}

/// What the reader gives from such tokens is readable.
proof fn lemma_read_readable(ts: Seq<TokenV>, i: int)
    requires
        0 <= i,
        forall|k: int| 0 <= k < ts.len() ==> token_ok(#[trigger] ts[k]),
    ensures
        read_at(ts, i).0 matches Ok(f) ==> readable(f),
        read_items(ts, i).0 matches Ok(fs) ==> forall|k: int| 0 <= k < fs.len() ==> readable(#[trigger] fs[k]),
    decreases ts.len() - i,
{
    if i < ts.len() {
        assert(token_ok(ts[i]));
        if ts[i] is LeftParen {
            lemma_read_readable(ts, i + 1);
            if let Ok(items) = read_items(ts, i + 1).0 {
                lemma_readable_all(items);
            }
        }
        if !(ts[i] is RightParen) {
            lemma_read_advances(ts, i);
            let (r, j) = read_at(ts, i);
            if let Ok(f) = r {
                if i < j <= ts.len() {
                    lemma_read_readable(ts, j);
                    if let Ok(rest) = read_items(ts, j).0 {
                        let all = seq![f] + rest;
                        assert forall|k: int| 0 <= k < all.len() implies readable(#[trigger] all[k]) by {
                            if k > 0 {
                                assert(all[k] == rest[k - 1]);
                            }
                        }
                    }
                }
            }
        }
    }
}

/// For every node that the reader gives from text the lexer accepts, rendering it, then
/// lexing and reading the rendering, gives the node back.
pub proof fn lemma_reader_round_trip(src: Seq<char>)
    ensures
        lex(src) matches Ok(ts) ==> (read_at(ts, 0).0 matches Ok(f) ==> {
            &&& lex(form_text(f)) == Ok::<Seq<TokenV>, LexErrorV>(form_tokens(f))
            &&& read_at(form_tokens(f), 0) == (Ok::<Form, ParseError>(f), form_tokens(f).len() as int)
        }),
{
    lemma_lex_tokens_ok(src, 0);
    if let Ok(ts) = lex(src) {
        lemma_read_readable(ts, 0);
        if let Ok(f) = read_at(ts, 0).0 {
            lemma_round_trip(f);
        }
    }
}

} // verus!
