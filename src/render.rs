//! Text renderings of runtime values: `display` (human-readable) and `write` (re-readable).
use vstd::prelude::*;
use crate::eval::{SValue, Value, value_of, values_of, lemma_values_of_index, quote, quote_form};
use crate::reader::{Sexp, form_of};
use crate::lexer::push_char;

verus! {

pub open spec fn digit_char(d: int) -> char {
    ((d + 48) as u8) as char
}

/// Decimal digits of a natural number, most significant first.
pub open spec fn digits_text(n: nat) -> Seq<char>
    decreases n,
{
    if n < 10 {
        seq![digit_char(n as int)]
    } else {
        digits_text(n / 10).push(digit_char((n % 10) as int))
    }
}

/// Decimal text of an integer, with a leading `-` when negative.
pub open spec fn int_text(i: int) -> Seq<char> {
    if i < 0 {
        seq!['-'] + digits_text((-i) as nat)
    } else {
        digits_text(i as nat)
    }
}

/// A string's characters with `\`, `"`, newline, tab and carriage return escaped.
pub open spec fn escape_char(c: char) -> Seq<char> {
    if c == '\\' {
        seq!['\\', '\\']
    } else if c == '"' {
        seq!['\\', '"']
    } else if c == '\n' {
        seq!['\\', 'n']
    } else if c == '\t' {
        seq!['\\', 't']
    } else if c == '\r' {
        seq!['\\', 'r']
    } else {
        seq![c]
    }
}

pub open spec fn escape_text(s: Seq<char>) -> Seq<char>
    decreases s.len(),
{
    if s.len() == 0 {
        seq![]
    } else {
        escape_text(s.drop_last()) + escape_char(s.last())
    }
}

/// The text of a value; `write` quotes and escapes strings, `display` shows them bare.
pub open spec fn value_text(v: Value, write: bool) -> Seq<char>
    decreases v, 0nat,
{
    match v {
        Value::List(vs) => seq!['('] + items_text(vs, write) + seq![')'],
        Value::Symbol(s) => s,
        Value::Str(s) => if write {
            seq!['"'] + escape_text(s) + seq!['"']
        } else {
            s
        },
        Value::Number(n) => int_text(n),
        Value::Bool(b) => if b {
            seq!['#', 't']
        } else {
            seq!['#', 'f']
        },
        Value::Closure(..) => "#<procedure>"@,
    }
}

/// The texts of the values, separated by single spaces.
pub open spec fn items_text(vs: Seq<Value>, write: bool) -> Seq<char>
    decreases vs, 1nat,
{
    if vs.len() == 0 {
        seq![]
    } else if vs.len() == 1 {
        value_text(vs[0], write)
    } else {
        items_text(vs.drop_last(), write) + seq![' '] + value_text(vs.last(), write)
    }
}

fn push_str(out: &mut String, s: &str)
    ensures
        final(out)@ == old(out)@ + s@,
{
    out.append(s);
}

fn render_digits(out: &mut String, n: u64)
    ensures
        final(out)@ == old(out)@ + digits_text(n as nat),
    decreases n,
{
    if n >= 10 {
        render_digits(out, n / 10);
    }
    let d = (n % 10) as u8;
    let c = (d + 48) as char;
    push_char(out, c);
    proof {
        if n >= 10 {
            assert(old(out)@ + digits_text(n as nat) =~= (old(out)@ + digits_text((n / 10) as nat)).push(digit_char((n % 10) as int)));
        } else {
            assert(old(out)@ + digits_text(n as nat) =~= old(out)@.push(digit_char(n as int)));
        }
    }
}

fn render_int(out: &mut String, i: i64)
    ensures
        final(out)@ == old(out)@ + int_text(i as int),
{
    if i < 0 {
        push_char(out, '-');
        let m: u64 = if i == i64::MIN { 0x8000_0000_0000_0000 } else { (-i) as u64 };
        let ghost mid = out@;
        render_digits(out, m);
        assert(old(out)@ + int_text(i as int) =~= mid + digits_text(m as nat));
    } else {
        render_digits(out, i as u64);
    }
}

fn render_escaped(out: &mut String, s: &String)
    ensures
        final(out)@ == old(out)@ + escape_text(s@),
{
    let cs = crate::lexer::chars_of(s);
    let mut k: usize = 0;
    assert(old(out)@ + escape_text(cs@.subrange(0, 0)) =~= old(out)@);
    while k < cs.len()
        invariant
            k <= cs@.len(),
            cs@ == s@,
            out@ == old(out)@ + escape_text(cs@.subrange(0, k as int)),
        decreases cs@.len() - k,
    {
        let c = cs[k];
        let ghost before = out@;
        if c == '\\' {
            push_str(out, "\\\\");
        } else if c == '"' {
            push_str(out, "\\\"");
        } else if c == '\n' {
            push_str(out, "\\n");
        } else if c == '\t' {
            push_str(out, "\\t");
        } else if c == '\r' {
            push_str(out, "\\r");
        } else {
            push_char(out, c);
        }
        proof {
            reveal_strlit("\\\\");
            reveal_strlit("\\\"");
            reveal_strlit("\\n");
            reveal_strlit("\\t");
            reveal_strlit("\\r");
            let pre = cs@.subrange(0, k as int);
            assert(cs@.subrange(0, k + 1).drop_last() =~= pre);
            assert(out@ =~= before + escape_char(c));
            assert(old(out)@ + escape_text(cs@.subrange(0, k + 1)) =~= (old(out)@ + escape_text(pre)) + escape_char(c));
        }
        k = k + 1;
    }
    assert(cs@.subrange(0, cs@.len() as int) =~= s@);
}

/// Appends the text of `v` to `out`.
pub fn render_into(v: &SValue, write: bool, out: &mut String)
    ensures
        final(out)@ == old(out)@ + value_text(v@, write),
    decreases v,
{
    match v {
        SValue::List(items) => {
            proof {
                lemma_values_of_index(items@);
            }
            let ghost vs = values_of(items@);
            push_char(out, '(');
            let ghost start = out@;
            let mut k: usize = 0;
            assert(items_text(vs.subrange(0, 0), write) =~= seq![]);
            assert(start + items_text(vs.subrange(0, 0), write) =~= start);
            while k < items.len()
                invariant
                    k <= items@.len(),
                    *v is List,
                    v->List_0 == *items,
                    vs == values_of(items@),
                    vs.len() == items@.len(),
                    forall|j: int| 0 <= j < items@.len() ==> #[trigger] vs[j] == value_of(items@[j]),
                    out@ == start + items_text(vs.subrange(0, k as int), write),
                decreases items@.len() - k,
            {
                proof {
                    vstd::std_specs::vec::axiom_vec_index_decreases(*items, k as int);
                }
                let ghost before = out@;
                if k > 0 {
                    push_char(out, ' ');
                }
                let ghost mid = out@;
                render_into(&items[k], write, out);
                proof {
                    let pre = vs.subrange(0, k as int);
                    let next = vs.subrange(0, k + 1);
                    assert(next.drop_last() =~= pre);
                    assert(next.last() == vs[k as int]);
                    if k > 0 {
                        assert(start + items_text(next, write) =~= (start + items_text(pre, write)) + seq![' '] + value_text(vs[k as int], write));
                    } else {
                        assert(next[0] == vs[0]);
                        assert(start + items_text(next, write) =~= start + value_text(vs[0], write));
                    }
                }
                k = k + 1;
            }
            assert(vs.subrange(0, items@.len() as int) =~= vs);
            push_char(out, ')');
            assert(old(out)@ + value_text(v@, write) =~= (start + items_text(vs, write)).push(')'));
        },
        SValue::Symbol(s) => {
            push_str(out, s.as_str());
        },
        SValue::String(s) => {
            if write {
                push_char(out, '"');
                render_escaped(out, s);
                push_char(out, '"');
                assert(old(out)@ + value_text(v@, write) =~= (old(out)@.push('"') + escape_text(s@)).push('"'));
            } else {
                push_str(out, s.as_str());
            }
        },
        SValue::Number(n) => {
            render_int(out, *n);
        },
        SValue::Bool(b) => {
            push_char(out, '#');
            push_char(out, if *b { 't' } else { 'f' });
            assert(old(out)@ + value_text(v@, write) =~= old(out)@.push('#').push(if *b { 't' } else { 'f' }));
        },
        SValue::Lambda(..) => {
            push_str(out, "#<procedure>");
        },
    }
}

impl SValue {
    /// The human-readable text of the value: strings are shown without quotes.
    pub fn display_string(&self) -> (r: String)
        ensures
            r@ == value_text(self@, false),
    {
        let mut out = String::new();
        render_into(self, false, &mut out);
        assert(out@ =~= value_text(self@, false));
        out
    }

    /// The re-readable text of the value: strings are quoted, with escapes.
    pub fn write_string(&self) -> (r: String)
        ensures
            r@ == value_text(self@, true),
    {
        let mut out = String::new();
        render_into(self, true, &mut out);
        assert(out@ =~= value_text(self@, true));
        out
    }
}

/// The text of a syntax node, in the form the reader takes back.
pub fn render_sexp(s: &Sexp) -> (r: String)
    ensures
        r@ == value_text(quote_form(form_of(*s)), true),
{
    quote(s).write_string()
}

} // verus!
