//! Runtime values, environments and the evaluator.
use vstd::prelude::*;
use crate::lexer::{LexError, LexErrorV, lex, tokenize};
use crate::cursor::ClingyIter;
use crate::reader::{Sexp, Form, ParseError, form_of, forms_of, lemma_forms_of_index, read_at, read_sexp};

verus! {

/// A runtime value. The empty list is nil.
#[derive(Debug, PartialEq, Eq)]
pub enum SValue {
    List(Vec<SValue>),
    Symbol(String),
    String(String),
    Number(i64),
    Bool(bool),
    /// A closure: its captured environment, its parameter names and its body.
    Lambda(SymTable, Vec<String>, Sexp),
}

/// An environment: bindings from names to values, looked up by name.
#[derive(Debug, PartialEq, Eq)]
pub struct SymTable {
    pub items: Vec<(String, SValue)>,
}

/// The mathematical model of a runtime value.
pub enum Value {
    List(Seq<Value>),
    Symbol(Seq<char>),
    Str(Seq<char>),
    Number(int),
    Bool(bool),
    Closure(Seq<(Seq<char>, Value)>, Seq<Seq<char>>, Form),
}

/// The model of an environment: its bindings, in order.
pub type Env = Seq<(Seq<char>, Value)>;

pub open spec fn value_of(v: SValue) -> Value
    decreases v, 0nat,
{
    match v {
        SValue::List(vs) => Value::List(values_of(vs@)),
        SValue::Symbol(s) => Value::Symbol(s@),
        SValue::String(s) => Value::Str(s@),
        SValue::Number(n) => Value::Number(n as int),
        SValue::Bool(b) => Value::Bool(b),
        SValue::Lambda(t, ps, body) => Value::Closure(env_of(t.items@), names_of(ps@), form_of(body)),
    }
}

pub open spec fn values_of(s: Seq<SValue>) -> Seq<Value>
    decreases s, 1nat,
{
    if s.len() == 0 {
        seq![]
    } else {
        values_of(s.drop_last()).push(value_of(s.last()))
    }
}

pub open spec fn env_of(s: Seq<(String, SValue)>) -> Env
    decreases s, 1nat,
{
    if s.len() == 0 {
        seq![]
    } else {
        env_of(s.drop_last()).push((s.last().0@, value_of(s.last().1)))
    }
}

pub open spec fn names_of(ps: Seq<String>) -> Seq<Seq<char>> {
    ps.map_values(|p: String| p@)
}

impl View for SValue {
    type V = Value;

    open spec fn view(&self) -> Value {
        value_of(*self)
    }
}

impl View for SymTable {
    type V = Env;

    open spec fn view(&self) -> Env {
        env_of(self.items@)
    }
}

pub proof fn lemma_values_of_index(s: Seq<SValue>)
    ensures
        values_of(s).len() == s.len(),
        forall|k: int| 0 <= k < s.len() ==> #[trigger] values_of(s)[k] == value_of(s[k]),
    decreases s.len(),
{
    if s.len() > 0 {
        lemma_values_of_index(s.drop_last());
    }
}

pub proof fn lemma_env_of_index(s: Seq<(String, SValue)>)
    ensures
        env_of(s).len() == s.len(),
        forall|k: int| 0 <= k < s.len() ==> #[trigger] env_of(s)[k] == (s[k].0@, value_of(s[k].1)),
    decreases s.len(),
{
    if s.len() > 0 {
        lemma_env_of_index(s.drop_last());
    }
}

/// The value bound to `name` at or after position `i`: the first such binding.
pub open spec fn lookup_from(env: Env, name: Seq<char>, i: int) -> Option<Value>
    decreases env.len() - i,
{
    if i < 0 || i >= env.len() {
        None
    } else if env[i].0 == name {
        Some(env[i].1)
    } else {
        lookup_from(env, name, i + 1)
    }
}

pub open spec fn lookup(env: Env, name: Seq<char>) -> Option<Value> {
    lookup_from(env, name, 0)
}

/// The position of the first binding of `name` at or after `i`.
pub open spec fn first_index(env: Env, name: Seq<char>, i: int) -> Option<int>
    decreases env.len() - i,
{
    if i < 0 || i >= env.len() {
        None
    } else if env[i].0 == name {
        Some(i)
    } else {
        first_index(env, name, i + 1)
    }
}

/// Binds `name` to `v`: the first existing binding of `name` is overwritten, else one is added.
pub open spec fn assign(env: Env, name: Seq<char>, v: Value) -> Env {
    match first_index(env, name, 0) {
        Some(k) => env.update(k, (name, v)),
        None => env.push((name, v)),
    }
}

impl SymTable {
    pub fn empty() -> (r: SymTable)
        ensures
            r@ == Seq::<(Seq<char>, Value)>::empty(),
    {
        SymTable { items: Vec::new() }
    }

    pub fn from(items: Vec<(String, SValue)>) -> (r: SymTable)
        ensures
            r@ == env_of(items@),
    {
        SymTable { items }
    }

    /// The value of the first binding of `sym`, copied.
    pub fn lookup(&self, sym: &String) -> (r: Option<SValue>)
        ensures
            match r {
                Some(v) => lookup(self@, sym@) == Some(v@),
                None => lookup(self@, sym@) is None,
            },
    {
        proof {
            lemma_env_of_index(self.items@);
        }
        let mut i: usize = 0;
        while i < self.items.len()
            invariant
                i <= self.items@.len(),
                env_of(self.items@).len() == self.items@.len(),
                forall|k: int| 0 <= k < self.items@.len() ==> #[trigger] env_of(self.items@)[k] == (self.items@[k].0@, value_of(self.items@[k].1)),
                lookup(self@, sym@) == lookup_from(self@, sym@, i as int),
            decreases self.items@.len() - i,
        {
            if self.items[i].0 == *sym {
                return Some(copy_value(&self.items[i].1));
            }
            i = i + 1;
        }
        None
    }

    /// Binds `sym` to `val`, overwriting its first binding if there is one.
    pub fn assign(&mut self, sym: &String, val: SValue)
        ensures
            final(self)@ == assign(old(self)@, sym@, val@),
    {
        proof {
            lemma_env_of_index(self.items@);
        }
        let ghost env = self@;
        let mut i: usize = 0;
        while i < self.items.len()
            invariant
                i <= self.items@.len(),
                env == self@,
                env == old(self)@,
                env.len() == self.items@.len(),
                forall|k: int| 0 <= k < self.items@.len() ==> #[trigger] env[k] == (self.items@[k].0@, value_of(self.items@[k].1)),
                first_index(env, sym@, 0) == first_index(env, sym@, i as int),
            decreases self.items@.len() - i,
        {
            if self.items[i].0 == *sym {
                let ghost x = (sym@, val@);
                assert(env[i as int].0 == sym@);
                assert(first_index(env, sym@, i as int) == Some(i as int));
                self.items.set(i, (sym.clone(), val));
                proof {
                    lemma_env_of_index(self.items@);
                    assert(env_of(self.items@) =~= env.update(i as int, x));
                }
                return;
            }
            i = i + 1;
        }
        let ghost x = (sym@, val@);
        self.items.push((sym.clone(), val));
        proof {
            lemma_env_of_index(self.items@);
            assert(env_of(self.items@) =~= env.push(x));
        }
    }
}

/// A deep copy of a syntax node.
pub fn copy_sexp(s: &Sexp) -> (r: Sexp)
    ensures
        form_of(r) == form_of(*s),
    decreases s,
{
    match s {
        Sexp::List(items) => {
            let mut out: Vec<Sexp> = Vec::new();
            let mut k: usize = 0;
            while k < items.len()
                invariant
                    k <= items@.len(),
                    *s is List,
                    s->List_0 == *items,
                    out@.len() == k,
                    forall|j: int| 0 <= j < k ==> form_of(#[trigger] out@[j]) == form_of(items@[j]),
                decreases items@.len() - k,
            {
                proof {
                    vstd::std_specs::vec::axiom_vec_index_decreases(*items, k as int);
                }
                out.push(copy_sexp(&items[k]));
                k = k + 1;
            }
            proof {
                lemma_forms_of_index(out@);
                lemma_forms_of_index(items@);
                assert(forms_of(out@) =~= forms_of(items@));
            }
            Sexp::List(out)
        },
        Sexp::Symbol(n) => Sexp::Symbol(n.clone()),
        Sexp::String(t) => Sexp::String(t.clone()),
        Sexp::Integer(i) => Sexp::Integer(*i),
        Sexp::Bool(b) => Sexp::Bool(*b),
    }
}

/// A deep copy of a runtime value.
pub fn copy_value(v: &SValue) -> (r: SValue)
    ensures
        r@ == v@,
    decreases v, 0nat,
{
    match v {
        SValue::List(items) => {
            let mut out: Vec<SValue> = Vec::new();
            let mut k: usize = 0;
            while k < items.len()
                invariant
                    k <= items@.len(),
                    *v is List,
                    v->List_0 == *items,
                    out@.len() == k,
                    forall|j: int| 0 <= j < k ==> value_of(#[trigger] out@[j]) == value_of(items@[j]),
                decreases items@.len() - k,
            {
                proof {
                    vstd::std_specs::vec::axiom_vec_index_decreases(*items, k as int);
                }
                out.push(copy_value(&items[k]));
                k = k + 1;
            }
            proof {
                lemma_values_of_index(out@);
                lemma_values_of_index(items@);
                assert(values_of(out@) =~= values_of(items@));
            }
            SValue::List(out)
        },
        SValue::Symbol(n) => SValue::Symbol(n.clone()),
        SValue::String(t) => SValue::String(t.clone()),
        SValue::Number(n) => SValue::Number(*n),
        SValue::Bool(b) => SValue::Bool(*b),
        SValue::Lambda(t, ps, body) => {
            let t2 = copy_table(t);
            let mut ps2: Vec<String> = Vec::new();
            let mut k: usize = 0;
            while k < ps.len()
                invariant
                    k <= ps@.len(),
                    ps2@.len() == k,
                    forall|j: int| 0 <= j < k ==> (#[trigger] ps2@[j])@ == ps@[j]@,
                decreases ps@.len() - k,
            {
                ps2.push(ps[k].clone());
                k = k + 1;
            }
            assert(names_of(ps2@) =~= names_of(ps@));
            SValue::Lambda(t2, ps2, copy_sexp(body))
        },
    }
}

/// A deep copy of an environment.
pub fn copy_table(t: &SymTable) -> (r: SymTable)
    ensures
        r@ == t@,
    decreases t, 1nat,
{
    let mut out: Vec<(String, SValue)> = Vec::new();
    let mut k: usize = 0;
    while k < t.items.len()
        invariant
            k <= t.items@.len(),
            out@.len() == k,
            forall|j: int| 0 <= j < k ==> (#[trigger] out@[j]).0@ == t.items@[j].0@ && value_of(out@[j].1) == value_of(t.items@[j].1),
        decreases t.items@.len() - k,
    {
        let name = t.items[k].0.clone();
        let val = copy_value(&t.items[k].1);
        out.push((name, val));
        k = k + 1;
    }
    proof {
        lemma_env_of_index(out@);
        lemma_env_of_index(t.items@);
        assert(env_of(out@) =~= env_of(t.items@));
    }
    SymTable { items: out }
}

/// The arithmetic operators.
#[derive(Debug, Clone, Copy, PartialEq, Eq, Structural)]
pub enum ArithOp {
    Add,
    Mul,
    Reciprocal,
}

#[derive(Debug, PartialEq, Eq)]
pub enum EvalError {
    UnboundSymbol(String),
    EmptyCombination,
    QuoteArity,
    DefineForm,
    LambdaForm,
    DuplicateParameter,
    PrintArity,
    TypeMismatch(ArithOp),
    DivisionByZero,
    Overflow,
    NotCallable,
    ArgumentCount,
    DepthExceeded,
}

/// The model of an evaluation error.
pub enum EvalFault {
    UnboundSymbol(Seq<char>),
    EmptyCombination,
    QuoteArity,
    DefineForm,
    LambdaForm,
    DuplicateParameter,
    PrintArity,
    TypeMismatch(ArithOp),
    DivisionByZero,
    Overflow,
    NotCallable,
    ArgumentCount,
    DepthExceeded,
}

impl View for EvalError {
    type V = EvalFault;

    open spec fn view(&self) -> EvalFault {
        match self {
            EvalError::UnboundSymbol(s) => EvalFault::UnboundSymbol(s@),
            EvalError::EmptyCombination => EvalFault::EmptyCombination,
            EvalError::QuoteArity => EvalFault::QuoteArity,
            EvalError::DefineForm => EvalFault::DefineForm,
            EvalError::LambdaForm => EvalFault::LambdaForm,
            EvalError::DuplicateParameter => EvalFault::DuplicateParameter,
            EvalError::PrintArity => EvalFault::PrintArity,
            EvalError::TypeMismatch(op) => EvalFault::TypeMismatch(*op),
            EvalError::DivisionByZero => EvalFault::DivisionByZero,
            EvalError::Overflow => EvalFault::Overflow,
            EvalError::NotCallable => EvalFault::NotCallable,
            EvalError::ArgumentCount => EvalFault::ArgumentCount,
            EvalError::DepthExceeded => EvalFault::DepthExceeded,
        }
    }
}

/// What `display` and `write` hand to the output.
#[derive(Debug, PartialEq, Eq)]
pub enum Printed {
    Display(SValue),
    Write(SValue),
}

pub enum PrintedV {
    Display(Value),
    Write(Value),
}

impl View for Printed {
    type V = PrintedV;

    open spec fn view(&self) -> PrintedV {
        match self {
            Printed::Display(v) => PrintedV::Display(v@),
            Printed::Write(v) => PrintedV::Write(v@),
        }
    }
}

pub open spec fn outputs_of(s: Seq<Printed>) -> Seq<PrintedV> {
    s.map_values(|p: Printed| p@)
}

pub open spec fn nil() -> Value {
    Value::List(seq![])
}

/// A syntax node taken verbatim as a value.
pub open spec fn quote_form(f: Form) -> Value
    decreases f, 0nat,
{
    match f {
        Form::List(items) => Value::List(quote_forms(items)),
        Form::Symbol(s) => Value::Symbol(s),
        Form::Str(s) => Value::Str(s),
        Form::Integer(n) => Value::Number(n),
        Form::Bool(b) => Value::Bool(b),
    }
}

pub open spec fn quote_forms(s: Seq<Form>) -> Seq<Value>
    decreases s, 1nat,
{
    if s.len() == 0 {
        seq![]
    } else {
        quote_forms(s.drop_last()).push(quote_form(s.last()))
    }
}

pub proof fn lemma_quote_forms_index(s: Seq<Form>)
    ensures
        quote_forms(s).len() == s.len(),
        forall|k: int| 0 <= k < s.len() ==> #[trigger] quote_forms(s)[k] == quote_form(s[k]),
    decreases s.len(),
{
    if s.len() > 0 {
        lemma_quote_forms_index(s.drop_last());
    }
}

pub open spec fn arith_op(name: Seq<char>) -> Option<ArithOp> {
    if name == "+"@ {
        Some(ArithOp::Add)
    } else if name == "*"@ {
        Some(ArithOp::Mul)
    } else if name == "reciprocal"@ {
        Some(ArithOp::Reciprocal)
    } else {
        None
    }
}

pub open spec fn identity(op: ArithOp) -> int {
    match op {
        ArithOp::Add => 0,
        _ => 1,
    }
}

pub open spec fn abs(x: int) -> int {
    if x < 0 {
        -x
    } else {
        x
    }
}

/// Integer division rounding toward zero.
pub open spec fn trunc_div(x: int, y: int) -> int {
    if (x < 0) != (y < 0) {
        -(abs(x) / abs(y))
    } else {
        abs(x) / abs(y)
    }
}

pub open spec fn fits_i64(v: int) -> bool {
    i64::MIN <= v <= i64::MAX
}

/// One step of an arithmetic fold.
pub open spec fn apply_op(op: ArithOp, x: int, y: int) -> Result<int, EvalFault> {
    let r = match op {
        ArithOp::Add => x + y,
        ArithOp::Mul => x * y,
        ArithOp::Reciprocal => trunc_div(x, y),
    };
    if op == ArithOp::Reciprocal && y == 0 {
        Err(EvalFault::DivisionByZero)
    } else if fits_i64(r) {
        Ok(r)
    } else {
        Err(EvalFault::Overflow)
    }
}

/// The left fold of `op` over `vs[i..]`, starting from `acc`.
pub open spec fn fold_from(op: ArithOp, acc: int, vs: Seq<Value>, i: int) -> Result<int, EvalFault>
    decreases vs.len() - i,
{
    if i < 0 || i >= vs.len() {
        Ok(acc)
    } else {
        match vs[i] {
            Value::Number(n) => match apply_op(op, acc, n) {
                Ok(a) => fold_from(op, a, vs, i + 1),
                Err(e) => Err(e),
            },
            _ => Err(EvalFault::TypeMismatch(op)),
        }
    }
}

pub open spec fn head_name(f: Form) -> Option<Seq<char>> {
    match f {
        Form::Symbol(h) => Some(h),
        _ => None,
    }
}

pub open spec fn all_symbols(fs: Seq<Form>) -> bool {
    forall|k: int| 0 <= k < fs.len() ==> #[trigger] fs[k] is Symbol
}

pub open spec fn param_names(fs: Seq<Form>) -> Seq<Seq<char>> {
    Seq::new(fs.len(), |k: int| fs[k]->Symbol_0)
}

/// A call's scope: `ps[i..]` bound in turn to the values of `vs`.
pub open spec fn bind(env: Env, ps: Seq<Seq<char>>, vs: Seq<Value>, i: int) -> Env
    decreases ps.len() - i,
{
    if i < 0 || i >= ps.len() {
        env
    } else {
        bind(assign(env, ps[i], vs[i]), ps, vs, i + 1)
    }
}

/// The outcome of an evaluation: its result, the environment after it, and what it printed.
pub type Outcome<T> = (Result<T, EvalFault>, Env, Seq<PrintedV>);

/// Evaluates `f` in `env`; `depth` bounds how deeply closure calls may nest.
pub open spec fn eval_form(env: Env, f: Form, depth: nat) -> Outcome<Value>
    decreases depth, f, 0int,
{
    match f {
        Form::Integer(n) => (Ok(Value::Number(n)), env, seq![]),
        Form::Bool(b) => (Ok(Value::Bool(b)), env, seq![]),
        Form::Str(s) => (Ok(Value::Str(s)), env, seq![]),
        Form::Symbol(s) => match lookup(env, s) {
            Some(v) => (Ok(v), env, seq![]),
            None => (Err(EvalFault::UnboundSymbol(s)), env, seq![]),
        },
        Form::List(items) => {
            let n = items.len();
            if n == 0 {
                (Err(EvalFault::EmptyCombination), env, seq![])
            } else {
                let h = head_name(items[0]);
                if h == Some("quote"@) {
                    if n == 2 {
                        (Ok(quote_form(items[1])), env, seq![])
                    } else {
                        (Err(EvalFault::QuoteArity), env, seq![])
                    }
                } else if h == Some("define"@) {
                    if n == 3 && items[1] is Symbol {
                        let (r, e2, o2) = eval_form(env, items[2], depth);
                        match r {
                            Ok(v) => (Ok(nil()), assign(e2, items[1]->Symbol_0, v), o2),
                            Err(x) => (Err(x), e2, o2),
                        }
                    } else {
                        (Err(EvalFault::DefineForm), env, seq![])
                    }
                } else if h == Some("lambda"@) {
                    if n == 3 && items[1] is List && all_symbols(items[1]->List_0) {
                        if param_names(items[1]->List_0).no_duplicates() {
                            (Ok(Value::Closure(env, param_names(items[1]->List_0), items[2])), env, seq![])
                        } else {
                            (Err(EvalFault::DuplicateParameter), env, seq![])
                        }
                    } else {
                        (Err(EvalFault::LambdaForm), env, seq![])
                    }
                } else if h == Some("display"@) || h == Some("write"@) {
                    if n == 2 {
                        let (r, e2, o2) = eval_form(env, items[1], depth);
                        match r {
                            Ok(v) => (
                                Ok(nil()),
                                e2,
                                o2.push(
                                    if h == Some("write"@) {
                                        PrintedV::Write(v)
                                    } else {
                                        PrintedV::Display(v)
                                    },
                                ),
                            ),
                            Err(x) => (Err(x), e2, o2),
                        }
                    } else {
                        (Err(EvalFault::PrintArity), env, seq![])
                    }
                } else if h is Some && arith_op(h->0) is Some {
                    let op = arith_op(h->0)->0;
                    let (r, e2, o2) = eval_seq(env, items, 1, depth, seq![], seq![]);
                    match r {
                        Ok(vs) => match fold_from(op, identity(op), vs, 0) {
                            Ok(x) => (Ok(Value::Number(x)), e2, o2),
                            Err(x) => (Err(x), e2, o2),
                        },
                        Err(x) => (Err(x), e2, o2),
                    }
                } else {
                    let (r, e1, o1) = eval_form(env, items[0], depth);
                    match r {
                        Ok(Value::Closure(cenv, ps, body)) => {
                            let (ra, e2, o2) = eval_seq(e1, items, 1, depth, seq![], o1);
                            match ra {
                                Ok(vs) => if vs.len() < ps.len() {
                                    (Err(EvalFault::ArgumentCount), e2, o2)
                                } else if depth == 0 {
                                    (Err(EvalFault::DepthExceeded), e2, o2)
                                } else {
                                    let (rb, _eb, ob) = eval_form(bind(cenv, ps, vs, 0), body, (depth - 1) as nat);
                                    (rb, e2, o2 + ob)
                                },
                                Err(x) => (Err(x), e2, o2),
                            }
                        },
                        Ok(_) => (Err(EvalFault::NotCallable), e1, o1),
                        Err(x) => (Err(x), e1, o1),
                    }
                }
            }
        },
    }
}

/// Evaluates `fs[i..]` in turn, threading the environment; `acc` and `shown` hold what came before.
pub open spec fn eval_seq(env: Env, fs: Seq<Form>, i: int, depth: nat, acc: Seq<Value>, shown: Seq<PrintedV>) -> Outcome<Seq<Value>>
    decreases depth, fs, fs.len() - i,
{
    if i < 0 || i >= fs.len() {
        (Ok(acc), env, shown)
    } else {
        let (r, e1, o1) = eval_form(env, fs[i], depth);
        match r {
            Ok(v) => eval_seq(e1, fs, i + 1, depth, acc.push(v), shown + o1),
            Err(x) => (Err(x), e1, shown + o1),
        }
    }
}

/// Converts a syntax node into a value verbatim, evaluating nothing.
pub fn quote(sexp: &Sexp) -> (r: SValue)
    ensures
        r@ == quote_form(form_of(*sexp)),
    decreases sexp,
{
    match sexp {
        Sexp::List(items) => {
            let mut out: Vec<SValue> = Vec::new();
            let mut k: usize = 0;
            while k < items.len()
                invariant
                    k <= items@.len(),
                    *sexp is List,
                    sexp->List_0 == *items,
                    out@.len() == k,
                    forall|j: int| 0 <= j < k ==> value_of(#[trigger] out@[j]) == quote_form(form_of(items@[j])),
                decreases items@.len() - k,
            {
                proof {
                    vstd::std_specs::vec::axiom_vec_index_decreases(*items, k as int);
                }
                out.push(quote(&items[k]));
                k = k + 1;
            }
            proof {
                lemma_values_of_index(out@);
                lemma_forms_of_index(items@);
                lemma_quote_forms_index(forms_of(items@));
                assert(values_of(out@) =~= quote_forms(forms_of(items@)));
            }
            SValue::List(out)
        },
        Sexp::Symbol(s) => SValue::Symbol(s.clone()),
        Sexp::String(s) => SValue::String(s.clone()),
        Sexp::Integer(n) => SValue::Number(*n),
        Sexp::Bool(b) => SValue::Bool(*b),
    }
}

/// One step of an arithmetic fold on machine integers.
fn apply_arith(op: ArithOp, x: i64, y: i64) -> (r: Result<i64, EvalError>)
    ensures
        match r {
            Ok(v) => apply_op(op, x as int, y as int) == Ok::<int, EvalFault>(v as int),
            Err(e) => apply_op(op, x as int, y as int) == Err::<int, EvalFault>(e@),
        },
{
    let wx = x as i128;
    let wy = y as i128;
    let w: i128 = match op {
        ArithOp::Add => wx + wy,
        ArithOp::Mul => {
            assert(-0x8000_0000_0000_0000_0000_0000_0000_0000 < wx * wy < 0x7fff_ffff_ffff_ffff_ffff_ffff_ffff_ffff) by (nonlinear_arith)
                requires
                    -0x8000_0000_0000_0000 <= wx <= 0x7fff_ffff_ffff_ffff,
                    -0x8000_0000_0000_0000 <= wy <= 0x7fff_ffff_ffff_ffff,
            ;
            wx * wy
        },
        ArithOp::Reciprocal => {
            if y == 0 {
                return Err(EvalError::DivisionByZero);
            }
            let ax: i128 = if wx < 0 { -wx } else { wx };
            let ay: i128 = if wy < 0 { -wy } else { wy };
            let q: i128 = ax / ay;
            assert(0 <= q <= ax) by (nonlinear_arith)
                requires
                    q == ax / ay,
                    ax >= 0,
                    ay > 0,
            ;
            if (wx < 0) != (wy < 0) {
                -q
            } else {
                q
            }
        },
    };
    if -0x8000_0000_0000_0000 <= w && w <= 0x7fff_ffff_ffff_ffff {
        Ok(w as i64)
    } else {
        Err(EvalError::Overflow)
    }
}

/// Folds `op` over the values from left to right, starting from its identity.
fn binop(op: ArithOp, vals: &Vec<SValue>) -> (r: Result<SValue, EvalError>)
    ensures
        match r {
            Ok(v) => fold_from(op, identity(op), values_of(vals@), 0) matches Ok(x) && v@ == Value::Number(x),
            Err(e) => fold_from(op, identity(op), values_of(vals@), 0) == Err::<int, EvalFault>(e@),
        },
{
    proof {
        lemma_values_of_index(vals@);
    }
    let ghost vs = values_of(vals@);
    let mut total: i64 = match op {
        ArithOp::Add => 0,
        _ => 1,
    };
    let mut k: usize = 0;
    while k < vals.len()
        invariant
            k <= vals@.len(),
            vs == values_of(vals@),
            vs.len() == vals@.len(),
            forall|j: int| 0 <= j < vals@.len() ==> #[trigger] vs[j] == value_of(vals@[j]),
            fold_from(op, identity(op), vs, 0) == fold_from(op, total as int, vs, k as int),
        decreases vals@.len() - k,
    {
        match &vals[k] {
            SValue::Number(n) => {
                match apply_arith(op, total, *n) {
                    Ok(t) => {
                        total = t;
                    },
                    Err(e) => {
                        return Err(e);
                    },
                }
            },
            _ => {
                return Err(EvalError::TypeMismatch(op));
            },
        }
        k = k + 1;
    }
    Ok(SValue::Number(total))
}

pub open spec fn value_result(r: Result<SValue, EvalError>) -> Result<Value, EvalFault> {
    match r {
        Ok(v) => Ok(v@),
        Err(e) => Err(e@),
    }
}

pub open spec fn values_result(r: Result<Vec<SValue>, EvalError>) -> Result<Seq<Value>, EvalFault> {
    match r {
        Ok(vs) => Ok(values_of(vs@)),
        Err(e) => Err(e@),
    }
}

proof fn lemma_values_of_push(s: Seq<SValue>, x: SValue)
    ensures
        values_of(s.push(x)) == values_of(s).push(x@),
{
    assert(s.push(x).drop_last() =~= s);
}

proof fn lemma_outputs_push(s: Seq<Printed>, p: Printed)
    ensures
        outputs_of(s.push(p)) == outputs_of(s).push(p@),
{
    assert(outputs_of(s.push(p)) =~= outputs_of(s).push(p@));
}

/// What an argument sequence prints is what came before followed by its own output.
proof fn lemma_eval_seq_shown(env: Env, fs: Seq<Form>, i: int, depth: nat, acc: Seq<Value>, shown: Seq<PrintedV>)
    ensures
        eval_seq(env, fs, i, depth, acc, shown).0 == eval_seq(env, fs, i, depth, acc, seq![]).0,
        eval_seq(env, fs, i, depth, acc, shown).1 == eval_seq(env, fs, i, depth, acc, seq![]).1,
        eval_seq(env, fs, i, depth, acc, shown).2 == shown + eval_seq(env, fs, i, depth, acc, seq![]).2,
    decreases fs.len() - i,
{
    if i < 0 || i >= fs.len() {
        assert(shown + seq![] =~= shown);
    } else {
        let (r, e1, o1) = eval_form(env, fs[i], depth);
        match r {
            Ok(v) => {
                lemma_eval_seq_shown(e1, fs, i + 1, depth, acc.push(v), shown + o1);
                lemma_eval_seq_shown(e1, fs, i + 1, depth, acc.push(v), seq![] + o1);
                let rest = eval_seq(e1, fs, i + 1, depth, acc.push(v), seq![]).2;
                assert(seq![] + o1 =~= o1);
                assert((shown + o1) + rest =~= shown + (o1 + rest));
            },
            Err(_) => {
                assert(seq![] + o1 =~= o1);
            },
        }
    }
}

/// Whether `s` is the symbol named `lit`.
fn check_sym(s: &Sexp, lit: &str) -> (r: bool)
    ensures
        r == (head_name(form_of(*s)) == Some(lit@)),
{
    match s {
        Sexp::Symbol(h) => {
            let t = lit.to_owned();
            *h == t
        },
        _ => false,
    }
}

fn check_binop(s: &Sexp) -> (r: Option<ArithOp>)
    ensures
        r == match head_name(form_of(*s)) {
            Some(h) => arith_op(h),
            None => None,
        },
{
    if check_sym(s, "+") {
        Some(ArithOp::Add)
    } else if check_sym(s, "*") {
        Some(ArithOp::Mul)
    } else if check_sym(s, "reciprocal") {
        Some(ArithOp::Reciprocal)
    } else {
        None
    }
}

/// The parameter names of a lambda, if every parameter is a symbol.
fn get_param_list(ss: &Vec<Sexp>) -> (r: Option<Vec<String>>)
    ensures
        r is Some <==> all_symbols(forms_of(ss@)),
        r matches Some(ps) ==> names_of(ps@) == param_names(forms_of(ss@)),
{
    proof {
        lemma_forms_of_index(ss@);
    }
    let mut vals: Vec<String> = Vec::new();
    let mut k: usize = 0;
    while k < ss.len()
        invariant
            k <= ss@.len(),
            forms_of(ss@).len() == ss@.len(),
            forall|j: int| 0 <= j < ss@.len() ==> #[trigger] forms_of(ss@)[j] == form_of(ss@[j]),
            vals@.len() == k,
            forall|j: int| 0 <= j < k ==> #[trigger] forms_of(ss@)[j] is Symbol,
            forall|j: int| 0 <= j < k ==> (#[trigger] vals@[j])@ == forms_of(ss@)[j]->Symbol_0,
        decreases ss@.len() - k,
    {
        match &ss[k] {
            Sexp::Symbol(s) => {
                assert(forms_of(ss@)[k as int] == form_of(ss@[k as int]));
                let c = s.clone();
                let ghost prev = vals@;
                vals.push(c);
                assert forall|j: int| 0 <= j < k + 1 implies (#[trigger] vals@[j])@ == forms_of(ss@)[j]->Symbol_0 by {
                    if j < k {
                        assert(vals@[j] == prev[j]);
                    }
                }
            },
            _ => {
                assert(!(forms_of(ss@)[k as int] is Symbol));
                return None;
            },
        }
        k = k + 1;
    }
    assert(names_of(vals@) =~= param_names(forms_of(ss@)));
    Some(vals)
}

/// Whether two of the names are equal.
fn has_duplicates(names: &Vec<String>) -> (r: bool)
    ensures
        r == !names_of(names@).no_duplicates(),
{
    let ghost ns = names_of(names@);
    let mut i: usize = 0;
    while i < names.len()
        invariant
            i <= names@.len(),
            ns == names_of(names@),
            ns.len() == names@.len(),
            forall|a: int, b: int| 0 <= a < b < i ==> ns[a] != ns[b],
        decreases names@.len() - i,
    {
        let mut j: usize = 0;
        while j < i
            invariant
                j <= i < names@.len(),
                ns == names_of(names@),
                ns.len() == names@.len(),
                forall|a: int, b: int| 0 <= a < b < i ==> ns[a] != ns[b],
                forall|a: int| 0 <= a < j ==> ns[a] != ns[i as int],
            decreases i - j,
        {
            if names[j] == names[i] {
                assert(ns[j as int] == ns[i as int]);
                return true;
            }
            j = j + 1;
        }
        i = i + 1;
    }
    false
}

/// A call's scope: the captured environment with each parameter bound, in order, to a copy
/// of its argument.
fn invoc_sub_scope(table: SymTable, params: &Vec<String>, args: &Vec<SValue>) -> (r: SymTable)
    requires
        params@.len() <= args@.len(),
    ensures
        r@ == bind(table@, names_of(params@), values_of(args@), 0),
{
    let ghost ps = names_of(params@);
    let ghost vs = values_of(args@);
    proof {
        lemma_values_of_index(args@);
    }
    let mut scope = table;
    let mut k: usize = 0;
    while k < params.len()
        invariant
            k <= params@.len() <= args@.len(),
            ps == names_of(params@),
            vs == values_of(args@),
            vs.len() == args@.len(),
            forall|j: int| 0 <= j < args@.len() ==> #[trigger] vs[j] == value_of(args@[j]),
            bind(table@, ps, vs, 0) == bind(scope@, ps, vs, k as int),
        decreases params@.len() - k,
    {
        let v = copy_value(&args[k]);
        scope.assign(&params[k], v);
        k = k + 1;
    }
    scope
}

/// Evaluates `items[1..]` in turn.
fn eval_all(table: &mut SymTable, items: &Vec<Sexp>, depth: u64, out: &mut Vec<Printed>) -> (r: Result<Vec<SValue>, EvalError>)
    requires
        items@.len() >= 1,
    ensures
        values_result(r) == eval_seq(old(table)@, forms_of(items@), 1, depth as nat, seq![], seq![]).0,
        final(table)@ == eval_seq(old(table)@, forms_of(items@), 1, depth as nat, seq![], seq![]).1,
        outputs_of(final(out)@) == outputs_of(old(out)@) + eval_seq(old(table)@, forms_of(items@), 1, depth as nat, seq![], seq![]).2,
    decreases depth, items, 0int,
{
    proof {
        lemma_forms_of_index(items@);
    }
    let ghost fs = forms_of(items@);
    let ghost env0 = table@;
    let ghost mut shown: Seq<PrintedV> = seq![];
    let mut vals: Vec<SValue> = Vec::new();
    let mut i: usize = 1;
    assert(values_of(vals@) =~= seq![]);
    assert(outputs_of(out@) + shown =~= outputs_of(out@));
    while i < items.len()
        invariant
            1 <= i <= items@.len(),
            fs == forms_of(items@),
            fs.len() == items@.len(),
            forall|j: int| 0 <= j < items@.len() ==> #[trigger] fs[j] == form_of(items@[j]),
            eval_seq(env0, fs, 1, depth as nat, seq![], seq![]) == eval_seq(table@, fs, i as int, depth as nat, values_of(vals@), shown),
            outputs_of(out@) == outputs_of(old(out)@) + shown,
            env0 == old(table)@,
        decreases items@.len() - i,
    {
        proof {
            vstd::std_specs::vec::axiom_vec_index_decreases(*items, i as int);
        }
        let ghost before = outputs_of(out@);
        let ghost env_i = table@;
        let r = eval_in(table, &items[i], depth, out);
        let ghost o1 = eval_form(env_i, fs[i as int], depth as nat).2;
        match r {
            Ok(v) => {
                proof {
                    lemma_values_of_push(vals@, v);
                    assert(outputs_of(old(out)@) + (shown + o1) =~= before + o1);
                }
                vals.push(v);
                proof {
                    shown = shown + o1;
                }
            },
            Err(e) => {
                proof {
                    assert(outputs_of(old(out)@) + (shown + o1) =~= before + o1);
                }
                return Err(e);
            },
        }
        i = i + 1;
    }
    Ok(vals)
}

fn nil_value() -> (r: SValue)
    ensures
        r@ == nil(),
{
    let r = SValue::List(Vec::new());
    assert(values_of(Seq::<SValue>::empty()) =~= seq![]);
    r
}

/// Evaluates `sexp`, allowing closure calls to nest `depth` deep.
fn eval_in(table: &mut SymTable, sexp: &Sexp, depth: u64, out: &mut Vec<Printed>) -> (r: Result<SValue, EvalError>)
    ensures
        value_result(r) == eval_form(old(table)@, form_of(*sexp), depth as nat).0,
        final(table)@ == eval_form(old(table)@, form_of(*sexp), depth as nat).1,
        outputs_of(final(out)@) == outputs_of(old(out)@) + eval_form(old(table)@, form_of(*sexp), depth as nat).2,
    decreases depth, sexp, 0int,
{
    let ghost env = table@;
    let ghost out0 = outputs_of(out@);
    assert(out0 + seq![] =~= out0);
    match sexp {
        Sexp::Integer(n) => Ok(SValue::Number(*n)),
        Sexp::Bool(b) => Ok(SValue::Bool(*b)),
        Sexp::String(s) => Ok(SValue::String(s.clone())),
        Sexp::Symbol(s) => match table.lookup(s) {
            Some(v) => Ok(v),
            None => Err(EvalError::UnboundSymbol(s.clone())),
        },
        Sexp::List(items) => {
            proof {
                lemma_forms_of_index(items@);
            }
            let ghost fs = forms_of(items@);
            let n = items.len();
            if n == 0 {
                return Err(EvalError::EmptyCombination);
            }
            proof {
                vstd::std_specs::vec::axiom_vec_index_decreases(*items, 0);
                if n > 1 {
                    vstd::std_specs::vec::axiom_vec_index_decreases(*items, 1);
                }
                if n > 2 {
                    vstd::std_specs::vec::axiom_vec_index_decreases(*items, 2);
                }
            }
            if check_sym(&items[0], "quote") {
                if n == 2 {
                    Ok(quote(&items[1]))
                } else {
                    Err(EvalError::QuoteArity)
                }
            } else if check_sym(&items[0], "define") {
                if n == 3 {
                    if let Sexp::Symbol(name) = &items[1] {
                        match eval_in(table, &items[2], depth, out) {
                            Ok(v) => {
                                table.assign(name, v);
                                Ok(nil_value())
                            },
                            Err(e) => Err(e),
                        }
                    } else {
                        Err(EvalError::DefineForm)
                    }
                } else {
                    Err(EvalError::DefineForm)
                }
            } else if check_sym(&items[0], "lambda") {
                if n == 3 {
                    if let Sexp::List(ps) = &items[1] {
                        match get_param_list(ps) {
                            Some(names) => if has_duplicates(&names) {
                                Err(EvalError::DuplicateParameter)
                            } else {
                                Ok(SValue::Lambda(copy_table(table), names, copy_sexp(&items[2])))
                            },
                            None => Err(EvalError::LambdaForm),
                        }
                    } else {
                        Err(EvalError::LambdaForm)
                    }
                } else {
                    Err(EvalError::LambdaForm)
                }
            } else if check_sym(&items[0], "display") || check_sym(&items[0], "write") {
                let is_write = check_sym(&items[0], "write");
                if n == 2 {
                    match eval_in(table, &items[1], depth, out) {
                        Ok(v) => {
                            let p = if is_write {
                                Printed::Write(v)
                            } else {
                                Printed::Display(v)
                            };
                            proof {
                                lemma_outputs_push(out@, p);
                                let o2 = eval_form(env, fs[1], depth as nat).2;
                                assert(out0 + o2.push(p@) =~= (out0 + o2).push(p@));
                            }
                            out.push(p);
                            Ok(nil_value())
                        },
                        Err(e) => Err(e),
                    }
                } else {
                    Err(EvalError::PrintArity)
                }
            } else if let Some(op) = check_binop(&items[0]) {
                match eval_all(table, items, depth, out) {
                    Ok(vals) => binop(op, &vals),
                    Err(e) => Err(e),
                }
            } else {
                let head = eval_in(table, &items[0], depth, out);
                let ghost e1 = table@;
                let ghost o1 = eval_form(env, fs[0], depth as nat).2;
                match head {
                    Ok(SValue::Lambda(ctable, params, body)) => {
                        proof {
                            lemma_eval_seq_shown(e1, fs, 1, depth as nat, seq![], o1);
                        }
                        let ghost out1 = outputs_of(out@);
                        match eval_all(table, items, depth, out) {
                            Ok(vals) => {
                                proof {
                                    let x = eval_seq(e1, fs, 1, depth as nat, seq![], seq![]).2;
                                    assert(out1 + x =~= out0 + (o1 + x));
                                    lemma_values_of_index(vals@);
                                    assert(names_of(params@).len() == params@.len());
                                }
                                if vals.len() < params.len() {
                                    return Err(EvalError::ArgumentCount);
                                }
                                if depth == 0 {
                                    return Err(EvalError::DepthExceeded);
                                }
                                let ghost ps = names_of(params@);
                                let ghost vs = values_of(vals@);
                                let ghost cenv = ctable@;
                                let mut scope = invoc_sub_scope(ctable, &params, &vals);
                                let ghost before = outputs_of(out@);
                                let r = eval_in(&mut scope, &body, depth - 1, out);
                                proof {
                                    let ob = eval_form(bind(cenv, ps, vs, 0), form_of(body), (depth - 1) as nat).2;
                                    let x = eval_seq(e1, fs, 1, depth as nat, seq![], seq![]).2;
                                    assert(before + ob =~= out0 + ((o1 + x) + ob));
                                }
                                r
                            },
                            Err(e) => {
                                proof {
                                    let x = eval_seq(e1, fs, 1, depth as nat, seq![], seq![]).2;
                                    assert(out1 + x =~= out0 + (o1 + x));
                                }
                                Err(e)
                            },
                        }
                    },
                    Ok(_) => Err(EvalError::NotCallable),
                    Err(e) => Err(e),
                }
            }
        },
    }
}

/// How deeply closure calls may nest before evaluation gives up.
pub const MAX_CALL_DEPTH: u64 = 256;

/// Evaluates one top-level form against `table`; what `display` and `write` print is appended to `out`.
pub fn eval(table: &mut SymTable, sexp: Sexp, out: &mut Vec<Printed>) -> (r: Result<SValue, EvalError>)
    ensures
        value_result(r) == eval_form(old(table)@, form_of(sexp), MAX_CALL_DEPTH as nat).0,
        final(table)@ == eval_form(old(table)@, form_of(sexp), MAX_CALL_DEPTH as nat).1,
        outputs_of(final(out)@) == outputs_of(old(out)@) + eval_form(old(table)@, form_of(sexp), MAX_CALL_DEPTH as nat).2,
{
    eval_in(table, &sexp, MAX_CALL_DEPTH, out)
}

/// Why running a source text failed.
#[derive(Debug, PartialEq, Eq)]
pub enum SourceError {
    Lex(LexError),
    Parse(ParseError),
    Eval(EvalError),
}

pub enum SourceFault {
    Lex(LexErrorV),
    Parse(ParseError),
    Eval(EvalFault),
}

impl View for SourceError {
    type V = SourceFault;

    open spec fn view(&self) -> SourceFault {
        match self {
            SourceError::Lex(e) => SourceFault::Lex(e@),
            SourceError::Parse(e) => SourceFault::Parse(*e),
            SourceError::Eval(e) => SourceFault::Eval(e@),
        }
    }
}

/// Lexes a text, reads its first form and evaluates it in an empty environment.
pub open spec fn run_source(src: Seq<char>) -> (Result<Value, SourceFault>, Seq<PrintedV>) {
    match lex(src) {
        Err(e) => (Err(SourceFault::Lex(e)), seq![]),
        Ok(ts) => match read_at(ts, 0).0 {
            Err(e) => (Err(SourceFault::Parse(e)), seq![]),
            Ok(f) => {
                let (r, _env, shown) = eval_form(seq![], f, MAX_CALL_DEPTH as nat);
                match r {
                    Ok(v) => (Ok(v), shown),
                    Err(e) => (Err(SourceFault::Eval(e)), shown),
                }
            },
        },
    }
}

pub fn eval_from_src(src: String, out: &mut Vec<Printed>) -> (r: Result<SValue, SourceError>)
    ensures
        match r {
            Ok(v) => run_source(src@).0 == Ok::<Value, SourceFault>(v@),
            Err(e) => run_source(src@).0 == Err::<Value, SourceFault>(e@),
        },
        outputs_of(final(out)@) == outputs_of(old(out)@) + run_source(src@).1,
{
    assert(outputs_of(out@) + seq![] =~= outputs_of(out@));
    match tokenize(&src) {
        Err(e) => Err(SourceError::Lex(e)),
        Ok(toks) => {
            let mut citer = ClingyIter::new(toks);
            match read_sexp(&mut citer) {
                Err(e) => Err(SourceError::Parse(e)),
                Ok(ast) => {
                    let mut table = SymTable::empty();
                    match eval(&mut table, ast, out) {
                        Ok(v) => Ok(v),
                        Err(e) => Err(SourceError::Eval(e)),
                    }
                },
            }
        },
    }
}

impl SValue {
    pub fn nil() -> (r: SValue)
        ensures
            r@ == nil(),
    {
        nil_value()
    }
}

/// The closure bound to `double` in the starting environment: `(lambda (x) (+ x x))`.
pub open spec fn double_closure() -> Value {
    Value::Closure(
        seq![],
        seq!["x"@],
        Form::List(seq![Form::Symbol("+"@), Form::Symbol("x"@), Form::Symbol("x"@)]),
    )
}

fn symbol_sexp(name: &str) -> (r: Sexp)
    ensures
        form_of(r) == Form::Symbol(name@),
{
    Sexp::Symbol(name.to_owned())
}

/// The starting environment: `double` bound to a closure that adds its argument to itself.
pub fn arith_table() -> (r: SymTable)
    ensures
        r@ == seq![("double"@, double_closure())],
{
    let mut body: Vec<Sexp> = Vec::new();
    body.push(symbol_sexp("+"));
    body.push(symbol_sexp("x"));
    body.push(symbol_sexp("x"));
    proof {
        lemma_forms_of_index(body@);
        assert(forms_of(body@) =~= seq![Form::Symbol("+"@), Form::Symbol("x"@), Form::Symbol("x"@)]);
    }
    let mut params: Vec<String> = Vec::new();
    params.push("x".to_owned());
    assert(names_of(params@) =~= seq!["x"@]);
    let f = SValue::Lambda(SymTable::empty(), params, Sexp::List(body));
    let mut items: Vec<(String, SValue)> = Vec::new();
    items.push(("double".to_owned(), f));
    proof {
        lemma_env_of_index(items@);
        assert(env_of(items@) =~= seq![("double"@, double_closure())]);
    }
    SymTable::from(items)
}

} // verus!
