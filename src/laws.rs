//! Properties of the evaluator, proved over its model.
use vstd::prelude::*;
use crate::reader::Form;
use crate::eval::{
    ArithOp, Env, EvalFault, Value, assign, bind, eval_form, eval_seq, first_index, fits_i64,
    fold_from, lookup, lookup_from, nil, param_names, quote_form,
};

verus! {

proof fn lemma_keywords_differ()
    ensures
        "quote"@ != "define"@,
        "quote"@ != "lambda"@,
        "quote"@ != "display"@,
        "quote"@ != "write"@,
        "define"@ != "lambda"@,
        "define"@ != "display"@,
        "define"@ != "write"@,
        "lambda"@ != "display"@,
        "lambda"@ != "write"@,
        "+"@ != "quote"@,
        "+"@ != "define"@,
        "+"@ != "lambda"@,
        "+"@ != "display"@,
        "+"@ != "write"@,
        "a"@ != "b"@,
        "a"@.len() == 1,
        "+"@.len() == 1,
{
    reveal_strlit("quote");
    reveal_strlit("define");
    reveal_strlit("lambda");
    reveal_strlit("display");
    reveal_strlit("write");
    reveal_strlit("+");
    reveal_strlit("a");
    reveal_strlit("b");
    assert("quote"@.len() != "define"@.len());
    assert("quote"@.len() != "lambda"@.len());
    assert("quote"@.len() != "display"@.len());
    assert("quote"@[0] != "write"@[0]);
    assert("define"@[0] != "lambda"@[0]);
    assert("define"@.len() != "display"@.len());
    assert("define"@.len() != "write"@.len());
    assert("lambda"@.len() != "display"@.len());
    assert("lambda"@[0] != "write"@[0]);
    assert("+"@.len() != "quote"@.len());
    assert("+"@.len() != "define"@.len());
    assert("+"@.len() != "lambda"@.len());
    assert("+"@.len() != "display"@.len());
    assert("+"@.len() != "write"@.len());
    assert("a"@[0] != "b"@[0]);
}

/// `(quote X)` evaluates to `X` taken verbatim, in any environment, changing and printing nothing;
/// in particular `(quote ())` is nil.
pub proof fn lemma_quote_is_verbatim(env: Env, x: Form, depth: nat)
    ensures
        eval_form(env, Form::List(seq![Form::Symbol("quote"@), x]), depth) == (
            Ok::<Value, EvalFault>(quote_form(x)),
            env,
            Seq::<crate::eval::PrintedV>::empty(),
        ),
        quote_form(Form::List(seq![])) == nil(),
{
    let f = Form::List(seq![Form::Symbol("quote"@), x]);
    assert(crate::eval::quote_forms(seq![]) =~= seq![]);
}

/// The left fold of addition over `ns`.
pub open spec fn sum_of(ns: Seq<int>) -> int
    decreases ns.len(),
{
    if ns.len() == 0 {
        0
    } else {
        sum_of(ns.drop_last()) + ns.last()
    }
}

pub open spec fn integer_forms(ns: Seq<int>) -> Seq<Form> {
    ns.map_values(|n: int| Form::Integer(n))
}

proof fn lemma_eval_integers(env: Env, fs: Seq<Form>, ns: Seq<int>, i: int, depth: nat, acc: Seq<Value>)
    requires
        0 <= i <= ns.len(),
        fs.len() == ns.len() + 1,
        forall|k: int| 0 <= k < ns.len() ==> #[trigger] fs[k + 1] == Form::Integer(ns[k]),
        acc.len() == i,
        forall|k: int| 0 <= k < i ==> #[trigger] acc[k] == Value::Number(ns[k]),
    ensures
        eval_seq(env, fs, i + 1, depth, acc, seq![]).1 == env,
        eval_seq(env, fs, i + 1, depth, acc, seq![]).2 == Seq::<crate::eval::PrintedV>::empty(),
        eval_seq(env, fs, i + 1, depth, acc, seq![]).0 matches Ok(vs) && vs.len() == ns.len() && forall|k: int| 0 <= k < ns.len() ==> #[trigger] vs[k] == Value::Number(ns[k]),
    decreases ns.len() - i,
{
    if i < ns.len() {
        assert(fs[i + 1] == Form::Integer(ns[i]));
        let acc2 = acc.push(Value::Number(ns[i]));
        let none: Seq<crate::eval::PrintedV> = seq![];
        assert(none + none =~= none);
        assert(eval_form(env, fs[i + 1], depth) == (Ok::<Value, EvalFault>(Value::Number(ns[i])), env, none));
        assert(eval_seq(env, fs, i + 1, depth, acc, none) == eval_seq(env, fs, i + 2, depth, acc2, none));
        lemma_eval_integers(env, fs, ns, i + 1, depth, acc2);
    }
}

proof fn lemma_fold_add(ns: Seq<int>, vs: Seq<Value>, i: int)
    requires
        0 <= i <= ns.len(),
        vs.len() == ns.len(),
        forall|k: int| 0 <= k < ns.len() ==> #[trigger] vs[k] == Value::Number(ns[k]),
        forall|k: int| 0 <= k <= ns.len() ==> fits_i64(#[trigger] sum_of(ns.subrange(0, k))),
    ensures
        fold_from(ArithOp::Add, sum_of(ns.subrange(0, i)), vs, i) == Ok::<int, EvalFault>(sum_of(ns)),
    decreases ns.len() - i,
{
    if i < ns.len() {
        let next = ns.subrange(0, i + 1);
        assert(next.drop_last() =~= ns.subrange(0, i));
        assert(fits_i64(sum_of(ns.subrange(0, i + 1))));
        lemma_fold_add(ns, vs, i + 1);
    } else {
        assert(ns.subrange(0, i) =~= ns);
    }
}

/// `(+ n1 ... nk)` is the left fold of addition over the numbers from 0, wherever every
/// partial sum fits in a machine integer; `(+)` is 0.
pub proof fn lemma_sum_is_left_fold(env: Env, ns: Seq<int>, depth: nat)
    requires
        forall|k: int| 0 <= k <= ns.len() ==> fits_i64(#[trigger] sum_of(ns.subrange(0, k))),
    ensures
        eval_form(env, Form::List(seq![Form::Symbol("+"@)] + integer_forms(ns)), depth) == (
            Ok::<Value, EvalFault>(Value::Number(sum_of(ns))),
            env,
            Seq::<crate::eval::PrintedV>::empty(),
        ),
{
    lemma_keywords_differ();
    let fs = seq![Form::Symbol("+"@)] + integer_forms(ns);
    assert(fs[0] == Form::Symbol("+"@));
    assert forall|k: int| 0 <= k < ns.len() implies #[trigger] fs[k + 1] == Form::Integer(ns[k]) by {}
    lemma_eval_integers(env, fs, ns, 0, depth, seq![]);
    let vs = eval_seq(env, fs, 1, depth, seq![], seq![]).0->Ok_0;
    assert(ns.subrange(0, 0) =~= seq![]);
    lemma_fold_add(ns, vs, 0);
}

proof fn lemma_first_index_facts(env: Env, name: Seq<char>, i: int)
    requires
        0 <= i <= env.len(),
    ensures
        first_index(env, name, i) matches Some(k) ==> i <= k < env.len() && env[k].0 == name
            && forall|j: int| i <= j < k ==> #[trigger] env[j].0 != name,
        first_index(env, name, i) is None ==> forall|j: int| i <= j < env.len() ==> #[trigger] env[j].0 != name,
        lookup_from(env, name, i) == match first_index(env, name, i) {
            Some(k) => Some(env[k].1),
            None => None::<Value>,
        },
    decreases env.len() - i,
{
    if i < env.len() {
        lemma_first_index_facts(env, name, i + 1);
    }
}

proof fn lemma_first_index_of(env: Env, name: Seq<char>, i: int, k: int)
    requires
        0 <= i <= k < env.len(),
        env[k].0 == name,
        forall|j: int| i <= j < k ==> #[trigger] env[j].0 != name,
    ensures
        first_index(env, name, i) == Some(k),
    decreases k - i,
{
    if i < k {
        lemma_first_index_of(env, name, i + 1, k);
    }
}

/// After binding `name` to `v`, looking `name` up gives `v`.
pub proof fn lemma_lookup_assign_same(env: Env, name: Seq<char>, v: Value)
    ensures
        lookup(assign(env, name, v), name) == Some(v),
{
    lemma_first_index_facts(env, name, 0);
    let e2 = assign(env, name, v);
    match first_index(env, name, 0) {
        Some(k) => {
            assert forall|j: int| 0 <= j < k implies #[trigger] e2[j].0 != name by {
                assert(e2[j] == env[j]);
            }
            lemma_first_index_of(e2, name, 0, k);
        },
        None => {
            assert forall|j: int| 0 <= j < env.len() implies #[trigger] e2[j].0 != name by {
                assert(e2[j] == env[j]);
            }
            lemma_first_index_of(e2, name, 0, env.len() as int);
        },
    }
    lemma_first_index_facts(e2, name, 0);
}

/// Binding `name` leaves the lookup of every other name as it was.
pub proof fn lemma_lookup_assign_other(env: Env, name: Seq<char>, v: Value, other: Seq<char>)
    requires
        other != name,
    ensures
        lookup(assign(env, name, v), other) == lookup(env, other),
{
    lemma_first_index_facts(env, name, 0);
    lemma_first_index_facts(env, other, 0);
    let e2 = assign(env, name, v);
    lemma_first_index_facts(e2, other, 0);
    match first_index(env, other, 0) {
        Some(k) => {
            assert forall|j: int| 0 <= j < k implies #[trigger] e2[j].0 != other by {
                if j < env.len() {
                    assert(e2[j].0 == env[j].0 || e2[j].0 == name);
                }
            }
            assert(e2[k].0 == other);
            lemma_first_index_of(e2, other, 0, k);
        },
        None => {
            assert forall|j: int| 0 <= j < e2.len() implies #[trigger] e2[j].0 != other by {
                if j < env.len() {
                    assert(e2[j].0 == env[j].0 || e2[j].0 == name);
                }
            }
            if first_index(e2, other, 0) is Some {
                let k = first_index(e2, other, 0)->0;
                assert(e2[k].0 != other);
            }
        },
    }
}

/// `(define x E)` returns nil and binds `x` in the same environment, so that `x` then
/// evaluates to the value of `E`; the environment as it was before does not see the binding.
pub proof fn lemma_define_then_lookup(env: Env, name: Seq<char>, e: Form, depth: nat, later: nat)
    requires
        eval_form(env, e, depth).0 is Ok,
    ensures
        ({
            let (r, env2, _) = eval_form(env, Form::List(seq![Form::Symbol("define"@), Form::Symbol(name), e]), depth);
            &&& r == Ok::<Value, EvalFault>(nil())
            &&& eval_form(env2, Form::Symbol(name), later).0 == eval_form(env, e, depth).0
        }),
        lookup(env, name) is None ==> eval_form(env, Form::Symbol(name), later).0 == Err::<Value, EvalFault>(EvalFault::UnboundSymbol(name)),
{
    lemma_keywords_differ();
    let v = eval_form(env, e, depth).0->Ok_0;
    let env1 = eval_form(env, e, depth).1;
    lemma_lookup_assign_same(env1, name, v);
}

/// An unbound symbol evaluates to an error that names it, and nothing else happens.
pub proof fn lemma_unbound_symbol(env: Env, name: Seq<char>, depth: nat)
    requires
        lookup(env, name) is None,
    ensures
        eval_form(env, Form::Symbol(name), depth) == (
            Err::<Value, EvalFault>(EvalFault::UnboundSymbol(name)),
            env,
            Seq::<crate::eval::PrintedV>::empty(),
        ),
{
}

/// `((lambda (a b) (+ a b)) x y)`.
pub open spec fn add_closure_call(x: Form, y: Form) -> Form {
    Form::List(
        seq![
            Form::List(
                seq![
                    Form::Symbol("lambda"@),
                    Form::List(seq![Form::Symbol("a"@), Form::Symbol("b"@)]),
                    Form::List(seq![Form::Symbol("+"@), Form::Symbol("a"@), Form::Symbol("b"@)]),
                ],
            ),
            x,
            y,
        ],
    )
}

/// The call scope of `add_closure_call` with `a` and `b` bound to `x` and `y`, and what
/// the body `(+ a b)` gives there.
proof fn lemma_add_closure_body(env: Env, x: Value, y: Value, depth: nat)
    ensures
        ({
            let scope = bind(env, seq!["a"@, "b"@], seq![x, y], 0);
            let body = Form::List(seq![Form::Symbol("+"@), Form::Symbol("a"@), Form::Symbol("b"@)]);
            let vs = seq![x, y];
            &&& eval_seq(scope, body->List_0, 1, depth, seq![], seq![]).0 == Ok::<Seq<Value>, EvalFault>(vs)
            &&& eval_form(scope, body, depth).0 == match fold_from(ArithOp::Add, 0, vs, 0) {
                Ok(s) => Ok::<Value, EvalFault>(Value::Number(s)),
                Err(e) => Err(e),
            }
        }),
{
    lemma_keywords_differ();
    let e1 = assign(env, "a"@, x);
    let scope = assign(e1, "b"@, y);
    let ps = seq!["a"@, "b"@];
    let xs = seq![x, y];
    assert(bind(scope, ps, xs, 2) == scope);
    assert(bind(e1, ps, xs, 1) == bind(scope, ps, xs, 2));
    assert(bind(env, ps, xs, 0) == bind(e1, ps, xs, 1));
    lemma_lookup_assign_same(env, "a"@, x);
    lemma_lookup_assign_other(e1, "b"@, y, "a"@);
    lemma_lookup_assign_same(e1, "b"@, y);
    let body_items = seq![Form::Symbol("+"@), Form::Symbol("a"@), Form::Symbol("b"@)];
    let none: Seq<crate::eval::PrintedV> = seq![];
    assert(none + none =~= none);
    assert(eval_form(scope, body_items[1], depth) == (Ok::<Value, EvalFault>(x), scope, none));
    assert(eval_form(scope, body_items[2], depth) == (Ok::<Value, EvalFault>(y), scope, none));
    assert(eval_seq(scope, body_items, 3, depth, seq![x, y], none) == (Ok::<Seq<Value>, EvalFault>(seq![x, y]), scope, none));
    assert(seq![x] =~= Seq::<Value>::empty().push(x));
    assert(seq![x, y] =~= seq![x].push(y));
    assert(eval_seq(scope, body_items, 2, depth, seq![x], none) == eval_seq(scope, body_items, 3, depth, seq![x, y], none));
    assert(eval_seq(scope, body_items, 1, depth, seq![], none) == eval_seq(scope, body_items, 2, depth, seq![x], none));
}

/// Evaluating `add_closure_call(x, y)` comes down to the body in the call scope.
proof fn lemma_add_closure_call(env: Env, x: Form, y: Form, vx: Value, vy: Value, depth: nat)
    requires
        depth >= 1,
        eval_form(env, x, depth) == (Ok::<Value, EvalFault>(vx), env, Seq::<crate::eval::PrintedV>::empty()),
        eval_form(env, y, depth) == (Ok::<Value, EvalFault>(vy), env, Seq::<crate::eval::PrintedV>::empty()),
    ensures
        eval_form(env, add_closure_call(x, y), depth).0 == eval_form(
            bind(env, seq!["a"@, "b"@], seq![vx, vy], 0),
            Form::List(seq![Form::Symbol("+"@), Form::Symbol("a"@), Form::Symbol("b"@)]),
            (depth - 1) as nat,
        ).0,
{
    lemma_keywords_differ();
    let none: Seq<crate::eval::PrintedV> = seq![];
    assert(none + none =~= none);
    let f = add_closure_call(x, y);
    let items = f->List_0;
    let lam = items[0];
    let params = seq![Form::Symbol("a"@), Form::Symbol("b"@)];
    assert(param_names(params) =~= seq!["a"@, "b"@]);
    assert(seq!["a"@, "b"@].no_duplicates());
    let body = Form::List(seq![Form::Symbol("+"@), Form::Symbol("a"@), Form::Symbol("b"@)]);
    assert(eval_form(env, lam, depth) == (
        Ok::<Value, EvalFault>(Value::Closure(env, seq!["a"@, "b"@], body)),
        env,
        none,
    ));
    assert(seq![vx] =~= Seq::<Value>::empty().push(vx));
    assert(seq![vx, vy] =~= seq![vx].push(vy));
    assert(eval_seq(env, items, 3, depth, seq![vx, vy], none) == (Ok::<Seq<Value>, EvalFault>(seq![vx, vy]), env, none));
    assert(eval_seq(env, items, 2, depth, seq![vx], none) == eval_seq(env, items, 3, depth, seq![vx, vy], none));
    assert(eval_seq(env, items, 1, depth, seq![], none) == eval_seq(env, items, 2, depth, seq![vx], none));
}

/// Calling `(lambda (a b) (+ a b))` on two numbers gives their sum, where it fits in a machine integer.
pub proof fn lemma_closure_adds(env: Env, m: int, n: int, depth: nat)
    requires
        depth >= 1,
        fits_i64(m),
        fits_i64(n),
        fits_i64(m + n),
    ensures
        eval_form(env, add_closure_call(Form::Integer(m), Form::Integer(n)), depth).0 == Ok::<Value, EvalFault>(
            Value::Number(m + n),
        ),
{
    lemma_add_closure_call(env, Form::Integer(m), Form::Integer(n), Value::Number(m), Value::Number(n), depth);
    lemma_add_closure_body(env, Value::Number(m), Value::Number(n), (depth - 1) as nat);
    let vs = seq![Value::Number(m), Value::Number(n)];
    assert(fold_from(ArithOp::Add, m + n, vs, 2) == Ok::<int, EvalFault>(m + n));
    assert(fold_from(ArithOp::Add, m, vs, 1) == Ok::<int, EvalFault>(m + n));
    assert(fold_from(ArithOp::Add, 0, vs, 0) == Ok::<int, EvalFault>(m + n));
}

/// Calling `(lambda (a b) (+ a b))` with a non-number argument fails with the type error of `+`.
pub proof fn lemma_closure_rejects_non_number(env: Env, m: int, b: bool, depth: nat)
    requires
        depth >= 1,
        fits_i64(m),
    ensures
        eval_form(env, add_closure_call(Form::Integer(m), Form::Bool(b)), depth).0 == Err::<Value, EvalFault>(
            EvalFault::TypeMismatch(ArithOp::Add),
        ),
{
    lemma_add_closure_call(env, Form::Integer(m), Form::Bool(b), Value::Number(m), Value::Bool(b), depth);
    lemma_add_closure_body(env, Value::Number(m), Value::Bool(b), (depth - 1) as nat);
    let vs = seq![Value::Number(m), Value::Bool(b)];
    assert(fold_from(ArithOp::Add, m, vs, 1) == Err::<int, EvalFault>(EvalFault::TypeMismatch(ArithOp::Add)));
    assert(fold_from(ArithOp::Add, 0, vs, 0) == fold_from(ArithOp::Add, m, vs, 1));
}

} // verus!
