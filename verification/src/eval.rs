//! The evaluator: reduces one expression against a mutable name environment,
//! accumulating the text that `echo` writes. Evaluation is proved to agree
//! with a specification-level interpreter over the models of the inputs.

use vstd::prelude::*;
use vstd::string::StringExecFns;
use crate::ast::{Atom, AtomV, Expr, ExprV, exprs_model, names_model, render, lemma_exprs_model};

verus! {

/// A fatal evaluation failure. The language has no recovery construct of
/// its own: the caller decides whether to terminate.
#[derive(Debug, PartialEq)]
pub enum EvalErr {
    /// A name was referenced that the environment does not bind.
    UnboundName(String),
    /// A call named something that is absent or not bound to a closure.
    NotAFunction(String),
    /// The evaluation depth bound was exhausted.
    DepthExceeded,
}

/// The mathematical shape of an `EvalErr`.
pub enum EvalErrV {
    UnboundName(Seq<char>),
    NotAFunction(Seq<char>),
    DepthExceeded,
}

impl EvalErr {
    /// The mathematical value this error stands for.
    pub open spec fn model(&self) -> EvalErrV {
        match self {
            EvalErr::UnboundName(n) => EvalErrV::UnboundName(n@),
            EvalErr::NotAFunction(n) => EvalErrV::NotAFunction(n@),
            EvalErr::DepthExceeded => EvalErrV::DepthExceeded,
        }
    }
}

/// The environment: a mapping from identifier to stored (unevaluated)
/// expression. Later writes win over earlier ones.
pub struct Env {
    pairs: Vec<(String, Expr)>,
}

/// The mapping a pair list stands for: later entries override earlier ones.
pub open spec fn env_map(s: Seq<(String, Expr)>) -> Map<Seq<char>, ExprV>
    decreases s.len(),
{
    if s.len() == 0 {
        Map::empty()
    } else {
        env_map(s.drop_last()).insert(s.last().0@, s.last().1.model())
    }
}

impl View for Env {
    type V = Map<Seq<char>, ExprV>;

    closed spec fn view(&self) -> Map<Seq<char>, ExprV> {
        env_map(self.pairs@)
    }
}

/// The latest entry for a name decides its mapping.
proof fn lemma_env_map_found(s: Seq<(String, Expr)>, name: Seq<char>, j: int)
    requires
        0 <= j < s.len(),
        s[j].0@ == name,
        forall|k: int| j < k < s.len() ==> s[k].0@ != name,
    ensures
        env_map(s).contains_key(name),
        env_map(s)[name] == s[j].1.model(),
    decreases s.len(),
{
    if j < s.len() - 1 {
        lemma_env_map_found(s.drop_last(), name, j);
    }
}

/// A name on no entry is not in the mapping.
proof fn lemma_env_map_absent(s: Seq<(String, Expr)>, name: Seq<char>)
    requires
        forall|k: int| 0 <= k < s.len() ==> s[k].0@ != name,
    ensures
        !env_map(s).contains_key(name),
    decreases s.len(),
{
    if s.len() > 0 {
        lemma_env_map_absent(s.drop_last(), name);
    }
}

/// Pair lists equal entry by entry stand for the same mapping.
proof fn lemma_env_map_pointwise(a: Seq<(String, Expr)>, b: Seq<(String, Expr)>)
    requires
        a.len() == b.len(),
        forall|k: int|
            0 <= k < a.len() ==> a[k].0@ == b[k].0@ && #[trigger] a[k].1.model()
                == b[k].1.model(),
    ensures
        env_map(a) == env_map(b),
    decreases a.len(),
{
    if a.len() > 0 {
        lemma_env_map_pointwise(a.drop_last(), b.drop_last());
    }
}

impl Env {
    /// An empty environment.
    pub fn new() -> (r: Env)
        ensures
            r@ == Map::<Seq<char>, ExprV>::empty(),
    {
        Env { pairs: Vec::new() }
    }

    /// Binds `name` to `value`, overwriting any prior binding for it.
    pub fn insert(&mut self, name: String, value: Expr)
        ensures
            final(self)@ == old(self)@.insert(name@, value.model()),
    {
        self.pairs.push((name, value));
        proof {
            assert(self.pairs@.drop_last() =~= old(self).pairs@);
        }
    }

    /// Looks a name up and hands back a copy of the stored expression,
    /// without evaluating it.
    pub fn get(&self, name: &String) -> (r: Option<Expr>)
        ensures
            match r {
                Some(e) => self@.contains_key(name@) && e.model() == self@[name@],
                None => !self@.contains_key(name@),
            },
    {
        let n = self.pairs.len();
        let mut i: usize = n;
        while i > 0
            invariant
                i <= n,
                n == self.pairs@.len(),
                forall|k: int| i <= k < n ==> self.pairs@[k].0@ != name@,
            decreases i,
    {
            i = i - 1;
            if self.pairs[i].0 == *name {
                let e = self.pairs[i].1.clone();
                proof {
                    lemma_env_map_found(self.pairs@, name@, i as int);
                }
                return Some(e);
            }
        }
        proof {
            lemma_env_map_absent(self.pairs@, name@);
        }
        None
    }
}

impl Clone for Env {
    fn clone(&self) -> (res: Self)
        ensures
            res@ == self@,
    {
        let mut out: Vec<(String, Expr)> = Vec::new();
        let mut i: usize = 0;
        while i < self.pairs.len()
            invariant
                i <= self.pairs@.len(),
                out@.len() == i,
                forall|k: int|
                    0 <= k < i ==> out@[k].0@ == self.pairs@[k].0@ && #[trigger] out@[k].1.model()
                        == self.pairs@[k].1.model(),
            decreases self.pairs@.len() - i,
        {
            let name = self.pairs[i].0.clone();
            let value = self.pairs[i].1.clone();
            out.push((name, value));
            i = i + 1;
        }
        proof {
            lemma_env_map_pointwise(out@, self.pairs@);
        }
        Env { pairs: out }
    }
}

// ---------------------------------------------------------------------------
// The specification-level interpreter.
// ---------------------------------------------------------------------------
/// The outcome of evaluating one expression: the result or the error, the
/// environment afterwards, and the text written for `echo`.
pub struct EvalOut {
    pub r: Result<ExprV, EvalErrV>,
    pub env: Map<Seq<char>, ExprV>,
    pub out: Seq<char>,
}

/// The outcome of evaluating a sequence of expressions left to right.
pub struct EvalListOut {
    pub r: Result<Seq<ExprV>, EvalErrV>,
    pub env: Map<Seq<char>, ExprV>,
    pub out: Seq<char>,
}

/// Pairs parameter names with argument values positionally, in order,
/// stopping at the shorter list: surplus values are dropped and surplus
/// names stay unbound.
pub open spec fn bind_params(
    scope: Map<Seq<char>, ExprV>,
    ps: Seq<Seq<char>>,
    vs: Seq<ExprV>,
) -> Map<Seq<char>, ExprV>
    decreases ps.len(),
{
    if ps.len() == 0 || vs.len() == 0 {
        scope
    } else {
        bind_params(scope.insert(ps[0], vs[0]), ps.drop_first(), vs.drop_first())
    }
}

/// One step of evaluation, depth-bounded by `fuel`:
/// - non-name constants, `Void` and closures evaluate to themselves;
/// - a name is looked up one level, without reducing what it finds, and an
///   unbound name is a fatal error;
/// - a binding stores its right-hand side unevaluated and yields `Void`;
/// - `echo` evaluates each argument left to right against the current
///   environment and writes each result's rendering, yielding `Void`;
/// - any other call must name a closure: a fresh copy of the caller's
///   environment is extended with the evaluated arguments (evaluated
///   against the caller's environment, whose changes the caller keeps) and
///   the body runs in that copy, every result discarded; the call yields
///   `Void`.
pub open spec fn eval_s(e: ExprV, env: Map<Seq<char>, ExprV>, fuel: nat) -> EvalOut
    decreases fuel, 0nat,
{
    if fuel == 0 {
        EvalOut { r: Err(EvalErrV::DepthExceeded), env, out: Seq::empty() }
    } else {
        match e {
            ExprV::Void => EvalOut { r: Ok(e), env, out: Seq::empty() },
            ExprV::Closure(ps, body) => EvalOut { r: Ok(e), env, out: Seq::empty() },
            ExprV::Constant(a) => match a {
                AtomV::Name(n) => if env.contains_key(n) {
                    EvalOut { r: Ok(env[n]), env, out: Seq::empty() }
                } else {
                    EvalOut { r: Err(EvalErrV::UnboundName(n)), env, out: Seq::empty() }
                },
                _ => EvalOut { r: Ok(e), env, out: Seq::empty() },
            },
            ExprV::Let(n, v) => EvalOut {
                r: Ok(ExprV::Void),
                env: env.insert(n, *v),
                out: Seq::empty(),
            },
            ExprV::Call(name, args) => if name == "echo"@ {
                eval_echo_s(args, env, (fuel - 1) as nat)
            } else if env.contains_key(name) {
                match env[name] {
                    ExprV::Closure(ps, body) => {
                        let a = eval_list_s(args, env, (fuel - 1) as nat);
                        match a.r {
                            Err(er) => EvalOut { r: Err(er), env: a.env, out: a.out },
                            Ok(vs) => {
                                let scope = bind_params(env, ps, vs);
                                let b = eval_list_s(body, scope, (fuel - 1) as nat);
                                match b.r {
                                    Err(er) => EvalOut {
                                        r: Err(er),
                                        env: a.env,
                                        out: a.out + b.out,
                                    },
                                    Ok(_) => EvalOut {
                                        r: Ok(ExprV::Void),
                                        env: a.env,
                                        out: a.out + b.out,
                                    },
                                }
                            },
                        }
                    },
                    _ => EvalOut {
                        r: Err(EvalErrV::NotAFunction(name)),
                        env,
                        out: Seq::empty(),
                    },
                }
            } else {
                EvalOut { r: Err(EvalErrV::NotAFunction(name)), env, out: Seq::empty() }
            },
        }
    }
}

/// Evaluates the expressions left to right, threading the environment and
/// collecting the values, and stops at the first failure.
pub open spec fn eval_list_s(es: Seq<ExprV>, env: Map<Seq<char>, ExprV>, fuel: nat) -> EvalListOut
    decreases fuel, es.len() + 1,
{
    if es.len() == 0 {
        EvalListOut { r: Ok(Seq::empty()), env, out: Seq::empty() }
    } else {
        let o = eval_s(es[0], env, fuel);
        match o.r {
            Err(er) => EvalListOut { r: Err(er), env: o.env, out: o.out },
            Ok(v) => {
                let rest = eval_list_s(es.drop_first(), o.env, fuel);
                match rest.r {
                    Err(er) => EvalListOut { r: Err(er), env: rest.env, out: o.out + rest.out },
                    Ok(vs) => EvalListOut {
                        r: Ok(seq![v] + vs),
                        env: rest.env,
                        out: o.out + rest.out,
                    },
                }
            },
        }
    }
}

/// Evaluates the arguments of `echo` left to right, writing each result's
/// rendering right after that argument is evaluated, with no separator.
pub open spec fn eval_echo_s(es: Seq<ExprV>, env: Map<Seq<char>, ExprV>, fuel: nat) -> EvalOut
    decreases fuel, es.len() + 1,
{
    if es.len() == 0 {
        EvalOut { r: Ok(ExprV::Void), env, out: Seq::empty() }
    } else {
        let o = eval_s(es[0], env, fuel);
        match o.r {
            Err(er) => EvalOut { r: Err(er), env: o.env, out: o.out },
            Ok(v) => {
                let rest = eval_echo_s(es.drop_first(), o.env, fuel);
                EvalOut { r: rest.r, env: rest.env, out: o.out + render(v) + rest.out }
            },
        }
    }
}

// ---------------------------------------------------------------------------
// Laws of evaluation.
// ---------------------------------------------------------------------------
/// Binding then referencing without evaluating in between is non-forcing:
/// the binding yields `Void`, and looking the name up afterwards returns the
/// stored right-hand side itself, unevaluated: even when it is a call.
pub proof fn lemma_bind_then_lookup_non_forcing(
    n: Seq<char>,
    v: ExprV,
    env: Map<Seq<char>, ExprV>,
    fuel: nat,
)
    requires
        fuel >= 1,
    ensures
        ({
            let o1 = eval_s(ExprV::Let(n, Box::new(v)), env, fuel);
            let o2 = eval_s(ExprV::Constant(AtomV::Name(n)), o1.env, fuel);
            &&& o1.r == Ok::<ExprV, EvalErrV>(ExprV::Void)
            &&& o1.env == env.insert(n, v)
            &&& o1.out == Seq::<char>::empty()
            &&& o2.r == Ok::<ExprV, EvalErrV>(v)
            &&& o2.env == o1.env
            &&& o2.out == Seq::<char>::empty()
        }),
{
}

/// `echo` yields `Void` whenever it succeeds.
proof fn lemma_echo_yields_void(es: Seq<ExprV>, env: Map<Seq<char>, ExprV>, fuel: nat)
    ensures
        ({
            let o = eval_echo_s(es, env, fuel);
            o.r is Ok ==> o.r == Ok::<ExprV, EvalErrV>(ExprV::Void)
        }),
    decreases es.len(),
{
    if es.len() > 0 {
        let o = eval_s(es[0], env, fuel);
        if o.r is Ok {
            lemma_echo_yields_void(es.drop_first(), o.env, fuel);
        }
    }
}

/// A call: of `echo` or of any closure: yields `Void` whenever it
/// succeeds, even when the body's last expression has a non-void value.
pub proof fn lemma_call_yields_void(
    name: Seq<char>,
    args: Seq<ExprV>,
    env: Map<Seq<char>, ExprV>,
    fuel: nat,
)
    ensures
        ({
            let o = eval_s(ExprV::Call(name, args), env, fuel);
            o.r is Ok ==> o.r == Ok::<ExprV, EvalErrV>(ExprV::Void)
        }),
{
    if fuel >= 1 && name == "echo"@ {
        lemma_echo_yields_void(args, env, (fuel - 1) as nat);
    }
}

/// Invoking a closure never mutates the caller's environment beyond what
/// evaluating the argument list itself does: the body runs in its own copy,
/// so a binding made inside the body is invisible to the caller afterwards.
pub proof fn lemma_call_keeps_caller_env(
    name: Seq<char>,
    args: Seq<ExprV>,
    env: Map<Seq<char>, ExprV>,
    fuel: nat,
)
    requires
        fuel >= 1,
        name != "echo"@,
        env.contains_key(name),
        env[name] is Closure,
    ensures
        eval_s(ExprV::Call(name, args), env, fuel).env == eval_list_s(
            args,
            env,
            (fuel - 1) as nat,
        ).env,
        eval_list_s(args, env, (fuel - 1) as nat).env == env ==> eval_s(
            ExprV::Call(name, args),
            env,
            fuel,
        ).env == env,
{
}

/// A name is bound in the scope a call builds exactly when the caller's
/// environment already bound it or it is a parameter actually paired with
/// an argument value.
pub proof fn lemma_bind_params_dom(
    scope: Map<Seq<char>, ExprV>,
    ps: Seq<Seq<char>>,
    vs: Seq<ExprV>,
    k: Seq<char>,
)
    ensures
        bind_params(scope, ps, vs).contains_key(k) <==> (scope.contains_key(k) || exists|i: int|
            0 <= i < ps.len() && i < vs.len() && ps[i] == k),
    decreases ps.len(),
{
    if ps.len() == 0 || vs.len() == 0 {
    } else {
        lemma_bind_params_dom(scope.insert(ps[0], vs[0]), ps.drop_first(), vs.drop_first(), k);
        if bind_params(scope, ps, vs).contains_key(k) {
            if scope.insert(ps[0], vs[0]).contains_key(k) {
                if !scope.contains_key(k) {
                    assert(0 <= 0 < ps.len() && 0 < vs.len() && ps[0] == k);
                }
            } else {
                let i0 = choose|i: int|
                    0 <= i < ps.drop_first().len() && i < vs.drop_first().len()
                        && ps.drop_first()[i] == k;
                assert(0 <= i0 + 1 < ps.len() && i0 + 1 < vs.len() && ps[i0 + 1] == k);
            }
        }
        if scope.contains_key(k) || exists|i: int|
            0 <= i < ps.len() && i < vs.len() && ps[i] == k {
            if !scope.contains_key(k) {
                let i0 = choose|i: int| 0 <= i < ps.len() && i < vs.len() && ps[i] == k;
                if i0 > 0 {
                    assert(ps.drop_first()[i0 - 1] == k);
                }
            }
        }
    }
}

/// Surplus arguments beyond the parameter count produce no binding: the
/// scope a call builds is the same as if the argument list had been cut at
/// the parameter count. (They are still evaluated: `eval_s` hands the whole
/// list to `eval_list_s`, so their effects and their failures count.)
pub proof fn lemma_surplus_args_unbound(
    scope: Map<Seq<char>, ExprV>,
    ps: Seq<Seq<char>>,
    vs: Seq<ExprV>,
)
    requires
        vs.len() >= ps.len(),
    ensures
        bind_params(scope, ps, vs) == bind_params(scope, ps, vs.take(ps.len() as int)),
    decreases ps.len(),
{
    if ps.len() == 0 {
    } else {
        lemma_surplus_args_unbound(
            scope.insert(ps[0], vs[0]),
            ps.drop_first(),
            vs.drop_first(),
        );
        let cut = vs.take(ps.len() as int);
        assert(cut[0] == vs[0]);
        assert(cut.drop_first() =~= vs.drop_first().take(ps.drop_first().len() as int));
    }
}

/// A surplus parameter: one beyond the argument count, not bound by an
/// earlier parameter of the same name and not bound in the caller's
/// environment: stays unbound, and referencing it in the body is a fatal
/// lookup error.
pub proof fn lemma_surplus_param_lookup_fails(
    scope: Map<Seq<char>, ExprV>,
    ps: Seq<Seq<char>>,
    vs: Seq<ExprV>,
    j: int,
    fuel: nat,
)
    requires
        fuel >= 1,
        vs.len() <= j < ps.len(),
        !scope.contains_key(ps[j]),
        forall|i: int| 0 <= i < vs.len() ==> ps[i] != ps[j],
    ensures
        !bind_params(scope, ps, vs).contains_key(ps[j]),
        eval_s(ExprV::Constant(AtomV::Name(ps[j])), bind_params(scope, ps, vs), fuel).r
            == Err::<ExprV, EvalErrV>(EvalErrV::UnboundName(ps[j])),
{
    lemma_bind_params_dom(scope, ps, vs, ps[j]);
}

// ---------------------------------------------------------------------------
// The executable evaluator.
// ---------------------------------------------------------------------------
/// Reduces one expression against `context`, appending everything `echo`
/// writes to `out`. `fuel` bounds the evaluation depth, so that a script
/// whose closures call one another forever is answered with an error
/// instead of an exhausted stack.
pub fn eval(expr: Expr, context: &mut Env, out: &mut String, fuel: u64) -> (r: Result<
    Expr,
    EvalErr,
>)
    ensures
        ({
            let o = eval_s(expr.model(), old(context)@, fuel as nat);
            &&& final(context)@ == o.env
            &&& final(out)@ == old(out)@ + o.out
            &&& match r {
                Ok(v) => o.r == Ok::<ExprV, EvalErrV>(v.model()),
                Err(er) => o.r == Err::<ExprV, EvalErrV>(er.model()),
            }
        }),
    decreases fuel, 0nat,
{
    if fuel == 0 {
        return Err(EvalErr::DepthExceeded);
    }
    match expr {
        Expr::Void => Ok(Expr::Void),
        Expr::Closure(ps, body) => Ok(Expr::Closure(ps, body)),
        Expr::Constant(a) => {
            match &a {
                Atom::Name(n) => {
                    match context.get(n) {
                        Some(e) => Ok(e),
                        None => Err(EvalErr::UnboundName(n.clone())),
                    }
                },
                _ => Ok(Expr::Constant(a)),
            }
        },
        Expr::Let(name, value) => {
            context.insert(name, *value);
            Ok(Expr::Void)
        },
        Expr::Call(name, args) => {
            let echo = String::from_str("echo");
            if name == echo {
                match eval_echo(&args, 0, context, out, fuel - 1) {
                    Ok(_) => {
                        proof {
                            assert(exprs_model(args@).skip(0) =~= exprs_model(args@));
                        }
                        Ok(Expr::Void)
                    },
                    Err(er) => {
                        proof {
                            assert(exprs_model(args@).skip(0) =~= exprs_model(args@));
                        }
                        Err(er)
                    },
                }
            } else {
                match context.get(&name) {
                    Some(Expr::Closure(ps, body)) => {
                        let mut scope = context.clone();
                        let ghost scope0 = scope@;
                        match eval_list(&args, 0, context, out, fuel - 1) {
                            Err(er) => {
                                proof {
                                    assert(exprs_model(args@).skip(0) =~= exprs_model(args@));
                                }
                                Err(er)
                            },
                            Ok(vs) => {
                                proof {
                                    assert(exprs_model(args@).skip(0) =~= exprs_model(args@));
                                }
                                bind_args(&mut scope, &ps, &vs);
                                match eval_list(&body, 0, &mut scope, out, fuel - 1) {
                                    Ok(_) => {
                                        proof {
                                            assert(exprs_model(body@).skip(0) =~= exprs_model(
                                                body@,
                                            ));
                                        }
                                        Ok(Expr::Void)
                                    },
                                    Err(er) => {
                                        proof {
                                            assert(exprs_model(body@).skip(0) =~= exprs_model(
                                                body@,
                                            ));
                                        }
                                        Err(er)
                                    },
                                }
                            },
                        }
                    },
                    Some(_) => Err(EvalErr::NotAFunction(name)),
                    None => Err(EvalErr::NotAFunction(name)),
                }
            }
        },
    }
}

/// Inserts the evaluated arguments under the matching parameter names, in
/// order, stopping at the shorter list, as `bind_params` states it.
fn bind_args(scope: &mut Env, ps: &Vec<String>, vs: &Vec<Expr>)
    ensures
        final(scope)@ == bind_params(old(scope)@, names_model(ps@), exprs_model(vs@)),
{
    proof {
        lemma_exprs_model(vs@);
        assert(names_model(ps@).skip(0) =~= names_model(ps@));
        assert(exprs_model(vs@).skip(0) =~= exprs_model(vs@));
    }
    let m: usize = if ps.len() < vs.len() {
        ps.len()
    } else {
        vs.len()
    };
    let mut i: usize = 0;
    while i < m
        invariant
            i <= m,
            m == if ps@.len() < vs@.len() {
                ps@.len()
            } else {
                vs@.len()
            },
            exprs_model(vs@).len() == vs@.len(),
            forall|k: int| 0 <= k < vs@.len() ==> exprs_model(vs@)[k] == vs@[k].model(),
            bind_params(scope@, names_model(ps@).skip(i as int), exprs_model(vs@).skip(i as int))
                == bind_params(old(scope)@, names_model(ps@), exprs_model(vs@)),
        decreases m - i,
    {
        let ghost pre = scope@;
        let name = ps[i].clone();
        let value = vs[i].clone();
        scope.insert(name, value);
        proof {
            let pm = names_model(ps@);
            let vm = exprs_model(vs@);
            assert(pm.skip(i as int)[0] == ps@[i as int]@);
            assert(vm.skip(i as int)[0] == vs@[i as int].model());
            assert(pm.skip(i as int).drop_first() =~= pm.skip(i as int + 1));
            assert(vm.skip(i as int).drop_first() =~= vm.skip(i as int + 1));
            assert(bind_params(pre, pm.skip(i as int), vm.skip(i as int)) == bind_params(
                scope@,
                pm.skip(i as int + 1),
                vm.skip(i as int + 1),
            ));
        }
        i = i + 1;
    }
    proof {
        let pm = names_model(ps@);
        let vm = exprs_model(vs@);
        assert(pm.skip(m as int).len() == 0 || vm.skip(m as int).len() == 0);
        assert(bind_params(scope@, pm.skip(m as int), vm.skip(m as int)) == scope@);
    }
}

/// Evaluates the expressions of `es` from index `from` on, left to right,
/// against `context`, collecting the results, as `eval_list_s` states it.
fn eval_list(es: &Vec<Expr>, from: usize, context: &mut Env, out: &mut String, fuel: u64) -> (r:
    Result<Vec<Expr>, EvalErr>)
    requires
        from <= es@.len(),
    ensures
        ({
            let o = eval_list_s(exprs_model(es@).skip(from as int), old(context)@, fuel as nat);
            &&& final(context)@ == o.env
            &&& final(out)@ == old(out)@ + o.out
            &&& match r {
                Ok(vs) => o.r == Ok::<Seq<ExprV>, EvalErrV>(exprs_model(vs@)),
                Err(er) => o.r == Err::<Seq<ExprV>, EvalErrV>(er.model()),
            }
        }),
    decreases fuel, es@.len() - from + 1,
{
    proof {
        lemma_exprs_model(es@);
    }
    let ghost tail = exprs_model(es@).skip(from as int);
    if from == es.len() {
        let empty_vs: Vec<Expr> = Vec::new();
        proof {
            assert(tail =~= Seq::<ExprV>::empty());
            assert(exprs_model(empty_vs@) =~= Seq::<ExprV>::empty());
        }
        Ok(empty_vs)
    } else {
        let e0 = es[from].clone();
        proof {
            assert(tail[0] == es@[from as int].model());
            assert(tail.drop_first() =~= exprs_model(es@).skip(from as int + 1));
        }
        match eval(e0, context, out, fuel) {
            Err(er) => Err(er),
            Ok(v) => {
                match eval_list(es, from + 1, context, out, fuel) {
                    Err(er) => Err(er),
                    Ok(mut vs) => {
                        let ghost vs0 = vs@;
                        let mut res: Vec<Expr> = Vec::new();
                        res.push(v);
                        res.append(&mut vs);
                        proof {
                            assert(res@[0] == v);
                            assert(res@.drop_first() =~= vs0);
                            assert(exprs_model(res@) == seq![v.model()] + exprs_model(vs0));
                        }
                        Ok(res)
                    },
                }
            },
        }
    }
}

/// Evaluates the arguments of `echo` from index `from` on, appending each
/// result's rendering to `out` right away, as `eval_echo_s` states it.
fn eval_echo(es: &Vec<Expr>, from: usize, context: &mut Env, out: &mut String, fuel: u64) -> (r:
    Result<(), EvalErr>)
    requires
        from <= es@.len(),
    ensures
        ({
            let o = eval_echo_s(exprs_model(es@).skip(from as int), old(context)@, fuel as nat);
            &&& final(context)@ == o.env
            &&& final(out)@ == old(out)@ + o.out
            &&& match r {
                Ok(_) => o.r == Ok::<ExprV, EvalErrV>(ExprV::Void),
                Err(er) => o.r == Err::<ExprV, EvalErrV>(er.model()),
            }
        }),
    decreases fuel, es@.len() - from + 1,
{
    proof {
        lemma_exprs_model(es@);
    }
    let ghost tail = exprs_model(es@).skip(from as int);
    if from == es.len() {
        proof {
            assert(tail =~= Seq::<ExprV>::empty());
        }
        Ok(())
    } else {
        let e0 = es[from].clone();
        proof {
            assert(tail[0] == es@[from as int].model());
            assert(tail.drop_first() =~= exprs_model(es@).skip(from as int + 1));
        }
        match eval(e0, context, out, fuel) {
            Err(er) => Err(er),
            Ok(v) => {
                let text = v.debug_text();
                out.append(text.as_str());
                eval_echo(es, from + 1, context, out, fuel)
            },
        }
    }
}

} // verus!
