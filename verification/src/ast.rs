//! The abstract syntax tree: atoms, expressions, their mathematical models,
//! and the textual rendering used by `echo`.

use vstd::prelude::*;

verus! {

/// A leaf of the syntax tree: a string literal (raw text, no escapes),
/// a bare identifier, or a float literal kept as the exact source text
/// it was written with, so that no rounding ever happens in the tree.
#[derive(Debug, PartialEq)]
pub enum Atom {
    String(String),
    Name(String),
    Float(String),
}

/// The mathematical shape of an `Atom`: the same three alternatives
/// over plain sequences of characters.
pub enum AtomV {
    String(Seq<char>),
    Name(Seq<char>),
    Float(Seq<char>),
}

impl Atom {
    /// The mathematical value this atom stands for.
    pub open spec fn model(&self) -> AtomV {
        match self {
            Atom::String(s) => AtomV::String(s@),
            Atom::Name(s) => AtomV::Name(s@),
            Atom::Float(s) => AtomV::Float(s@),
        }
    }
}

/// An AST node. Nodes are created once by the parser and never mutated.
#[derive(Debug, PartialEq)]
pub enum Expr {
    /// The unit / no-value result.
    Void,
    /// A literal or a name reference.
    Constant(Atom),
    /// A binding declaration; owns its right-hand-side subtree.
    Let(String, Box<Expr>),
    /// A function or builtin invocation with its argument subtrees.
    Call(String, Vec<Expr>),
    /// A callable value: parameter names and a body evaluated in order.
    Closure(Vec<String>, Vec<Expr>),
}

/// The mathematical shape of an `Expr`.
pub enum ExprV {
    Void,
    Constant(AtomV),
    Let(Seq<char>, Box<ExprV>),
    Call(Seq<char>, Seq<ExprV>),
    Closure(Seq<Seq<char>>, Seq<ExprV>),
}

impl Expr {
    /// The mathematical value this node stands for.
    pub open spec fn model(&self) -> ExprV
        decreases self,
    {
        match self {
            Expr::Void => ExprV::Void,
            Expr::Constant(a) => ExprV::Constant(a.model()),
            Expr::Let(n, v) => ExprV::Let(n@, Box::new(v.model())),
            Expr::Call(n, args) => ExprV::Call(n@, exprs_model(args@)),
            Expr::Closure(ps, body) => ExprV::Closure(names_model(ps@), exprs_model(body@)),
        }
    }
}

/// The models of a sequence of expressions, in order.
pub open spec fn exprs_model(s: Seq<Expr>) -> Seq<ExprV>
    decreases s,
{
    if s.len() == 0 {
        Seq::empty()
    } else {
        seq![s[0].model()] + exprs_model(s.drop_first())
    }
}

/// The views of a sequence of identifiers, in order.
pub open spec fn names_model(s: Seq<String>) -> Seq<Seq<char>> {
    Seq::new(s.len(), |i: int| s[i]@)
}

/// `exprs_model` is the pointwise model of its argument.
pub proof fn lemma_exprs_model(s: Seq<Expr>)
    ensures
        exprs_model(s).len() == s.len(),
        forall|i: int| 0 <= i < s.len() ==> exprs_model(s)[i] == s[i].model(),
    decreases s.len(),
{
    if s.len() > 0 {
        lemma_exprs_model(s.drop_first());
    }
}

impl Clone for Atom {
    fn clone(&self) -> (res: Self)
        ensures
            res.model() == self.model(),
    {
        match self {
            Atom::String(s) => Atom::String(s.clone()),
            Atom::Name(s) => Atom::Name(s.clone()),
            Atom::Float(s) => Atom::Float(s.clone()),
        }
    }
}

impl Clone for Expr {
    fn clone(&self) -> (res: Self)
        ensures
            res.model() == self.model(),
        decreases self,
    {
        match self {
            Expr::Void => Expr::Void,
            Expr::Constant(a) => Expr::Constant(a.clone()),
            Expr::Let(n, v) => Expr::Let(n.clone(), Box::new((&**v).clone())),
            Expr::Call(n, args) => {
                let cloned_args = clone_exprs(args);
                proof {
                    lemma_exprs_model_pointwise(cloned_args@, args@);
                }
                Expr::Call(n.clone(), cloned_args)
            },
            Expr::Closure(ps, body) => {
                let cloned_ps = clone_names(ps);
                let cloned_body = clone_exprs(body);
                proof {
                    lemma_exprs_model_pointwise(cloned_body@, body@);
                    assert(names_model(cloned_ps@) =~= names_model(ps@));
                }
                Expr::Closure(cloned_ps, cloned_body)
            },
        }
    }
}

/// Clones each element of a vector of expressions.
fn clone_exprs(es: &Vec<Expr>) -> (res: Vec<Expr>)
    ensures
        res@.len() == es@.len(),
        forall|i: int| 0 <= i < es@.len() ==> res@[i].model() == es@[i].model(),
    decreases es,
{
    let mut res: Vec<Expr> = Vec::new();
    let mut i: usize = 0;
    while i < es.len()
        invariant
            i <= es@.len(),
            res@.len() == i,
            forall|j: int| 0 <= j < i ==> res@[j].model() == es@[j].model(),
        decreases es@.len() - i,
    {
        res.push(es[i].clone());
        i = i + 1;
    }
    res
}

/// Clones each identifier of a vector of names.
fn clone_names(ns: &Vec<String>) -> (res: Vec<String>)
    ensures
        res@.len() == ns@.len(),
        forall|i: int| 0 <= i < ns@.len() ==> res@[i]@ == ns@[i]@,
{
    let mut res: Vec<String> = Vec::new();
    let mut i: usize = 0;
    while i < ns.len()
        invariant
            i <= ns@.len(),
            res@.len() == i,
            forall|j: int| 0 <= j < i ==> res@[j]@ == ns@[j]@,
        decreases ns@.len() - i,
    {
        res.push(ns[i].clone());
        i = i + 1;
    }
    res
}

/// The plain text of an atom: a string quoted, a float as its source text,
/// a name as itself.
pub open spec fn text_of_atom(a: AtomV) -> Seq<char> {
    match a {
        AtomV::String(s) => "\""@ + s + "\""@,
        AtomV::Float(s) => s,
        AtomV::Name(s) => s,
    }
}

/// The plain text of an expression: a constant shows its atom, every other
/// node shows nothing.
pub open spec fn text_of(e: ExprV) -> Seq<char> {
    match e {
        ExprV::Constant(a) => text_of_atom(a),
        _ => Seq::empty(),
    }
}

impl Atom {
    /// The plain text of this atom, as `text_of_atom` states it.
    pub fn to_text(&self) -> (r: String)
        ensures
            r@ == text_of_atom(self.model()),
    {
        let mut r = String::new();
        match self {
            Atom::String(s) => {
                r.append("\"");
                r.append(s.as_str());
                r.append("\"");
            },
            Atom::Float(s) => {
                r.append(s.as_str());
            },
            Atom::Name(s) => {
                r.append(s.as_str());
            },
        }
        r
    }
}

impl Expr {
    /// The plain text of this node, as `text_of` states it.
    pub fn to_text(&self) -> (r: String)
        ensures
            r@ == text_of(self.model()),
    {
        match self {
            Expr::Constant(a) => a.to_text(),
            _ => String::new(),
        }
    }
}

/// The rendering of an atom's debug text: the variant name around the
/// payload, strings and names quoted, floats as their source text.
pub open spec fn render_atom(a: AtomV) -> Seq<char> {
    match a {
        AtomV::String(s) => "String(\""@ + s + "\")"@,
        AtomV::Name(s) => "Name(\""@ + s + "\")"@,
        AtomV::Float(s) => "Float("@ + s + ")"@,
    }
}

/// The debug text of an expression: the variant name around the rendered
/// fields, argument and body lists bracketed and comma-separated.
pub open spec fn render(e: ExprV) -> Seq<char>
    decreases e,
{
    match e {
        ExprV::Void => "Void"@,
        ExprV::Constant(a) => "Constant("@ + render_atom(a) + ")"@,
        ExprV::Let(n, v) => "Let(\""@ + n + "\", "@ + render(*v) + ")"@,
        ExprV::Call(n, args) => "Call(\""@ + n + "\", ["@ + render_list(args) + "])"@,
        ExprV::Closure(ps, body) => "Closure(["@ + render_names(ps) + "], ["@ + render_list(
            body,
        ) + "])"@,
    }
}

/// The renderings of a list of expressions, separated by a comma and a space.
pub open spec fn render_list(es: Seq<ExprV>) -> Seq<char>
    decreases es,
{
    if es.len() == 0 {
        Seq::empty()
    } else if es.len() == 1 {
        render(es[0])
    } else {
        render(es[0]) + ", "@ + render_list(es.drop_first())
    }
}

/// The quoted names of a parameter list, separated by a comma and a space.
pub open spec fn render_names(ns: Seq<Seq<char>>) -> Seq<char>
    decreases ns,
{
    if ns.len() == 0 {
        Seq::empty()
    } else if ns.len() == 1 {
        "\""@ + ns[0] + "\""@
    } else {
        "\""@ + ns[0] + "\", "@ + render_names(ns.drop_first())
    }
}

impl Atom {
    /// The debug text of this atom, as `render_atom` states it.
    pub fn debug_text(&self) -> (r: String)
        ensures
            r@ == render_atom(self.model()),
    {
        let mut r = String::new();
        match self {
            Atom::String(s) => {
                r.append("String(\"");
                r.append(s.as_str());
                r.append("\")");
            },
            Atom::Name(s) => {
                r.append("Name(\"");
                r.append(s.as_str());
                r.append("\")");
            },
            Atom::Float(s) => {
                r.append("Float(");
                r.append(s.as_str());
                r.append(")");
            },
        }
        r
    }
}

impl Expr {
    /// The debug text of this node, as `render` states it.
    pub fn debug_text(&self) -> (r: String)
        ensures
            r@ == render(self.model()),
        decreases self, 0nat,
    {
        match self {
            Expr::Void => {
                let mut r = String::new();
                r.append("Void");
                r
            },
            Expr::Constant(a) => {
                let mut r = String::new();
                r.append("Constant(");
                let inner = a.debug_text();
                r.append(inner.as_str());
                r.append(")");
                r
            },
            Expr::Let(n, v) => {
                let mut r = String::new();
                r.append("Let(\"");
                r.append(n.as_str());
                r.append("\", ");
                let inner = (&**v).debug_text();
                r.append(inner.as_str());
                r.append(")");
                r
            },
            Expr::Call(n, args) => {
                let mut r = String::new();
                r.append("Call(\"");
                r.append(n.as_str());
                r.append("\", [");
                let inner = debug_text_list(args, 0);
                proof {
                    assert(exprs_model(args@).skip(0) =~= exprs_model(args@));
                }
                r.append(inner.as_str());
                r.append("])");
                r
            },
            Expr::Closure(ps, body) => {
                let mut r = String::new();
                r.append("Closure([");
                let names = debug_text_names(ps);
                r.append(names.as_str());
                r.append("], [");
                let inner = debug_text_list(body, 0);
                proof {
                    assert(exprs_model(body@).skip(0) =~= exprs_model(body@));
                }
                r.append(inner.as_str());
                r.append("])");
                r
            },
        }
    }
}

/// The debug text of the elements of `es` from index `from` on,
/// separated by a comma and a space.
fn debug_text_list(es: &Vec<Expr>, from: usize) -> (r: String)
    requires
        from <= es@.len(),
    ensures
        r@ == render_list(exprs_model(es@).skip(from as int)),
    decreases es, es@.len() - from,
{
    proof {
        lemma_exprs_model(es@);
    }
    if from == es.len() {
        let r = String::new();
        assert(exprs_model(es@).skip(from as int) =~= Seq::<ExprV>::empty());
        r
    } else if from + 1 == es.len() {
        let r = es[from as usize].debug_text();
        proof {
            let tail = exprs_model(es@).skip(from as int);
            assert(tail.len() == 1);
            assert(tail[0] == es@[from as int].model());
        }
        r
    } else {
        let mut r = es[from as usize].debug_text();
        r.append(", ");
        let rest = debug_text_list(es, from + 1);
        r.append(rest.as_str());
        proof {
            let tail = exprs_model(es@).skip(from as int);
            assert(tail.len() >= 2);
            assert(tail[0] == es@[from as int].model());
            assert(tail.drop_first() =~= exprs_model(es@).skip(from as int + 1));
        }
        r
    }
}

/// The quoted parameter names of `ns`, separated by a comma and a space.
fn debug_text_names(ns: &Vec<String>) -> (r: String)
    ensures
        r@ == render_names(names_model(ns@)),
{
    let mut r = String::new();
    let mut i: usize = 0;
    while i < ns.len()
        invariant
            i <= ns@.len(),
            r@ == render_names_prefix_gap(ns@, i as int),
        decreases ns@.len() - i,
    {
        r.append("\"");
        r.append(ns[i].as_str());
        if i + 1 == ns.len() {
            r.append("\"");
        } else {
            r.append("\", ");
        }
        i = i + 1;
    }
    proof {
        lemma_render_names_prefix(ns@, ns@.len() as int);
    }
    r
}

/// The rendering of the first `i` names of `ns`, with the separator that
/// follows them when more names remain.
spec fn render_names_prefix_gap(ns: Seq<String>, i: int) -> Seq<char>
    decreases i,
{
    if i <= 0 {
        Seq::empty()
    } else if i == ns.len() {
        render_names_prefix_gap(ns, i - 1) + "\""@ + ns[i - 1]@ + "\""@
    } else {
        render_names_prefix_gap(ns, i - 1) + "\""@ + ns[i - 1]@ + "\", "@
    }
}

/// A completed prefix rendering is the rendering of the whole name list.
proof fn lemma_render_names_prefix(ns: Seq<String>, i: int)
    requires
        i == ns.len(),
    ensures
        render_names_prefix_gap(ns, i) == render_names(names_model(ns)),
{
    lemma_render_names_mid(ns, 0);
    assert(render_names_prefix_gap(ns, 0) + render_names(names_model(ns).skip(0))
        =~= render_names(names_model(ns).skip(0)));
    assert(names_model(ns).skip(0) =~= names_model(ns));
}

/// Peeling names off the front: the full rendering is any completed prefix
/// followed by the rendering of the remaining names.
proof fn lemma_render_names_mid(ns: Seq<String>, i: int)
    requires
        0 <= i <= ns.len(),
    ensures
        render_names_prefix_gap(ns, ns.len() as int) == render_names_prefix_gap(ns, i)
            + render_names(names_model(ns).skip(i)),
    decreases ns.len() - i,
{
    let n = ns.len() as int;
    if i == n {
        assert(names_model(ns).skip(i) =~= Seq::<Seq<char>>::empty());
        assert(render_names_prefix_gap(ns, i) + Seq::<char>::empty() =~= render_names_prefix_gap(
            ns,
            i,
        ));
    } else {
        lemma_render_names_mid(ns, i + 1);
        let tail = names_model(ns).skip(i);
        assert(tail[0] == ns[i]@);
        if i + 1 == n {
            assert(tail.len() == 1);
            assert(render_names(tail) == "\""@ + ns[i]@ + "\""@);
            assert(render_names_prefix_gap(ns, i + 1) == render_names_prefix_gap(ns, i) + "\""@
                + ns[i]@ + "\""@);
            assert(names_model(ns).skip(i + 1) =~= Seq::<Seq<char>>::empty());
            assert(render_names_prefix_gap(ns, i) + ("\""@ + ns[i]@ + "\""@) + Seq::<char>::empty()
                =~= render_names_prefix_gap(ns, i) + ("\""@ + ns[i]@ + "\""@));
            assert(render_names_prefix_gap(ns, i) + ("\""@ + ns[i]@ + "\""@)
                =~= render_names_prefix_gap(ns, i) + render_names(tail));
        } else {
            assert(tail.len() >= 2);
            assert(tail.drop_first() =~= names_model(ns).skip(i + 1));
            assert(render_names(tail) == "\""@ + tail[0] + "\""@ + ", "@ + render_names(
                tail.drop_first(),
            )) by {
                assert(render_names(tail) == "\""@ + tail[0] + "\", "@ + render_names(
                    tail.drop_first(),
                ));
                assert("\""@ + tail[0] + "\", "@ =~= "\""@ + tail[0] + "\""@ + ", "@) by {
                    reveal_strlit("\", ");
                    reveal_strlit("\"");
                    reveal_strlit(", ");
                }
            }
            assert(render_names_prefix_gap(ns, i + 1) == render_names_prefix_gap(ns, i) + "\""@
                + ns[i]@ + "\", "@);
            assert(render_names_prefix_gap(ns, i) + "\""@ + ns[i]@ + "\", "@ + render_names(
                names_model(ns).skip(i + 1),
            ) =~= render_names_prefix_gap(ns, i) + render_names(tail)) by {
                reveal_strlit("\", ");
                reveal_strlit("\"");
                reveal_strlit(", ");
            }
        }
    }
}

/// Sequences whose elements have equal models have equal model sequences.
pub proof fn lemma_exprs_model_pointwise(a: Seq<Expr>, b: Seq<Expr>)
    requires
        a.len() == b.len(),
        forall|i: int| 0 <= i < a.len() ==> a[i].model() == b[i].model(),
    ensures
        exprs_model(a) == exprs_model(b),
{
    lemma_exprs_model(a);
    lemma_exprs_model(b);
    assert(exprs_model(a) =~= exprs_model(b));
}

} // verus!
