//! The non-ground programs the answer-set layer reads: rules whose atoms carry
//! terms (variables, constants, integers, and the aggregate and compound terms
//! it cannot ground), and the keys by which ground values and atoms are
//! compared by content.
use vstd::prelude::*;
use crate::asp::{GroundAtom, Val};
use crate::asp::order::{ord_str, ord_val, ord_char, lex, sign};

verus! {

/// A term of a rule's atom.
#[derive(Debug, Clone, PartialEq)]
pub enum Term {
    /// A variable, by name.
    Var { name: String },
    /// A symbolic constant.
    Const { name: String },
    /// An integer constant.
    Int { value: i64 },
    /// An aggregate term.
    Agg,
    /// A compound (function) term.
    Compound,
}

/// `pred(args…)`.
#[derive(Debug, Clone, PartialEq)]
pub struct Atom {
    pub pred: String,
    pub args: Vec<Term>,
}

/// A body literal.
#[derive(Debug, Clone, PartialEq)]
pub enum Literal {
    Pos(Atom),
    Neg(Atom),
}

/// `head :- body`.
#[derive(Debug, Clone, PartialEq)]
pub struct Rule {
    pub head: Atom,
    pub body: Vec<Literal>,
}

/// The atom `pred(args…)`.
pub fn atom(pred: &str, args: Vec<Term>) -> (a: Atom)
    ensures
        a.pred@ == pred@,
        a.args@ == args@,
{
    Atom { pred: String::from_str(pred), args }
}

/// The variable `name`.
pub fn var(name: &str) -> (t: Term)
    ensures
        t matches Term::Var { name: n } && n@ == name@,
{
    Term::Var { name: String::from_str(name) }
}

/// The atom of a literal.
pub open spec fn lit_atom(l: Literal) -> Atom {
    match l {
        Literal::Pos(a) => a,
        Literal::Neg(a) => a,
    }
}

/// A value by content: whether it is a symbol, its name, its integer.
pub type ValKey = (bool, Seq<char>, int);

pub open spec fn vkey(v: Val) -> ValKey {
    match v {
        Val::Sym(s) => (true, s@, 0),
        Val::Int(i) => (false, Seq::empty(), i as int),
    }
}

/// The content keys of a list of values.
pub open spec fn vkeys(vs: Seq<Val>) -> Seq<ValKey> {
    vs.map_values(|v: Val| vkey(v))
}

/// A ground atom by content.
pub type AtomKey = (Seq<char>, Seq<ValKey>);

pub open spec fn akey(a: GroundAtom) -> AtomKey {
    (a.0@, vkeys(a.1@))
}

/// The order of values, on keys: symbols by name before integers by value.
pub open spec fn ord_vk(a: ValKey, b: ValKey) -> int {
    if a.0 && b.0 {
        ord_str(a.1, b.1)
    } else if a.0 {
        -1
    } else if b.0 {
        1
    } else {
        sign(a.2 - b.2)
    }
}

/// Strings compare equal exactly when they are equal.
pub(crate) proof fn lemma_ord_str_eq(a: Seq<char>, b: Seq<char>)
    ensures
        (ord_str(a, b) == 0) == (a == b),
    decreases a.len(),
{
    if a.len() > 0 && b.len() > 0 {
        lemma_ord_str_eq(a.drop_first(), b.drop_first());
        if a == b {
            assert(a.drop_first() == b.drop_first());
        }
        if ord_str(a, b) == 0 {
            assert(ord_char()(a[0], b[0]) == 0);
            assert(a[0] as int == b[0] as int);
            assert(a =~= seq![a[0]] + a.drop_first());
            assert(b =~= seq![b[0]] + b.drop_first());
        }
    } else if a.len() == 0 && b.len() == 0 {
        assert(a =~= b);
    } else {
        assert(a.len() != b.len());
    }
}

/// Values compare equal exactly when their keys are equal.
pub(crate) proof fn lemma_ord_val_key(a: Val, b: Val)
    ensures
        (ord_val(a, b) == 0) == (vkey(a) == vkey(b)),
        ord_val(a, b) == ord_vk(vkey(a), vkey(b)),
{
    if let (Val::Sym(x), Val::Sym(y)) = (a, b) {
        lemma_ord_str_eq(x@, y@);
    }
}

/// A term by content: its kind (variable, constant, integer, aggregate,
/// compound), its name and its value.
pub type TermV = (int, Seq<char>, int);

pub open spec fn tview(t: Term) -> TermV {
    match t {
        Term::Var { name } => (0, name@, 0),
        Term::Const { name } => (1, name@, 0),
        Term::Int { value } => (2, Seq::empty(), value as int),
        Term::Agg => (3, Seq::empty(), 0),
        Term::Compound => (4, Seq::empty(), 0),
    }
}

/// An atom by content.
pub type AtomV = (Seq<char>, Seq<TermV>);

pub open spec fn aview(a: Atom) -> AtomV {
    (a.pred@, a.args@.map_values(|t: Term| tview(t)))
}

/// A literal by content: positive or not, and its atom.
pub type LitV = (bool, AtomV);

pub open spec fn lview(l: Literal) -> LitV {
    match l {
        Literal::Pos(a) => (true, aview(a)),
        Literal::Neg(a) => (false, aview(a)),
    }
}

/// A body by content.
pub open spec fn bview(b: Seq<Literal>) -> Seq<LitV> {
    b.map_values(|l: Literal| lview(l))
}

/// A rule by content.
pub type RuleV = (AtomV, Seq<LitV>);

pub open spec fn rview(r: Rule) -> RuleV {
    (aview(r.head), bview(r.body@))
}

/// A copy of a term.
pub(crate) fn copy_term(t: &Term) -> (r: Term)
    ensures
        tview(r) == tview(*t),
{
    match t {
        Term::Var { name } => Term::Var { name: name.clone() },
        Term::Const { name } => Term::Const { name: name.clone() },
        Term::Int { value } => Term::Int { value: *value },
        Term::Agg => Term::Agg,
        Term::Compound => Term::Compound,
    }
}

/// A copy of a list of terms.
pub(crate) fn copy_terms(ts: &Vec<Term>) -> (r: Vec<Term>)
    ensures
        r@.map_values(|t: Term| tview(t)) == ts@.map_values(|t: Term| tview(t)),
{
    let mut r: Vec<Term> = Vec::new();
    let mut i: usize = 0;
    while i < ts.len()
        invariant
            i <= ts@.len(),
            r@.map_values(|t: Term| tview(t)) == ts@.take(i as int).map_values(|t: Term| tview(t)),
        decreases ts@.len() - i,
    {
        let t = copy_term(&ts[i]);
        let ghost r0 = r@;
        r.push(t);
        proof {
            assert(r@.map_values(|t: Term| tview(t)) =~= r0.map_values(|t: Term| tview(t)).push(tview(t)));
            assert(ts@.take(i + 1).map_values(|t: Term| tview(t)) =~= ts@.take(i as int).map_values(|t: Term| tview(t)).push(tview(ts@[i as int])));
        }
        i = i + 1;
    }
    assert(ts@.take(i as int) =~= ts@);
    r
}

/// A copy of an atom.
pub(crate) fn copy_atom_v(a: &Atom) -> (r: Atom)
    ensures
        aview(r) == aview(*a),
{
    Atom { pred: a.pred.clone(), args: copy_terms(&a.args) }
}

/// A copy of a literal.
pub(crate) fn copy_lit(l: &Literal) -> (r: Literal)
    ensures
        lview(r) == lview(*l),
{
    match l {
        Literal::Pos(a) => Literal::Pos(copy_atom_v(a)),
        Literal::Neg(a) => Literal::Neg(copy_atom_v(a)),
    }
}

/// A copy of a body.
pub(crate) fn copy_body(b: &Vec<Literal>) -> (r: Vec<Literal>)
    ensures
        bview(r@) == bview(b@),
{
    let mut r: Vec<Literal> = Vec::new();
    let mut i: usize = 0;
    while i < b.len()
        invariant
            i <= b@.len(),
            bview(r@) == bview(b@.take(i as int)),
        decreases b@.len() - i,
    {
        let l = copy_lit(&b[i]);
        let ghost r0 = r@;
        r.push(l);
        proof {
            assert(bview(r@) =~= bview(r0).push(lview(l)));
            assert(bview(b@.take(i + 1)) =~= bview(b@.take(i as int)).push(lview(b@[i as int])));
        }
        i = i + 1;
    }
    assert(b@.take(i as int) =~= b@);
    r
}

} // verus!
