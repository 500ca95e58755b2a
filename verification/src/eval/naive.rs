//! The interpreter's per-atom work: matching an atom against a ground tuple
//! under a binding, building ground tuples from a binding, solving a rule body
//! (also with one literal ranging over delta rows), and evaluating an
//! aggregate rule by grouping its bindings and folding each group.
use vstd::prelude::*;
use crate::eval::coreir::{CoreAtom, CoreLiteral, CorePred, CoreRule, CoreTerm, term_value};
use crate::eval::store::{Db, DbS, Tuple, dbs, insert_s, rows_v};
use crate::eval::value::{Ann, ann_otimes, same_kind};
use crate::text::same_text;
use crate::eval::value::{GroundVal, TropOverflow};
use crate::front::ir::AggOp;

verus! {

/// What stops the interpreter.
#[derive(Debug, PartialEq)]
pub enum EvalError {
    /// A predicate without a relation.
    UnknownPred(String),
    /// A tropical `⊗` overflowed.
    Overflow(TropOverflow),
    /// A head variable slot the body never bound.
    UnsafeHeadVar(u32),
    /// A negated literal's variable unbound when reached.
    UnsafeNegVar(u32),
    /// A negated predicate not in a strictly lower stratum.
    NegationNotStratified { pred: String },
    /// A tropical stratum that does not converge: a negative-weight cycle.
    NegativeWeightCycle,
    /// An aggregate body predicate not in a strictly lower stratum.
    AggregateInRecursion { pred: String },
    /// An aggregate head without exactly one aggregate term.
    MalformedAggregateHead,
    /// `sum`, `min` and `max` need integer aggregands.
    NonIntegerAggregand,
    /// A construct the interpreter does not run.
    Unsupported(Unsupported),
    /// The round counter of a saturation reached `usize::MAX`.
    RoundLimit,
    /// A `sum` or `count` aggregate left `i64`.
    AggregateOverflow,
}

/// The constructs the interpreter does not run.
#[derive(Debug, Clone, Copy, PartialEq, Eq, Structural)]
pub enum Unsupported {
    /// An aggregate term outside a head's aggregate position.
    AggregateInAtomPosition,
    /// The probabilistic `prob_or` aggregate.
    ProbOrAggregate,
}

/// Matching one term against one value: a bound variable must agree, an
/// unbound one takes the value, a constant or integer must be that value, an
/// aggregate never matches.
pub open spec fn unify_step(t: CoreTerm, v: GroundVal, b: Seq<Option<GroundVal>>) -> Option<Seq<Option<GroundVal>>> {
    match t {
        CoreTerm::Var { slot } => match b[slot as int] {
            Some(x) => if x == v { Some(b) } else { None },
            None => Some(b.update(slot as int, Some(v))),
        },
        CoreTerm::Const { sym } => if v == GroundVal::Sym(sym) { Some(b) } else { None },
        CoreTerm::Int { value } => if v == GroundVal::Int(value) { Some(b) } else { None },
        CoreTerm::Agg { .. } => None,
    }
}

/// Matching the first `k` terms, left to right.
pub open spec fn unify_upto(args: Seq<CoreTerm>, tuple: Seq<GroundVal>, b: Seq<Option<GroundVal>>, k: nat) -> Option<Seq<Option<GroundVal>>>
    decreases k,
{
    if k == 0 {
        Some(b)
    } else {
        match unify_upto(args, tuple, b, (k - 1) as nat) {
            None => None,
            Some(b1) => unify_step(args[k - 1], tuple[k - 1], b1),
        }
    }
}

/// The binding that makes the atom's terms match the tuple, if any.
pub open spec fn unify_spec(args: Seq<CoreTerm>, tuple: Seq<GroundVal>, b: Seq<Option<GroundVal>>) -> Option<Seq<Option<GroundVal>>> {
    if args.len() != tuple.len() { None } else { unify_upto(args, tuple, b, args.len()) }
}

/// Every variable slot of the terms lies inside a binding of length `n`.
pub open spec fn slots_below(args: Seq<CoreTerm>, n: nat) -> bool {
    forall|i: int| 0 <= i < args.len() ==> match #[trigger] args[i] {
        CoreTerm::Var { slot } => slot < n,
        CoreTerm::Agg { slot, .. } => slot < n,
        _ => true,
    }
}

proof fn lemma_unify_none_extends(args: Seq<CoreTerm>, tuple: Seq<GroundVal>, b: Seq<Option<GroundVal>>, k: nat, n: nat)
    requires
        k <= n,
        unify_upto(args, tuple, b, k) is None,
    ensures
        unify_upto(args, tuple, b, n) is None,
    decreases n - k,
{
    if k < n {
        lemma_unify_none_extends(args, tuple, b, k, (n - 1) as nat);
    }
}

/// Match an atom's terms against a ground tuple, extending `binding`.
/// Returns whether they match; then `binding` holds the extended binding.
pub fn unify(args: &Vec<CoreTerm>, tuple: &Vec<GroundVal>, binding: &mut Vec<Option<GroundVal>>) -> (ok: bool)
    requires
        slots_below(args@, old(binding)@.len()),
    ensures
        ok == unify_spec(args@, tuple@, old(binding)@) is Some,
        ok ==> final(binding)@ == unify_spec(args@, tuple@, old(binding)@)->0,
        final(binding)@.len() == old(binding)@.len(),
{
    if args.len() != tuple.len() {
        return false;
    }
    let ghost b0 = binding@;
    assert(b0 == old(binding)@);
    let mut i: usize = 0;
    while i < args.len()
        invariant
            i <= args@.len(),
            args@.len() == tuple@.len(),
            slots_below(args@, b0.len()),
            b0 == old(binding)@,
            unify_upto(args@, tuple@, b0, i as nat) == Some(binding@),
            binding@.len() == b0.len(),
        decreases args@.len() - i,
    {
        let val = tuple[i];
        let t = args[i];
        assert(args@[i as int] == t);
        match t {
            CoreTerm::Var { slot } => {
                let s = slot as usize;
                match binding[s] {
                    Some(bound) => {
                        if bound != val {
                            proof { lemma_unify_none_extends(args@, tuple@, b0, (i + 1) as nat, args@.len()); }
                            return false;
                        }
                    },
                    None => {
                        binding.set(s, Some(val));
                    },
                }
            },
            CoreTerm::Const { sym } => {
                if val != GroundVal::Sym(sym) {
                    proof { lemma_unify_none_extends(args@, tuple@, b0, (i + 1) as nat, args@.len()); }
                    return false;
                }
            },
            CoreTerm::Int { value } => {
                if val != GroundVal::Int(value) {
                    proof { lemma_unify_none_extends(args@, tuple@, b0, (i + 1) as nat, args@.len()); }
                    return false;
                }
            },
            CoreTerm::Agg { .. } => {
                proof { lemma_unify_none_extends(args@, tuple@, b0, (i + 1) as nat, args@.len()); }
                return false;
            },
        }
        i = i + 1;
    }
    true
}

/// The ground tuple of an atom under a binding; the first unbound variable
/// (in argument order) or aggregate is reported.
pub open spec fn ground_spec(args: Seq<CoreTerm>, b: Seq<Option<GroundVal>>, negated: bool) -> Result<Seq<GroundVal>, EvalError>
    decreases args.len(),
{
    if args.len() == 0 {
        Ok(Seq::empty())
    } else {
        match ground_spec(args.drop_last(), b, negated) {
            Err(e) => Err(e),
            Ok(prefix) => match args.last() {
                CoreTerm::Agg { .. } => Err(EvalError::Unsupported(Unsupported::AggregateInAtomPosition)),
                t => match term_value(t, b) {
                    Some(v) => Ok(prefix.push(v)),
                    None => Err(if negated { EvalError::UnsafeNegVar(t->Var_slot) } else { EvalError::UnsafeHeadVar(t->Var_slot) }),
                },
            },
        }
    }
}

/// Build the ground tuple of `atom` under `binding`; `negated` picks the
/// error for an unbound variable.
pub fn ground_atom(atom: &CoreAtom, binding: &Vec<Option<GroundVal>>, negated: bool) -> (r: Result<Vec<GroundVal>, EvalError>)
    requires
        slots_below(atom.args@, binding@.len()),
    ensures
        match r {
            Ok(t) => ground_spec(atom.args@, binding@, negated) == Ok::<Seq<GroundVal>, EvalError>(t@),
            Err(e) => ground_spec(atom.args@, binding@, negated) == Err::<Seq<GroundVal>, EvalError>(e),
        },
{
    let mut tuple: Vec<GroundVal> = Vec::new();
    let mut i: usize = 0;
    while i < atom.args.len()
        invariant
            i <= atom.args@.len(),
            slots_below(atom.args@, binding@.len()),
            ground_spec(atom.args@.take(i as int), binding@, negated) == Ok::<Seq<GroundVal>, EvalError>(tuple@),
        decreases atom.args@.len() - i,
    {
        let t = atom.args[i];
        assert(atom.args@.take(i + 1).drop_last() =~= atom.args@.take(i as int));
        assert(atom.args@.take(i + 1).last() == t);
        match t {
            CoreTerm::Var { slot } => match binding[slot as usize] {
                Some(v) => tuple.push(v),
                None => {
                    proof { lemma_ground_err_extends(atom.args@, binding@, negated, i + 1); }
                    return Err(if negated { EvalError::UnsafeNegVar(slot) } else { EvalError::UnsafeHeadVar(slot) });
                },
            },
            CoreTerm::Const { sym } => tuple.push(GroundVal::Sym(sym)),
            CoreTerm::Int { value } => tuple.push(GroundVal::Int(value)),
            CoreTerm::Agg { .. } => {
                proof { lemma_ground_err_extends(atom.args@, binding@, negated, i + 1); }
                return Err(EvalError::Unsupported(Unsupported::AggregateInAtomPosition));
            },
        }
        i = i + 1;
    }
    assert(atom.args@.take(atom.args@.len() as int) =~= atom.args@);
    Ok(tuple)
}

proof fn lemma_ground_err_extends(args: Seq<CoreTerm>, b: Seq<Option<GroundVal>>, negated: bool, k: int)
    requires
        0 < k <= args.len(),
        ground_spec(args.take(k), b, negated) is Err,
    ensures
        ground_spec(args, b, negated) == ground_spec(args.take(k), b, negated),
    decreases args.len() - k,
{
    if k < args.len() {
        assert(args.take(k + 1).drop_last() =~= args.take(k));
        lemma_ground_err_extends(args, b, negated, k + 1);
    } else {
        assert(args.take(k) =~= args);
    }
}

/// The ground tuple of a rule head under a complete binding.
pub fn build_head(head: &CoreAtom, binding: &Vec<Option<GroundVal>>) -> (r: Result<Vec<GroundVal>, EvalError>)
    requires
        slots_below(head.args@, binding@.len()),
    ensures
        match r {
            Ok(t) => ground_spec(head.args@, binding@, false) == Ok::<Seq<GroundVal>, EvalError>(t@),
            Err(e) => ground_spec(head.args@, binding@, false) == Err::<Seq<GroundVal>, EvalError>(e),
        },
{
    ground_atom(head, binding, false)
}

/// The value of a non-aggregate head argument under a binding.
pub fn head_arg_value(arg: &CoreTerm, binding: &Vec<Option<GroundVal>>) -> (r: Result<GroundVal, EvalError>)
    requires
        arg matches CoreTerm::Var { slot } ==> slot < binding@.len(),
    ensures
        r == match *arg {
            CoreTerm::Agg { .. } => Err(EvalError::MalformedAggregateHead),
            CoreTerm::Var { slot } => match binding@[slot as int] {
                Some(v) => Ok(v),
                None => Err(EvalError::UnsafeHeadVar(slot)),
            },
            t => Ok(term_value(t, binding@)->0),
        },
{
    match arg {
        CoreTerm::Var { slot } => match binding[*slot as usize] {
            Some(v) => Ok(v),
            None => Err(EvalError::UnsafeHeadVar(*slot)),
        },
        CoreTerm::Const { sym } => Ok(GroundVal::Sym(*sym)),
        CoreTerm::Int { value } => Ok(GroundVal::Int(*value)),
        CoreTerm::Agg { .. } => Err(EvalError::MalformedAggregateHead),
    }
}

/// Every value is an integer.
pub open spec fn all_ints(vals: Seq<GroundVal>) -> bool {
    forall|i: int| 0 <= i < vals.len() ==> #[trigger] vals[i] is Int
}

/// The sum of the first `k` values (integers).
pub open spec fn int_sum(vals: Seq<GroundVal>, k: nat) -> int
    decreases k,
{
    if k == 0 { 0 } else { int_sum(vals, (k - 1) as nat) + vals[k - 1]->Int_0 }
}

/// The least of the first `k >= 1` values (integers).
pub open spec fn int_min(vals: Seq<GroundVal>, k: nat) -> int
    decreases k,
{
    if k <= 1 { vals[0]->Int_0 as int } else {
        let m = int_min(vals, (k - 1) as nat);
        if (vals[k - 1]->Int_0 as int) < m { vals[k - 1]->Int_0 as int } else { m }
    }
}

/// The greatest of the first `k >= 1` values (integers).
pub open spec fn int_max(vals: Seq<GroundVal>, k: nat) -> int
    decreases k,
{
    if k <= 1 { vals[0]->Int_0 as int } else {
        let m = int_max(vals, (k - 1) as nat);
        if (vals[k - 1]->Int_0 as int) > m { vals[k - 1]->Int_0 as int } else { m }
    }
}

/// What an aggregate folds its values to.
/// Every prefix sum of the integers lies in `i64`.
pub open spec fn sum_fits(vals: Seq<GroundVal>) -> bool {
    forall|k: nat| k <= vals.len() ==> i64::MIN <= #[trigger] int_sum(vals, k) <= i64::MAX
}

pub open spec fn fold_spec(op: AggOp, vals: Seq<GroundVal>) -> Result<int, EvalError> {
    match op {
        AggOp::Count => if vals.len() <= i64::MAX { Ok(vals.len() as int) } else { Err(EvalError::AggregateOverflow) },
        AggOp::ProbOr => Err(EvalError::Unsupported(Unsupported::ProbOrAggregate)),
        _ => if !all_ints(vals) {
            Err(EvalError::NonIntegerAggregand)
        } else {
            match op {
                AggOp::Sum => if sum_fits(vals) { Ok(int_sum(vals, vals.len())) } else { Err(EvalError::AggregateOverflow) },
                AggOp::Min => if vals.len() == 0 { Err(EvalError::NonIntegerAggregand) } else { Ok(int_min(vals, vals.len())) },
                _ => if vals.len() == 0 { Err(EvalError::NonIntegerAggregand) } else { Ok(int_max(vals, vals.len())) },
            }
        },
    }
}

/// Fold an aggregate: `count` counts, `sum`/`min`/`max` need integers (and
/// `min`/`max` at least one), `prob_or` is not run here.
pub fn fold_aggregate(op: AggOp, vals: &Vec<GroundVal>) -> (r: Result<i64, EvalError>)
    ensures
        match r {
            Ok(v) => fold_spec(op, vals@) == Ok::<int, EvalError>(v as int),
            Err(e) => fold_spec(op, vals@) == Err::<int, EvalError>(e),
        },
{
    match op {
        AggOp::Count => {
            if vals.len() as u64 > i64::MAX as u64 {
                return Err(EvalError::AggregateOverflow);
            }
            return Ok(vals.len() as i64);
        },
        AggOp::ProbOr => return Err(EvalError::Unsupported(Unsupported::ProbOrAggregate)),
        _ => {},
    }
    let mut i: usize = 0;
    while i < vals.len()
        invariant
            i <= vals@.len(),
            op != AggOp::Count && op != AggOp::ProbOr,
            forall|k: int| 0 <= k < i ==> #[trigger] vals@[k] is Int,
        decreases vals@.len() - i,
    {
        if let GroundVal::Sym(_) = vals[i] {
            assert(!(vals@[i as int] is Int));
            assert(!all_ints(vals@));
            return Err(EvalError::NonIntegerAggregand);
        }
        i = i + 1;
    }
    assert(all_ints(vals@));
    match op {
        AggOp::Sum => {
            let mut s: i64 = 0;
            let mut k: usize = 0;
            while k < vals.len()
                invariant
                    k <= vals@.len(),
                    all_ints(vals@),
                    op == AggOp::Sum,
                    forall|j: nat| j <= k ==> i64::MIN <= #[trigger] int_sum(vals@, j) <= i64::MAX,
                    s == int_sum(vals@, k as nat),
                decreases vals@.len() - k,
            {
                assert(vals@[k as int] is Int);
                let x = match vals[k] { GroundVal::Int(n) => n, GroundVal::Sym(_) => 0 };
                assert(int_sum(vals@, (k + 1) as nat) == s + x);
                match s.checked_add(x) {
                    Some(n) => { s = n; },
                    None => {
                        assert(!(i64::MIN <= int_sum(vals@, (k + 1) as nat) <= i64::MAX));
                        assert(!sum_fits(vals@));
                        assert(all_ints(vals@));
                        assert(op == AggOp::Sum);
                        assert(fold_spec(op, vals@) == Err::<int, EvalError>(EvalError::AggregateOverflow));
                        return Err(EvalError::AggregateOverflow);
                    },
                }
                k = k + 1;
            }
            assert(sum_fits(vals@));
            Ok(s)
        },
        _ => {
            assert(op == AggOp::Min || op == AggOp::Max);
            if vals.len() == 0 {
                return Err(EvalError::NonIntegerAggregand);
            }
            let is_min = op == AggOp::Min;
            assert(vals@[0] is Int);
            let mut m: i64 = match vals[0] { GroundVal::Int(n) => n, GroundVal::Sym(_) => 0 };
            let mut k: usize = 1;
            while k < vals.len()
                invariant
                    1 <= k <= vals@.len(),
                    all_ints(vals@),
                    is_min == (op == AggOp::Min),
                    is_min ==> m == int_min(vals@, k as nat),
                    !is_min ==> m == int_max(vals@, k as nat),
                decreases vals@.len() - k,
            {
                assert(vals@[k as int] is Int);
                let x = match vals[k] { GroundVal::Int(n) => n, GroundVal::Sym(_) => 0 };
                if is_min {
                    if x < m { m = x; }
                } else {
                    if x > m { m = x; }
                }
                k = k + 1;
            }
            Ok(m)
        },
    }
}

} // verus!

verus! {

/// An evaluation error by content.
pub enum ErrV {
    UnknownPred(Seq<char>),
    Overflow,
    UnsafeHeadVar(u32),
    UnsafeNegVar(u32),
    NegationNotStratified(Seq<char>),
    NegativeWeightCycle,
    AggregateInRecursion(Seq<char>),
    MalformedAggregateHead,
    NonIntegerAggregand,
    Unsupported(Unsupported),
    RoundLimit,
    AggregateOverflow,
}

pub open spec fn ev(e: EvalError) -> ErrV {
    match e {
        EvalError::UnknownPred(p) => ErrV::UnknownPred(p@),
        EvalError::Overflow(_) => ErrV::Overflow,
        EvalError::UnsafeHeadVar(s) => ErrV::UnsafeHeadVar(s),
        EvalError::UnsafeNegVar(s) => ErrV::UnsafeNegVar(s),
        EvalError::NegationNotStratified { pred } => ErrV::NegationNotStratified(pred@),
        EvalError::NegativeWeightCycle => ErrV::NegativeWeightCycle,
        EvalError::AggregateInRecursion { pred } => ErrV::AggregateInRecursion(pred@),
        EvalError::MalformedAggregateHead => ErrV::MalformedAggregateHead,
        EvalError::NonIntegerAggregand => ErrV::NonIntegerAggregand,
        EvalError::Unsupported(u) => ErrV::Unsupported(u),
        EvalError::RoundLimit => ErrV::RoundLimit,
        EvalError::AggregateOverflow => ErrV::AggregateOverflow,
    }
}

/// The stratum of the last declaration of `name`.
pub open spec fn stratum_of(preds: Seq<CorePred>, name: Seq<char>) -> Option<u32>
    decreases preds.len(),
{
    if preds.len() == 0 {
        None
    } else if preds.last().name@ == name {
        Some(preds.last().stratum)
    } else {
        stratum_of(preds.drop_last(), name)
    }
}

/// The stratum a predicate is declared in (its last declaration).
pub fn pred_stratum(preds: &Vec<CorePred>, name: &str) -> (r: Option<u32>)
    ensures
        r == stratum_of(preds@, name@),
{
    let mut i: usize = preds.len();
    assert(preds@.take(i as int) =~= preds@);
    while i > 0
        invariant
            i <= preds@.len(),
            stratum_of(preds@, name@) == stratum_of(preds@.take(i as int), name@),
        decreases i,
    {
        let p = &preds[i - 1];
        assert(preds@.take(i as int).drop_last() =~= preds@.take(i - 1));
        assert(preds@.take(i as int).last() == *p);
        if same_text(p.name.as_str(), name) {
            return Some(p.stratum);
        }
        i = i - 1;
    }
    assert(preds@.take(0) =~= Seq::<CorePred>::empty());
    None
}

/// Completed bindings with their annotation products, by content.
pub type Solved = Seq<(Seq<Option<GroundVal>>, Ann)>;

pub open spec fn outs_view(out: Seq<(Vec<Option<GroundVal>>, Ann)>) -> Solved {
    out.map_values(|x: (Vec<Option<GroundVal>>, Ann)| (x.0@, x.1))
}

/// The completed bindings of `body[idx..]` from binding `b` with product
/// `acc`, in the order the rows are met, or the first error met.
pub open spec fn solve_spec(db: Db, preds: Seq<CorePred>, cur: u32, body: Seq<CoreLiteral>, idx: nat, b: Seq<Option<GroundVal>>, acc: Ann) -> Result<Solved, ErrV>
    decreases 2 * (body.len() - idx) + 1, 0nat,
{
    if idx >= body.len() {
        Ok(seq![(b, acc)])
    } else {
        match body[idx as int] {
            CoreLiteral::Pos(atom) => if !db.preds().contains(atom.pred@) {
                Err(ErrV::UnknownPred(atom.pred@))
            } else {
                rows_upto(db, preds, cur, body, idx, b, acc, db.rel(atom.pred@).rows@.len())
            },
            CoreLiteral::Neg(atom) => match stratum_of(preds, atom.pred@) {
                None => Err(ErrV::UnknownPred(atom.pred@)),
                Some(ns) => if ns >= cur {
                    Err(ErrV::NegationNotStratified(atom.pred@))
                } else {
                    match ground_spec(atom.args@, b, true) {
                        Err(e) => Err(ev(e)),
                        Ok(t) => if !db.preds().contains(atom.pred@) {
                            Err(ErrV::UnknownPred(atom.pred@))
                        } else if db.rel(atom.pred@).view().dom().contains(t) {
                            Ok(Seq::empty())
                        } else {
                            solve_spec(db, preds, cur, body, idx + 1, b, acc)
                        },
                    }
                },
            },
        }
    }
}

/// The bindings that row `k` of the positive literal `body[idx]` leads to.
pub open spec fn row_step(db: Db, preds: Seq<CorePred>, cur: u32, body: Seq<CoreLiteral>, idx: nat, b: Seq<Option<GroundVal>>, acc: Ann, k: int) -> Result<Solved, ErrV>
    decreases 2 * (body.len() - idx), 0nat,
{
    if idx < body.len() && body[idx as int] is Pos {
        let atom = body[idx as int]->Pos_0;
        let row = db.rel(atom.pred@).rows@[k];
        match unify_spec(atom.args@, row.0@, b) {
            None => Ok(Seq::empty()),
            Some(b2) => match ann_otimes(acc, row.1) {
                None => Err(ErrV::Overflow),
                Some(a2) => solve_spec(db, preds, cur, body, idx + 1, b2, a2),
            },
        }
    } else {
        Ok(Seq::empty())
    }
}

/// The bindings of the first `k` rows of the positive literal `body[idx]`.
pub open spec fn rows_upto(db: Db, preds: Seq<CorePred>, cur: u32, body: Seq<CoreLiteral>, idx: nat, b: Seq<Option<GroundVal>>, acc: Ann, k: nat) -> Result<Solved, ErrV>
    decreases 2 * (body.len() - idx), k + 1,
{
    if k == 0 {
        Ok(Seq::empty())
    } else {
        match rows_upto(db, preds, cur, body, idx, b, acc, (k - 1) as nat) {
            Err(e) => Err(e),
            Ok(s) => match row_step(db, preds, cur, body, idx, b, acc, k - 1) {
                Err(e) => Err(e),
                Ok(s1) => Ok(s + s1),
            },
        }
    }
}

proof fn lemma_rows_err_extends(db: Db, preds: Seq<CorePred>, cur: u32, body: Seq<CoreLiteral>, idx: nat, b: Seq<Option<GroundVal>>, acc: Ann, k: nat, n: nat)
    requires
        k <= n,
        rows_upto(db, preds, cur, body, idx, b, acc, k) is Err,
    ensures
        rows_upto(db, preds, cur, body, idx, b, acc, n) == rows_upto(db, preds, cur, body, idx, b, acc, k),
    decreases n - k,
{
    if k < n {
        lemma_rows_err_extends(db, preds, cur, body, idx, b, acc, k, (n - 1) as nat);
    }
}

/// The literals' variable slots lie inside bindings of length `n`.
pub open spec fn body_slots_below(body: Seq<CoreLiteral>, n: nat) -> bool {
    forall|i: int| 0 <= i < body.len() ==> match #[trigger] body[i] {
        CoreLiteral::Pos(a) => slots_below(a.args@, n),
        CoreLiteral::Neg(a) => slots_below(a.args@, n),
    }
}

/// The rows the positive literals read carry annotations of `acc`'s kind.
pub open spec fn kinds_agree(db: Db, body: Seq<CoreLiteral>, acc: Ann) -> bool {
    forall|i: int, k: int| 0 <= i < body.len() && #[trigger] body[i] is Pos
        && db.preds().contains(body[i]->Pos_0.pred@)
        && 0 <= k < db.rel(body[i]->Pos_0.pred@).rows@.len()
        ==> same_kind(acc, #[trigger] db.rel(body[i]->Pos_0.pred@).rows@[k].1)
}

proof fn lemma_kinds_step(db: Db, body: Seq<CoreLiteral>, acc: Ann, a2: Ann)
    requires
        kinds_agree(db, body, acc),
        same_kind(acc, a2),
    ensures
        kinds_agree(db, body, a2),
{
}

/// Solve `body[idx..]` against the database, appending each completed
/// binding with its annotation product to `out`.
pub fn solve(db: &Db, preds: &Vec<CorePred>, cur: u32, body: &Vec<CoreLiteral>, idx: usize, binding: &Vec<Option<GroundVal>>, acc: Ann, out: &mut Vec<(Vec<Option<GroundVal>>, Ann)>) -> (r: Result<(), EvalError>)
    requires
        db.wf(),
        idx <= body@.len(),
        body_slots_below(body@, binding@.len()),
        kinds_agree(*db, body@, acc),
    ensures
        match r {
            Ok(()) => solve_spec(*db, preds@, cur, body@, idx as nat, binding@, acc) == Ok::<Solved, ErrV>(outs_view(final(out)@).skip(old(out)@.len() as int))
                && outs_view(final(out)@).take(old(out)@.len() as int) == outs_view(old(out)@)
                && old(out)@.len() <= final(out)@.len(),
            Err(e) => solve_spec(*db, preds@, cur, body@, idx as nat, binding@, acc) == Err::<Solved, ErrV>(ev(e)),
        },
    decreases 2 * (body@.len() - idx) + 1, 0nat,
{
    let ghost out0 = outs_view(out@);
    if idx == body.len() {
        let c = vec_copy(binding);
        out.push((c, acc));
        proof {
            assert(outs_view(out@) =~= out0.push((binding@, acc)));
            assert(outs_view(out@).skip(out0.len() as int) =~= seq![(binding@, acc)]);
            assert(outs_view(out@).take(out0.len() as int) =~= out0);
        }
        return Ok(());
    }
    match &body[idx] {
        CoreLiteral::Pos(atom) => {
            let rel = match db.relation(atom.pred.as_str()) {
                Some(rel) => rel,
                None => return Err(EvalError::UnknownPred(atom.pred.clone())),
            };
            assert(body@[idx as int] is Pos && body@[idx as int]->Pos_0 == *atom);
            let n = rel.rows.len();
            let next = idx + 1;
            let mut k: usize = 0;
            proof {
                assert(outs_view(out@).skip(out0.len() as int) =~= Seq::empty());
                assert(outs_view(out@).take(out0.len() as int) =~= out0);
            }
            while k < n
                invariant
                    k <= n,
                    n == rel.rows@.len(),
                    next == idx + 1,
                    db.wf(),
                    idx < body@.len(),
                    body@[idx as int] is Pos && body@[idx as int]->Pos_0 == *atom,
                    db.preds().contains(atom.pred@),
                    *rel == db.rel(atom.pred@),
                    body_slots_below(body@, binding@.len()),
                    kinds_agree(*db, body@, acc),
                    out0 == outs_view(old(out)@),
                    outs_view(out@).take(out0.len() as int) == out0,
                    out0.len() <= outs_view(out@).len(),
                    rows_upto(*db, preds@, cur, body@, idx as nat, binding@, acc, k as nat)
                        == Ok::<Solved, ErrV>(outs_view(out@).skip(out0.len() as int)),
                decreases n - k,
            {
                let row = &rel.rows[k];
                let mut b = vec_copy(binding);
                let ghost pre = outs_view(out@);
                assert(pre.len() == out@.len());
                assert(slots_below(atom.args@, binding@.len())) by {
                    assert(body@[idx as int] == CoreLiteral::Pos(*atom));
                }
                if unify(&atom.args, &row.0, &mut b) {
                    proof {
                        assert(same_kind(acc, row.1)) by {
                            assert(db.rel(body@[idx as int]->Pos_0.pred@).rows@[k as int].1 == row.1);
                        }
                    }
                    let new_acc = match acc.otimes(row.1) {
                        Ok(a) => a,
                        Err(o) => {
                            proof {
                                assert(row_step(*db, preds@, cur, body@, idx as nat, binding@, acc, k as int) == Err::<Solved, ErrV>(ErrV::Overflow));
                                lemma_rows_err_extends(*db, preds@, cur, body@, idx as nat, binding@, acc, (k + 1) as nat, n as nat);
                            }
                            return Err(EvalError::Overflow(o));
                        },
                    };
                    proof {
                        lemma_kinds_step(*db, body@, acc, new_acc);
                    }
                    match solve(db, preds, cur, body, next, &b, new_acc, out) {
                        Ok(()) => {},
                        Err(e) => {
                            proof {
                                lemma_rows_err_extends(*db, preds@, cur, body@, idx as nat, binding@, acc, (k + 1) as nat, n as nat);
                            }
                            return Err(e);
                        },
                    }
                    proof {
                        let s_new = outs_view(out@).skip(pre.len() as int);
                        assert(outs_view(out@).take(pre.len() as int) == pre);
                        assert(outs_view(out@).skip(out0.len() as int) =~= pre.skip(out0.len() as int) + s_new) by {
                            assert(outs_view(out@) =~= outs_view(out@).take(pre.len() as int) + outs_view(out@).skip(pre.len() as int));
                        }
                        assert(outs_view(out@).take(out0.len() as int) =~= pre.take(out0.len() as int)) by {
                            assert forall|x: int| 0 <= x < out0.len() implies outs_view(out@)[x] == pre[x] by {
                                assert(outs_view(out@).take(pre.len() as int)[x] == pre[x]);
                            }
                        }
                    }
                } else {
                    proof {
                        assert(row_step(*db, preds@, cur, body@, idx as nat, binding@, acc, k as int) == Ok::<Solved, ErrV>(Seq::empty()));
                        assert(outs_view(out@).skip(out0.len() as int) + Seq::<(Seq<Option<GroundVal>>, Ann)>::empty() =~= outs_view(out@).skip(out0.len() as int));
                    }
                }
                k = k + 1;
            }
            Ok(())
        },
        CoreLiteral::Neg(atom) => {
            assert(body@[idx as int] is Neg && body@[idx as int]->Neg_0 == *atom);
            let ns = match pred_stratum(preds, atom.pred.as_str()) {
                Some(s) => s,
                None => return Err(EvalError::UnknownPred(atom.pred.clone())),
            };
            if ns >= cur {
                return Err(EvalError::NegationNotStratified { pred: atom.pred.clone() });
            }
            assert(slots_below(atom.args@, binding@.len())) by {
                assert(body@[idx as int] == CoreLiteral::Neg(*atom));
            }
            let tuple = match ground_atom(atom, binding, true) {
                Ok(t) => t,
                Err(e) => return Err(e),
            };
            let rel = match db.relation(atom.pred.as_str()) {
                Some(rel) => rel,
                None => return Err(EvalError::UnknownPred(atom.pred.clone())),
            };
            match rel.find(&tuple) {
                Some(i) => {
                    proof {
                        assert(rel.view().dom().contains(tuple@));
                        assert(outs_view(out@).skip(out0.len() as int) =~= Seq::empty());
                        assert(outs_view(out@).take(out0.len() as int) =~= out0);
                    }
                    Ok(())
                },
                None => solve(db, preds, cur, body, idx + 1, binding, acc, out),
            }
        },
    }
}

/// A copy of a binding.
pub fn vec_copy(b: &Vec<Option<GroundVal>>) -> (c: Vec<Option<GroundVal>>)
    ensures
        c@ == b@,
{
    let mut c: Vec<Option<GroundVal>> = Vec::new();
    let mut i: usize = 0;
    while i < b.len()
        invariant
            i <= b@.len(),
            c@ == b@.take(i as int),
        decreases b@.len() - i,
    {
        c.push(b[i]);
        assert(c@ =~= b@.take(i + 1));
        i = i + 1;
    }
    assert(b@.take(b@.len() as int) =~= b@);
    c
}

} // verus!

verus! {

/// Does `atom`, under a binding that grounds it, hold as a negation at
/// stratum `cur`: its predicate strictly lower and its tuple absent?
pub fn negation_holds(atom: &CoreAtom, binding: &Vec<Option<GroundVal>>, db: &Db, preds: &Vec<CorePred>, cur: u32) -> (r: Result<bool, EvalError>)
    requires
        db.wf(),
        slots_below(atom.args@, binding@.len()),
    ensures
        match r {
            Ok(h) => stratum_of(preds@, atom.pred@) matches Some(ns) && ns < cur
                && ground_spec(atom.args@, binding@, true) is Ok
                && db.preds().contains(atom.pred@)
                && h == !db.rel(atom.pred@).view().dom().contains(ground_spec(atom.args@, binding@, true)->Ok_0),
            Err(e) => ev(e) == match stratum_of(preds@, atom.pred@) {
                None => ErrV::UnknownPred(atom.pred@),
                Some(ns) => if ns >= cur {
                    ErrV::NegationNotStratified(atom.pred@)
                } else {
                    match ground_spec(atom.args@, binding@, true) {
                        Err(e2) => ev(e2),
                        Ok(_) => ErrV::UnknownPred(atom.pred@),
                    }
                },
            } && !(stratum_of(preds@, atom.pred@) matches Some(ns) && ns < cur && ground_spec(atom.args@, binding@, true) is Ok && db.preds().contains(atom.pred@)),
        },
{
    let ns = match pred_stratum(preds, atom.pred.as_str()) {
        Some(s) => s,
        None => return Err(EvalError::UnknownPred(atom.pred.clone())),
    };
    if ns >= cur {
        return Err(EvalError::NegationNotStratified { pred: atom.pred.clone() });
    }
    let tuple = match ground_atom(atom, binding, true) {
        Ok(t) => t,
        Err(e) => return Err(e),
    };
    let rel = match db.relation(atom.pred.as_str()) {
        Some(rel) => rel,
        None => return Err(EvalError::UnknownPred(atom.pred.clone())),
    };
    match rel.find(&tuple) {
        Some(i) => {
            assert(rel.view().dom().contains(tuple@)) by {
                assert(crate::eval::store::row_of(rel.rows@, tuple@, i as int));
            }
            Ok(false)
        },
        None => Ok(true),
    }
}

} // verus!

verus! {

/// The first body literal whose predicate is undeclared or not strictly
/// below stratum `cur`, as the error it gives.
pub open spec fn agg_body_error(preds: Seq<CorePred>, body: Seq<CoreLiteral>, cur: u32, k: nat) -> Option<ErrV>
    decreases k,
{
    if k == 0 {
        None
    } else {
        match agg_body_error(preds, body, cur, (k - 1) as nat) {
            Some(e) => Some(e),
            None => {
                let a = match body[k - 1] { CoreLiteral::Pos(a) => a, CoreLiteral::Neg(a) => a };
                match stratum_of(preds, a.pred@) {
                    None => Some(ErrV::UnknownPred(a.pred@)),
                    Some(s) => if s >= cur { Some(ErrV::AggregateInRecursion(a.pred@)) } else { None },
                }
            },
        }
    }
}

/// The aggregate head term among the first `k` arguments: `None` before one
/// is met, its position, operator and slot after, or an error on a second.
pub open spec fn agg_pos_upto(args: Seq<CoreTerm>, k: nat) -> Result<Option<(int, AggOp, u32)>, ErrV>
    decreases k,
{
    if k == 0 {
        Ok(None)
    } else {
        match agg_pos_upto(args, (k - 1) as nat) {
            Err(e) => Err(e),
            Ok(found) => match args[k - 1] {
                CoreTerm::Agg { op, slot } => if found is Some { Err(ErrV::MalformedAggregateHead) } else { Ok(Some((k - 1, op, slot))) },
                _ => Ok(found),
            },
        }
    }
}

/// A head argument's value under a binding.
pub open spec fn head_arg_spec(t: CoreTerm, b: Seq<Option<GroundVal>>) -> Result<GroundVal, ErrV> {
    match t {
        CoreTerm::Agg { .. } => Err(ErrV::MalformedAggregateHead),
        CoreTerm::Var { slot } => match b[slot as int] { Some(v) => Ok(v), None => Err(ErrV::UnsafeHeadVar(slot)) },
        _ => Ok(term_value(t, b)->0),
    }
}

/// The group key of a binding: the first `k` head arguments but the
/// aggregate one.
pub open spec fn key_upto(args: Seq<CoreTerm>, at: int, b: Seq<Option<GroundVal>>, k: nat) -> Result<Seq<GroundVal>, ErrV>
    decreases k,
{
    if k == 0 {
        Ok(Seq::empty())
    } else {
        match key_upto(args, at, b, (k - 1) as nat) {
            Err(e) => Err(e),
            Ok(s) => if k - 1 == at { Ok(s) } else {
                match head_arg_spec(args[k - 1], b) { Err(e) => Err(e), Ok(v) => Ok(s.push(v)) }
            },
        }
    }
}

/// The groups of the first `k` solved bindings: each key once, in the order
/// first met, with its aggregands in order.
pub open spec fn groups_upto(solved: Solved, args: Seq<CoreTerm>, at: int, slot: u32, k: nat) -> Result<Seq<(Seq<GroundVal>, Seq<GroundVal>)>, ErrV>
    decreases k,
{
    if k == 0 {
        Ok(Seq::empty())
    } else {
        match groups_upto(solved, args, at, slot, (k - 1) as nat) {
            Err(e) => Err(e),
            Ok(gs) => {
                let b = solved[k - 1].0;
                match key_upto(args, at, b, args.len()) {
                    Err(e) => Err(e),
                    Ok(key) => match b[slot as int] {
                        None => Err(ErrV::UnsafeHeadVar(slot)),
                        Some(v) => if exists|j: int| 0 <= j < gs.len() && gs[j].0 == key {
                            let j = choose|j: int| 0 <= j < gs.len() && gs[j].0 == key;
                            Ok(gs.update(j, (key, gs[j].1.push(v))))
                        } else {
                            Ok(gs.push((key, seq![v])))
                        },
                    },
                }
            },
        }
    }
}

/// The head tuples of the first `k` groups: each key with its folded value
/// put at the aggregate's position.
pub open spec fn agg_tuples_upto(gs: Seq<(Seq<GroundVal>, Seq<GroundVal>)>, op: AggOp, at: int, k: nat) -> Result<Seq<Seq<GroundVal>>, ErrV>
    decreases k,
{
    if k == 0 {
        Ok(Seq::empty())
    } else {
        match agg_tuples_upto(gs, op, at, (k - 1) as nat) {
            Err(e) => Err(e),
            Ok(ts) => match fold_spec(op, gs[k - 1].1) {
                Err(e) => Err(ev(e)),
                Ok(r) => Ok(ts.push(gs[k - 1].0.take(at) + seq![GroundVal::Int(r as i64)] + gs[k - 1].0.skip(at))),
            },
        }
    }
}

/// Adding `Unit` tuples to a relation: a new tuple enters, a present one
/// stays as it is.
pub open spec fn add_units(m: Map<Seq<GroundVal>, Ann>, ts: Seq<Seq<GroundVal>>) -> Map<Seq<GroundVal>, Ann>
    decreases ts.len(),
{
    if ts.len() == 0 {
        m
    } else {
        let m1 = add_units(m, ts.drop_last());
        if m1.dom().contains(ts.last()) { m1 } else { m1.insert(ts.last(), Ann::Unit) }
    }
}

} // verus!

verus! {

/// The all-unbound binding of `n` slots.
pub open spec fn unbound(n: nat) -> Seq<Option<GroundVal>> {
    Seq::new(n, |i: int| None::<GroundVal>)
}

/// An aggregate rule's groups, operator and aggregate position, or the first
/// error met on the way.
pub open spec fn agg_groups_spec(db: Db, rule: CoreRule, preds: Seq<CorePred>, cur: u32) -> Result<(Seq<(Seq<GroundVal>, Seq<GroundVal>)>, AggOp, int), ErrV> {
    match agg_body_error(preds, rule.body@, cur, rule.body@.len()) {
        Some(e) => Err(e),
        None => match agg_pos_upto(rule.head.args@, rule.head.args@.len()) {
            Err(e) => Err(e),
            Ok(None) => Err(ErrV::MalformedAggregateHead),
            Ok(Some((at, op, slot))) => match solve_spec(db, preds, cur, rule.body@, 0, unbound(rule.var_count as nat), Ann::Unit) {
                Err(e) => Err(e),
                Ok(solved) => match groups_upto(solved, rule.head.args@, at, slot, solved.len()) {
                    Err(e) => Err(e),
                    Ok(gs) => Ok((gs, op, at)),
                },
            },
        },
    }
}

/// The head tuples an aggregate rule adds, or the first error met.
pub open spec fn agg_rule_spec(db: Db, rule: CoreRule, preds: Seq<CorePred>, cur: u32) -> Result<Seq<Seq<GroundVal>>, ErrV> {
    match agg_groups_spec(db, rule, preds, cur) {
        Err(e) => Err(e),
        Ok((gs, op, at)) => agg_tuples_upto(gs, op, at, gs.len()),
    }
}

/// Adding `Unit` tuples of `p` to a database by content, in order.
pub open spec fn add_units_s(s: DbS, p: Seq<char>, ts: Seq<Seq<GroundVal>>) -> DbS
    decreases ts.len(),
{
    if ts.len() == 0 {
        s
    } else {
        insert_s(add_units_s(s, p, ts.drop_last()), p, ts.last(), Ann::Unit).0
    }
}

pub open spec fn groups_view(v: Seq<(Vec<GroundVal>, Vec<GroundVal>)>) -> Seq<(Seq<GroundVal>, Seq<GroundVal>)> {
    v.map_values(|g: (Vec<GroundVal>, Vec<GroundVal>)| (g.0@, g.1@))
}

proof fn lemma_body_err_extends(preds: Seq<CorePred>, body: Seq<CoreLiteral>, cur: u32, k: nat, n: nat)
    requires
        k <= n,
        agg_body_error(preds, body, cur, k) is Some,
    ensures
        agg_body_error(preds, body, cur, n) == agg_body_error(preds, body, cur, k),
    decreases n - k,
{
    if k < n {
        lemma_body_err_extends(preds, body, cur, k, (n - 1) as nat);
    }
}

proof fn lemma_pos_err_extends(args: Seq<CoreTerm>, k: nat, n: nat)
    requires
        k <= n,
        agg_pos_upto(args, k) is Err,
    ensures
        agg_pos_upto(args, n) == agg_pos_upto(args, k),
    decreases n - k,
{
    if k < n {
        lemma_pos_err_extends(args, k, (n - 1) as nat);
    }
}

proof fn lemma_key_err_extends(args: Seq<CoreTerm>, at: int, b: Seq<Option<GroundVal>>, k: nat, n: nat)
    requires
        k <= n,
        key_upto(args, at, b, k) is Err,
    ensures
        key_upto(args, at, b, n) == key_upto(args, at, b, k),
    decreases n - k,
{
    if k < n {
        lemma_key_err_extends(args, at, b, k, (n - 1) as nat);
    }
}

proof fn lemma_groups_err_extends(solved: Solved, args: Seq<CoreTerm>, at: int, slot: u32, k: nat, n: nat)
    requires
        k <= n,
        groups_upto(solved, args, at, slot, k) is Err,
    ensures
        groups_upto(solved, args, at, slot, n) == groups_upto(solved, args, at, slot, k),
    decreases n - k,
{
    if k < n {
        lemma_groups_err_extends(solved, args, at, slot, k, (n - 1) as nat);
    }
}

proof fn lemma_tuples_err_extends(gs: Seq<(Seq<GroundVal>, Seq<GroundVal>)>, op: AggOp, at: int, k: nat, n: nat)
    requires
        k <= n,
        agg_tuples_upto(gs, op, at, k) is Err,
    ensures
        agg_tuples_upto(gs, op, at, n) == agg_tuples_upto(gs, op, at, k),
    decreases n - k,
{
    if k < n {
        lemma_tuples_err_extends(gs, op, at, k, (n - 1) as nat);
    }
}

/// The key of a solved binding.
fn group_key(args: &Vec<CoreTerm>, at: usize, b: &Vec<Option<GroundVal>>) -> (r: Result<Vec<GroundVal>, EvalError>)
    requires
        slots_below(args@, b@.len()),
    ensures
        match r {
            Ok(k) => key_upto(args@, at as int, b@, args@.len()) == Ok::<Seq<GroundVal>, ErrV>(k@),
            Err(e) => key_upto(args@, at as int, b@, args@.len()) == Err::<Seq<GroundVal>, ErrV>(ev(e)),
        },
{
    let mut key: Vec<GroundVal> = Vec::new();
    let mut i: usize = 0;
    while i < args.len()
        invariant
            i <= args@.len(),
            slots_below(args@, b@.len()),
            key_upto(args@, at as int, b@, i as nat) == Ok::<Seq<GroundVal>, ErrV>(key@),
        decreases args@.len() - i,
    {
        if i != at {
            assert(args@[i as int] == args[i as int]);
            match head_arg_value(&args[i], b) {
                Ok(v) => key.push(v),
                Err(e) => {
                    proof {
                        assert(ev(e) == match head_arg_spec(args@[i as int], b@) { Err(x) => x, Ok(_) => ErrV::Overflow });
                        lemma_key_err_extends(args@, at as int, b@, (i + 1) as nat, args@.len());
                    }
                    return Err(e);
                },
            }
        }
        i = i + 1;
    }
    Ok(key)
}

} // verus!

verus! {

proof fn lemma_unify_keeps_len(args: Seq<CoreTerm>, tuple: Seq<GroundVal>, b: Seq<Option<GroundVal>>, k: nat)
    requires
        k <= args.len(),
        slots_below(args, b.len()),
    ensures
        unify_upto(args, tuple, b, k) matches Some(b1) ==> b1.len() == b.len(),
    decreases k,
{
    if k > 0 {
        lemma_unify_keeps_len(args, tuple, b, (k - 1) as nat);
    }
}

/// Solving keeps the binding's length.
proof fn lemma_solve_len(db: Db, preds: Seq<CorePred>, cur: u32, body: Seq<CoreLiteral>, idx: nat, b: Seq<Option<GroundVal>>, acc: Ann)
    requires
        body_slots_below(body, b.len()),
    ensures
        solve_spec(db, preds, cur, body, idx, b, acc) matches Ok(s) ==> forall|j: int| 0 <= j < s.len() ==> (#[trigger] s[j]).0.len() == b.len(),
    decreases 2 * (body.len() - idx) + 1, 0nat,
{
    if idx < body.len() {
        match body[idx as int] {
            CoreLiteral::Pos(atom) => {
                if db.preds().contains(atom.pred@) {
                    lemma_rows_len(db, preds, cur, body, idx, b, acc, db.rel(atom.pred@).rows@.len());
                }
            },
            CoreLiteral::Neg(atom) => {
                lemma_solve_len(db, preds, cur, body, idx + 1, b, acc);
            },
        }
    }
}

proof fn lemma_rows_len(db: Db, preds: Seq<CorePred>, cur: u32, body: Seq<CoreLiteral>, idx: nat, b: Seq<Option<GroundVal>>, acc: Ann, k: nat)
    requires
        body_slots_below(body, b.len()),
    ensures
        rows_upto(db, preds, cur, body, idx, b, acc, k) matches Ok(s) ==> forall|j: int| 0 <= j < s.len() ==> (#[trigger] s[j]).0.len() == b.len(),
    decreases 2 * (body.len() - idx), k + 1,
{
    if k > 0 {
        lemma_rows_len(db, preds, cur, body, idx, b, acc, (k - 1) as nat);
        lemma_row_len(db, preds, cur, body, idx, b, acc, k - 1);
        if let Ok(s) = rows_upto(db, preds, cur, body, idx, b, acc, k) {
            let s0 = rows_upto(db, preds, cur, body, idx, b, acc, (k - 1) as nat)->Ok_0;
            let s1 = row_step(db, preds, cur, body, idx, b, acc, k - 1)->Ok_0;
            assert(s == s0 + s1);
            assert forall|j: int| 0 <= j < s.len() implies (#[trigger] s[j]).0.len() == b.len() by {
                if j < s0.len() { assert(s[j] == s0[j]); } else { assert(s[j] == s1[j - s0.len()]); }
            }
        }
    }
}

proof fn lemma_row_len(db: Db, preds: Seq<CorePred>, cur: u32, body: Seq<CoreLiteral>, idx: nat, b: Seq<Option<GroundVal>>, acc: Ann, k: int)
    requires
        body_slots_below(body, b.len()),
    ensures
        row_step(db, preds, cur, body, idx, b, acc, k) matches Ok(s) ==> forall|j: int| 0 <= j < s.len() ==> (#[trigger] s[j]).0.len() == b.len(),
    decreases 2 * (body.len() - idx), 0nat,
{
    if idx < body.len() && body[idx as int] is Pos {
        let atom = body[idx as int]->Pos_0;
        let row = db.rel(atom.pred@).rows@[k];
        assert(slots_below(atom.args@, b.len())) by {
            assert(body[idx as int] == CoreLiteral::Pos(atom));
        }
        if atom.args@.len() == row.0@.len() {
            lemma_unify_keeps_len(atom.args@, row.0@, b, atom.args@.len());
        }
        if let Some(b2) = unify_spec(atom.args@, row.0@, b) {
            if let Some(a2) = ann_otimes(acc, row.1) {
                lemma_solve_len(db, preds, cur, body, idx + 1, b2, a2);
            }
        }
    }
}

/// Evaluate an aggregate rule `H(.., agg<Y>, ..) :- B` once: every body
/// predicate must lie strictly below `cur`, the head must hold exactly one
/// aggregate term; the bindings of `B` are grouped by the other head
/// arguments, each group's aggregands folded, and the head tuples added.
pub fn eval_aggregate_rule(db: &mut Db, rule: &CoreRule, preds: &Vec<CorePred>, cur: u32) -> (r: Result<(), EvalError>)
    requires
        old(db).wf(),
        body_slots_below(rule.body@, rule.var_count as nat),
        slots_below(rule.head.args@, rule.var_count as nat),
        kinds_agree(*old(db), rule.body@, Ann::Unit),
        old(db).preds().contains(rule.head.pred@),
        forall|t: Seq<GroundVal>| #[trigger] old(db).rel(rule.head.pred@).view().dom().contains(t)
            ==> old(db).rel(rule.head.pred@).view()[t] is Unit,
    ensures
        match r {
            Ok(()) => agg_rule_spec(*old(db), *rule, preds@, cur) matches Ok(ts)
                && final(db).wf()
                && final(db).preds() == old(db).preds()
                && (forall|p: Seq<char>| p != rule.head.pred@ && #[trigger] old(db).preds().contains(p) ==> final(db).rel(p) == old(db).rel(p))
                && final(db).rel(rule.head.pred@).view() == add_units(old(db).rel(rule.head.pred@).view(), ts)
                && final(db).rel(rule.head.pred@).semiring == old(db).rel(rule.head.pred@).semiring
                && (forall|t: Seq<GroundVal>| #[trigger] final(db).rel(rule.head.pred@).view().dom().contains(t)
                    ==> final(db).rel(rule.head.pred@).view()[t] is Unit)
                && dbs(*final(db)) == add_units_s(dbs(*old(db)), rule.head.pred@, ts),
            Err(e) => agg_rule_spec(*old(db), *rule, preds@, cur) == Err::<Seq<Seq<GroundVal>>, ErrV>(ev(e)),
        },
{
    let ghost db0 = *db;
    let ghost head = rule.head.pred@;
    // every body predicate strictly lower
    let mut i: usize = 0;
    while i < rule.body.len()
        invariant
            i <= rule.body@.len(),
            agg_body_error(preds@, rule.body@, cur, i as nat) is None,
        decreases rule.body@.len() - i,
    {
        let a = match &rule.body[i] { CoreLiteral::Pos(a) => a, CoreLiteral::Neg(a) => a };
        assert(*a == match rule.body@[i as int] { CoreLiteral::Pos(a) => a, CoreLiteral::Neg(a) => a });
        match pred_stratum(preds, a.pred.as_str()) {
            None => {
                proof { lemma_body_err_extends(preds@, rule.body@, cur, (i + 1) as nat, rule.body@.len()); }
                return Err(EvalError::UnknownPred(a.pred.clone()));
            },
            Some(s) => if s >= cur {
                proof { lemma_body_err_extends(preds@, rule.body@, cur, (i + 1) as nat, rule.body@.len()); }
                return Err(EvalError::AggregateInRecursion { pred: a.pred.clone() });
            },
        }
        i = i + 1;
    }
    // the single aggregate head term
    let mut found: Option<(usize, AggOp, u32)> = None;
    let mut i: usize = 0;
    while i < rule.head.args.len()
        invariant
            i <= rule.head.args@.len(),
            agg_body_error(preds@, rule.body@, cur, rule.body@.len() as nat) is None,
            agg_pos_upto(rule.head.args@, i as nat) == Ok::<Option<(int, AggOp, u32)>, ErrV>(match found { None => None, Some((p, o, s)) => Some((p as int, o, s)) }),
            found matches Some((p, _, _)) ==> p < i,
        decreases rule.head.args@.len() - i,
    {
        if let CoreTerm::Agg { op, slot } = rule.head.args[i] {
            if found.is_some() {
                proof { lemma_pos_err_extends(rule.head.args@, (i + 1) as nat, rule.head.args@.len()); }
                return Err(EvalError::MalformedAggregateHead);
            }
            found = Some((i, op, slot));
        }
        i = i + 1;
    }
    let (at, op, slot) = match found {
        Some(f) => f,
        None => return Err(EvalError::MalformedAggregateHead),
    };
    assert(rule.head.args@[at as int] == CoreTerm::Agg { op, slot }) by {
        lemma_agg_pos_is_agg(rule.head.args@, rule.head.args@.len());
    }
    assert(slot < rule.var_count) by {
        assert(slots_below(rule.head.args@, rule.var_count as nat));
        assert(match rule.head.args@[at as int] { CoreTerm::Agg { slot, .. } => slot < rule.var_count, _ => true });
    }
    // every binding of the body
    let mut binding: Vec<Option<GroundVal>> = Vec::new();
    let mut k: u32 = 0;
    while k < rule.var_count
        invariant
            k <= rule.var_count,
            agg_body_error(preds@, rule.body@, cur, rule.body@.len() as nat) is None,
            agg_pos_upto(rule.head.args@, rule.head.args@.len()) == Ok::<Option<(int, AggOp, u32)>, ErrV>(Some((at as int, op, slot))),
            binding@ == unbound(k as nat),
        decreases rule.var_count - k,
    {
        binding.push(None);
        assert(binding@ =~= unbound((k + 1) as nat));
        k = k + 1;
    }
    let mut solved: Vec<(Vec<Option<GroundVal>>, Ann)> = Vec::new();
    match solve(db, preds, cur, &rule.body, 0, &binding, Ann::Unit, &mut solved) {
        Ok(()) => {},
        Err(e) => return Err(e),
    }
    let ghost sv = outs_view(solved@);
    assert(outs_view(solved@).skip(0) =~= sv);
    proof {
        lemma_solve_len(db0, preds@, cur, rule.body@, 0, binding@, Ann::Unit);
    }
    // group the aggregands by key, keys in the order first met
    let mut groups: Vec<(Vec<GroundVal>, Vec<GroundVal>)> = Vec::new();
    assert(groups_view(groups@) =~= Seq::<(Seq<GroundVal>, Seq<GroundVal>)>::empty());
    let mut j: usize = 0;
    while j < solved.len()
        invariant
            j <= solved@.len(),
            db0 == *old(db),
            agg_body_error(preds@, rule.body@, cur, rule.body@.len() as nat) is None,
            agg_pos_upto(rule.head.args@, rule.head.args@.len()) == Ok::<Option<(int, AggOp, u32)>, ErrV>(Some((at as int, op, slot))),
            solve_spec(db0, preds@, cur, rule.body@, 0, unbound(rule.var_count as nat), Ann::Unit) == Ok::<Solved, ErrV>(sv),
            sv == outs_view(solved@),
            forall|x: int| 0 <= x < sv.len() ==> (#[trigger] sv[x]).0.len() == rule.var_count,
            slots_below(rule.head.args@, rule.var_count as nat),
            slot < rule.var_count,
            groups_upto(sv, rule.head.args@, at as int, slot, j as nat) == Ok::<Seq<(Seq<GroundVal>, Seq<GroundVal>)>, ErrV>(groups_view(groups@)),
            at < rule.head.args@.len(),
            forall|x: int| 0 <= x < groups@.len() ==> (#[trigger] groups@[x]).0@.len() + 1 == rule.head.args@.len(),
            forall|a: int, c: int| 0 <= a < c < groups@.len() ==> (#[trigger] groups@[a]).0@ != (#[trigger] groups@[c]).0@,
        decreases solved@.len() - j,
    {
        let b = &solved[j].0;
        assert(sv[j as int].0 == b@);
        let key = match group_key(&rule.head.args, at, b) {
            Ok(k) => k,
            Err(e) => {
                proof { lemma_groups_err_extends(sv, rule.head.args@, at as int, slot, (j + 1) as nat, sv.len()); }
                return Err(e);
            },
        };
        proof { lemma_key_len(rule.head.args@, at as int, b@, rule.head.args@.len()); }
        let v = match b[slot as usize] {
            Some(v) => v,
            None => {
                proof { lemma_groups_err_extends(sv, rule.head.args@, at as int, slot, (j + 1) as nat, sv.len()); }
                return Err(EvalError::UnsafeHeadVar(slot));
            },
        };
        let ghost gs0 = groups_view(groups@);
        let mut g: usize = 0;
        let mut hit: Option<usize> = None;
        while g < groups.len()
            invariant
                g <= groups@.len(),
                hit matches Some(h) ==> h < groups@.len() && groups@[h as int].0@ == key@,
                hit is None ==> forall|x: int| 0 <= x < g ==> (#[trigger] groups@[x]).0@ != key@,
            decreases groups@.len() - g,
        {
            if hit.is_none() && crate::eval::store::same_tuple(&groups[g].0, &key) {
                hit = Some(g);
            }
            g = g + 1;
        }
        match hit {
            Some(h) => {
                let (gk, mut vals) = groups.remove(h);
                vals.push(v);
                groups.insert(h, (gk, vals));
                proof {
                    assert(gs0[h as int].0 == key@);
                    let c = choose|c: int| 0 <= c < gs0.len() && gs0[c].0 == key@;
                    if c != h as int {
                        if c < h { assert(groups@[c].0@ != groups@[h as int].0@); } else { assert(groups@[h as int].0@ != groups@[c].0@); }
                    }
                    assert(groups_view(groups@) =~= gs0.update(h as int, (key@, gs0[h as int].1.push(v))));
                }
            },
            None => {
                proof {
                    assert(!(exists|c: int| 0 <= c < gs0.len() && gs0[c].0 == key@)) by {
                        if exists|c: int| 0 <= c < gs0.len() && gs0[c].0 == key@ {
                            let c = choose|c: int| 0 <= c < gs0.len() && gs0[c].0 == key@;
                            assert(groups@[c].0@ != key@);
                        }
                    }
                }
                let mut vals: Vec<GroundVal> = Vec::new();
                vals.push(v);
                let ghost kv = key@;
                groups.push((key, vals));
                proof {
                    assert(groups_view(groups@) =~= gs0.push((kv, seq![v])));
                }
            },
        }
        j = j + 1;
    }
    let ghost gs = groups_view(groups@);
    assert(agg_groups_spec(db0, *rule, preds@, cur) == Ok::<(Seq<(Seq<GroundVal>, Seq<GroundVal>)>, AggOp, int), ErrV>((gs, op, at as int)));
    // fold each group and add its head tuple
    assert(db.rel(head).view() == add_units(db0.rel(head).view(), Seq::<Seq<GroundVal>>::empty()));
    assert(dbs(*db) == add_units_s(dbs(db0), head, Seq::<Seq<GroundVal>>::empty()));
    let mut t: usize = 0;
    while t < groups.len()
        invariant
            t <= groups@.len(),
            db0 == *old(db),
            agg_groups_spec(db0, *rule, preds@, cur) == Ok::<(Seq<(Seq<GroundVal>, Seq<GroundVal>)>, AggOp, int), ErrV>((gs, op, at as int)),
            gs == groups_view(groups@),
            at < rule.head.args@.len(),
            forall|x: int| 0 <= x < gs.len() ==> (#[trigger] gs[x]).0.len() + 1 == rule.head.args@.len(),
            db.wf(),
            db.preds() == db0.preds(),
            db.preds().contains(head),
            head == rule.head.pred@,
            forall|p: Seq<char>| p != head && #[trigger] db0.preds().contains(p) ==> db.rel(p) == db0.rel(p),
            agg_tuples_upto(gs, op, at as int, t as nat) matches Ok(ts)
                && db.rel(head).view() == add_units(db0.rel(head).view(), ts),
            forall|x: Seq<GroundVal>| #[trigger] db.rel(head).view().dom().contains(x) ==> db.rel(head).view()[x] is Unit,
            db.rel(head).semiring == db0.rel(head).semiring,
            agg_tuples_upto(gs, op, at as int, t as nat) matches Ok(ts) && dbs(*db) == add_units_s(dbs(db0), head, ts),
        decreases groups@.len() - t,
    {
        let (gk, vals) = (&groups[t].0, &groups[t].1);
        assert(gs[t as int] == (gk@, vals@));
        let res = match fold_aggregate(op, vals) {
            Ok(x) => x,
            Err(e) => {
                proof { lemma_tuples_err_extends(gs, op, at as int, (t + 1) as nat, gs.len()); }
                return Err(e);
            },
        };
        let mut tuple: Vec<GroundVal> = Vec::new();
        let mut q: usize = 0;
        while q < at
            invariant
                q <= at,
                at <= gk@.len(),
                tuple@ == gk@.take(q as int),
            decreases at - q,
        {
            tuple.push(gk[q]);
            assert(tuple@ =~= gk@.take(q + 1));
            q = q + 1;
        }
        tuple.push(GroundVal::Int(res));
        while q < gk.len()
            invariant
                at <= q <= gk@.len(),
                tuple@ == gk@.take(at as int) + seq![GroundVal::Int(res)] + gk@.subrange(at as int, q as int),
            decreases gk@.len() - q,
        {
            tuple.push(gk[q]);
            assert(tuple@ =~= gk@.take(at as int) + seq![GroundVal::Int(res)] + gk@.subrange(at as int, q + 1));
            q = q + 1;
        }
        assert(gk@.subrange(at as int, gk@.len() as int) =~= gk@.skip(at as int));
        let ghost tv = tuple@;
        let ghost m0 = db.rel(head).view();
        let ghost ts0 = agg_tuples_upto(gs, op, at as int, t as nat)->Ok_0;
        db.insert(rule.head.pred.as_str(), tuple, Ann::Unit);
        proof {
            let ts1 = ts0.push(tv);
            assert(agg_tuples_upto(gs, op, at as int, (t + 1) as nat) == Ok::<Seq<Seq<GroundVal>>, ErrV>(ts1));
            assert(ts1.drop_last() =~= ts0);
            assert(db.rel(head).view() == add_units(db0.rel(head).view(), ts1));
            assert(dbs(*db) == add_units_s(dbs(db0), head, ts1));
        }
        t = t + 1;
    }
    Ok(())
}

proof fn lemma_key_len(args: Seq<CoreTerm>, at: int, b: Seq<Option<GroundVal>>, k: nat)
    ensures
        key_upto(args, at, b, k) matches Ok(s) ==> s.len() == k - (if 0 <= at < k { 1int } else { 0int }),
    decreases k,
{
    if k > 0 {
        lemma_key_len(args, at, b, (k - 1) as nat);
    }
}

proof fn lemma_agg_pos_is_agg(args: Seq<CoreTerm>, k: nat)
    requires
        k <= args.len(),
    ensures
        agg_pos_upto(args, k) matches Ok(Some((p, op, slot))) ==> 0 <= p < k && args[p] == (CoreTerm::Agg { op, slot }),
    decreases k,
{
    if k > 0 {
        lemma_agg_pos_is_agg(args, (k - 1) as nat);
    }
}

} // verus!

verus! {


/// Like `solve_spec`, but the positive literal at position `d.0` (when given)
/// ranges over the rows `d.1` instead of its whole relation.
pub open spec fn solve_d_spec(db: Db, preds: Seq<CorePred>, cur: u32, body: Seq<CoreLiteral>, idx: nat, b: Seq<Option<GroundVal>>, acc: Ann, d: Option<(int, Seq<(Seq<GroundVal>, Ann)>)>) -> Result<Solved, ErrV>
    decreases 2 * (body.len() - idx) + 1, 0nat,
{
    if idx >= body.len() {
        Ok(seq![(b, acc)])
    } else {
        match body[idx as int] {
            CoreLiteral::Pos(atom) => if d matches Some((p, _)) && p == idx {
                drows_upto(db, preds, cur, body, idx, b, acc, d, d.unwrap().1.len())
            } else if !db.preds().contains(atom.pred@) {
                Err(ErrV::UnknownPred(atom.pred@))
            } else {
                drows_upto(db, preds, cur, body, idx, b, acc, d, db.rel(atom.pred@).rows@.len())
            },
            CoreLiteral::Neg(atom) => match stratum_of(preds, atom.pred@) {
                None => Err(ErrV::UnknownPred(atom.pred@)),
                Some(ns) => if ns >= cur {
                    Err(ErrV::NegationNotStratified(atom.pred@))
                } else {
                    match ground_spec(atom.args@, b, true) {
                        Err(e) => Err(ev(e)),
                        Ok(t) => if !db.preds().contains(atom.pred@) {
                            Err(ErrV::UnknownPred(atom.pred@))
                        } else if db.rel(atom.pred@).view().dom().contains(t) {
                            Ok(Seq::empty())
                        } else {
                            solve_d_spec(db, preds, cur, body, idx + 1, b, acc, d)
                        },
                    }
                },
            },
        }
    }
}

/// The row `k` that the positive literal at `idx` ranges over.
pub open spec fn drow(db: Db, body: Seq<CoreLiteral>, idx: nat, d: Option<(int, Seq<(Seq<GroundVal>, Ann)>)>, k: int) -> (Seq<GroundVal>, Ann) {
    if d matches Some((p, rows)) && p == idx {
        d.unwrap().1[k]
    } else {
        let r = db.rel(body[idx as int]->Pos_0.pred@).rows@[k];
        (r.0@, r.1)
    }
}

pub open spec fn drow_step(db: Db, preds: Seq<CorePred>, cur: u32, body: Seq<CoreLiteral>, idx: nat, b: Seq<Option<GroundVal>>, acc: Ann, d: Option<(int, Seq<(Seq<GroundVal>, Ann)>)>, k: int) -> Result<Solved, ErrV>
    decreases 2 * (body.len() - idx), 0nat,
{
    if idx < body.len() && body[idx as int] is Pos {
        let atom = body[idx as int]->Pos_0;
        let row = drow(db, body, idx, d, k);
        match unify_spec(atom.args@, row.0, b) {
            None => Ok(Seq::empty()),
            Some(b2) => match ann_otimes(acc, row.1) {
                None => Err(ErrV::Overflow),
                Some(a2) => solve_d_spec(db, preds, cur, body, idx + 1, b2, a2, d),
            },
        }
    } else {
        Ok(Seq::empty())
    }
}

pub open spec fn drows_upto(db: Db, preds: Seq<CorePred>, cur: u32, body: Seq<CoreLiteral>, idx: nat, b: Seq<Option<GroundVal>>, acc: Ann, d: Option<(int, Seq<(Seq<GroundVal>, Ann)>)>, k: nat) -> Result<Solved, ErrV>
    decreases 2 * (body.len() - idx), k + 1,
{
    if k == 0 {
        Ok(Seq::empty())
    } else {
        match drows_upto(db, preds, cur, body, idx, b, acc, d, (k - 1) as nat) {
            Err(e) => Err(e),
            Ok(s) => match drow_step(db, preds, cur, body, idx, b, acc, d, k - 1) {
                Err(e) => Err(e),
                Ok(s1) => Ok(s + s1),
            },
        }
    }
}

proof fn lemma_drows_err_extends(db: Db, preds: Seq<CorePred>, cur: u32, body: Seq<CoreLiteral>, idx: nat, b: Seq<Option<GroundVal>>, acc: Ann, d: Option<(int, Seq<(Seq<GroundVal>, Ann)>)>, k: nat, n: nat)
    requires
        k <= n,
        drows_upto(db, preds, cur, body, idx, b, acc, d, k) is Err,
    ensures
        drows_upto(db, preds, cur, body, idx, b, acc, d, n) == drows_upto(db, preds, cur, body, idx, b, acc, d, k),
    decreases n - k,
{
    if k < n {
        lemma_drows_err_extends(db, preds, cur, body, idx, b, acc, d, k, (n - 1) as nat);
    }
}

/// The delta rows annotate with `acc`'s kind too.
pub open spec fn delta_kinds(d: Option<(int, Seq<(Seq<GroundVal>, Ann)>)>, acc: Ann) -> bool {
    d matches Some((p, rows)) ==> forall|k: int| 0 <= k < rows.len() ==> same_kind(acc, #[trigger] rows[k].1)
}

/// Solve `body[idx..]`; when `delta` names a position, that literal ranges
/// over the delta rows instead of its relation.
pub fn solve_delta(db: &Db, preds: &Vec<CorePred>, cur: u32, body: &Vec<CoreLiteral>, idx: usize, binding: &Vec<Option<GroundVal>>, acc: Ann, delta: Option<(usize, &Vec<(Tuple, Ann)>)>, out: &mut Vec<(Vec<Option<GroundVal>>, Ann)>) -> (r: Result<(), EvalError>)
    requires
        db.wf(),
        idx <= body@.len(),
        body_slots_below(body@, binding@.len()),
        kinds_agree(*db, body@, acc),
        delta_kinds(match delta { Some((p, rows)) => Some((p as int, rows_v(rows@))), None => None }, acc),
    ensures
        ({
            let d = match delta { Some((p, rows)) => Some((p as int, rows_v(rows@))), None => None };
            match r {
                Ok(()) => solve_d_spec(*db, preds@, cur, body@, idx as nat, binding@, acc, d) == Ok::<Solved, ErrV>(outs_view(final(out)@).skip(old(out)@.len() as int))
                    && outs_view(final(out)@).take(old(out)@.len() as int) == outs_view(old(out)@)
                    && old(out)@.len() <= final(out)@.len(),
                Err(e) => solve_d_spec(*db, preds@, cur, body@, idx as nat, binding@, acc, d) == Err::<Solved, ErrV>(ev(e)),
            }
        }),
        r is Ok ==> forall|i: int| old(out)@.len() <= i < final(out)@.len() ==> same_kind(acc, (#[trigger] final(out)@[i]).1)
            && final(out)@[i].0@.len() == binding@.len(),
    decreases 2 * (body@.len() - idx) + 1, 0nat,
{
    let ghost d = match delta { Some((p, rows)) => Some((p as int, rows_v(rows@))), None => None };
    let ghost out0 = outs_view(out@);
    if idx == body.len() {
        let c = vec_copy(binding);
        out.push((c, acc));
        proof {
            assert(outs_view(out@) =~= out0.push((binding@, acc)));
            assert(outs_view(out@).skip(out0.len() as int) =~= seq![(binding@, acc)]);
            assert(outs_view(out@).take(out0.len() as int) =~= out0);
        }
        return Ok(());
    }
    match &body[idx] {
        CoreLiteral::Pos(atom) => {
            assert(body@[idx as int] is Pos && body@[idx as int]->Pos_0 == *atom);
            let use_delta = match delta { Some((p, _)) => p == idx, None => false };
            let rows: &Vec<(Tuple, Ann)> = match delta {
                Some((p, drows)) if p == idx => drows,
                _ => match db.relation(atom.pred.as_str()) {
                    Some(rel) => &rel.rows,
                    None => return Err(EvalError::UnknownPred(atom.pred.clone())),
                },
            };
            proof {
                if !use_delta {
                    assert(db.preds().contains(atom.pred@));
                }
            }
            let n = rows.len();
            let next = idx + 1;
            let mut k: usize = 0;
            proof {
                assert(outs_view(out@).skip(out0.len() as int) =~= Seq::empty());
                assert(outs_view(out@).take(out0.len() as int) =~= out0);
            }
            while k < n
                invariant
                    k <= n,
                    n == rows@.len(),
                    next == idx + 1,
                    db.wf(),
                    idx < body@.len(),
                    body@[idx as int] is Pos && body@[idx as int]->Pos_0 == *atom,
                    d == (match delta { Some((p, rs)) => Some((p as int, rows_v(rs@))), None => None::<(int, Seq<(Seq<GroundVal>, Ann)>)> }),
                    use_delta == (d matches Some((p, _)) && p == idx),
                    use_delta ==> rows_v(rows@) == d.unwrap().1,
                    !use_delta ==> db.preds().contains(atom.pred@) && *rows == db.rel(atom.pred@).rows,
                    forall|q: int| 0 <= q < n ==> #[trigger] drow(*db, body@, idx as nat, d, q) == (rows@[q].0@, rows@[q].1),
                    body_slots_below(body@, binding@.len()),
                    kinds_agree(*db, body@, acc),
                    delta_kinds(d, acc),
                    out0 == outs_view(old(out)@),
                    outs_view(out@).take(out0.len() as int) == out0,
                    out0.len() <= outs_view(out@).len(),
                    drows_upto(*db, preds@, cur, body@, idx as nat, binding@, acc, d, k as nat)
                        == Ok::<Solved, ErrV>(outs_view(out@).skip(out0.len() as int)),
                    forall|i: int| old(out)@.len() <= i < out@.len() ==> same_kind(acc, (#[trigger] out@[i]).1)
                        && out@[i].0@.len() == binding@.len(),
                decreases n - k,
            {
                let row = &rows[k];
                let mut b = vec_copy(binding);
                let ghost pre = outs_view(out@);
                let ghost pre_out = out@;
                assert(pre.len() == out@.len());
                assert(slots_below(atom.args@, binding@.len())) by {
                    assert(body@[idx as int] == CoreLiteral::Pos(*atom));
                }
                assert(drow(*db, body@, idx as nat, d, k as int) == (row.0@, row.1));
                if unify(&atom.args, &row.0, &mut b) {
                    proof {
                        if use_delta {
                            assert(d.unwrap().1[k as int].1 == row.1);
                        } else {
                            assert(db.rel(body@[idx as int]->Pos_0.pred@).rows@[k as int].1 == row.1);
                        }
                        assert(same_kind(acc, row.1));
                    }
                    let new_acc = match acc.otimes(row.1) {
                        Ok(a) => a,
                        Err(o) => {
                            proof {
                                lemma_drows_err_extends(*db, preds@, cur, body@, idx as nat, binding@, acc, d, (k + 1) as nat, n as nat);
                            }
                            return Err(EvalError::Overflow(o));
                        },
                    };
                    proof {
                        lemma_kinds_step(*db, body@, acc, new_acc);
                    }
                    match solve_delta(db, preds, cur, body, next, &b, new_acc, delta, out) {
                        Ok(()) => {},
                        Err(e) => {
                            proof {
                                lemma_drows_err_extends(*db, preds@, cur, body@, idx as nat, binding@, acc, d, (k + 1) as nat, n as nat);
                            }
                            return Err(e);
                        },
                    }
                    proof {
                        assert(same_kind(acc, new_acc));
                        assert(b@.len() == binding@.len());
                        assert forall|i: int| old(out)@.len() <= i < out@.len() implies same_kind(acc, (#[trigger] out@[i]).1)
                            && out@[i].0@.len() == binding@.len() by {
                            if i < pre.len() {
                                assert(outs_view(out@).take(pre.len() as int)[i] == pre[i]);
                                assert(pre[i].1 == pre_out[i].1);
                                assert(outs_view(out@)[i].1 == out@[i].1);
                                assert(pre[i].0 == pre_out[i].0@);
                                assert(outs_view(out@)[i].0 == out@[i].0@);
                            }
                        }
                        let s_new = outs_view(out@).skip(pre.len() as int);
                        assert(outs_view(out@).take(pre.len() as int) == pre);
                        assert(outs_view(out@).skip(out0.len() as int) =~= pre.skip(out0.len() as int) + s_new) by {
                            assert(outs_view(out@) =~= outs_view(out@).take(pre.len() as int) + outs_view(out@).skip(pre.len() as int));
                        }
                        assert(outs_view(out@).take(out0.len() as int) =~= pre.take(out0.len() as int)) by {
                            assert forall|x: int| 0 <= x < out0.len() implies outs_view(out@)[x] == pre[x] by {
                                assert(outs_view(out@).take(pre.len() as int)[x] == pre[x]);
                            }
                        }
                    }
                } else {
                    proof {
                        assert(drow_step(*db, preds@, cur, body@, idx as nat, binding@, acc, d, k as int) == Ok::<Solved, ErrV>(Seq::empty()));
                        assert(outs_view(out@).skip(out0.len() as int) + Seq::<(Seq<Option<GroundVal>>, Ann)>::empty() =~= outs_view(out@).skip(out0.len() as int));
                    }
                }
                k = k + 1;
            }
            Ok(())
        },
        CoreLiteral::Neg(atom) => {
            assert(body@[idx as int] is Neg && body@[idx as int]->Neg_0 == *atom);
            assert(slots_below(atom.args@, binding@.len())) by {
                assert(body@[idx as int] == CoreLiteral::Neg(*atom));
            }
            match negation_holds(atom, binding, db, preds, cur) {
                Err(e) => Err(e),
                Ok(false) => {
                    proof {
                        assert(outs_view(out@).skip(out0.len() as int) =~= Seq::empty());
                        assert(outs_view(out@).take(out0.len() as int) =~= out0);
                    }
                    Ok(())
                },
                Ok(true) => solve_delta(db, preds, cur, body, idx + 1, binding, acc, delta, out),
            }
        },
    }
}

} // verus!
