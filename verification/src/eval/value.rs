//! Ground values, tropical weights and the semiring annotations a derived
//! tuple carries: `Unit` for Bool (present or not), a weight for Trop
//! (min-plus, with checked addition).
use vstd::prelude::*;

verus! {

/// A ground value: an interned symbol or an integer.
#[derive(Debug, Clone, Copy, PartialEq, Eq, Structural)]
pub enum GroundVal {
    Sym(u32),
    Int(i64),
}

/// A predicate's semiring.
#[derive(Debug, Clone, Copy, PartialEq, Eq, Structural)]
pub enum Semiring {
    Bool,
    Trop,
}

/// A tropical weight: a finite integer or `+∞`.
#[derive(Debug, Clone, Copy, PartialEq, Eq, Structural)]
pub enum Weight {
    Finite(i64),
    PosInf,
}

/// A tropical `⊗` (integer `+`) left the `i64` range.
#[derive(Debug, Clone, Copy, PartialEq, Eq, Structural)]
pub struct TropOverflow;

/// `a` is below `b`: finite weights by value, every finite weight below `+∞`.
pub open spec fn weight_lt(a: Weight, b: Weight) -> bool {
    match (a, b) {
        (Weight::Finite(x), Weight::Finite(y)) => x < y,
        (Weight::Finite(_), Weight::PosInf) => true,
        _ => false,
    }
}

/// `a ⊕ b`: the smaller weight.
pub open spec fn weight_min(a: Weight, b: Weight) -> Weight {
    if weight_lt(b, a) { b } else { a }
}

/// `a ⊗ b`: the sum, `+∞` absorbing; `None` when the sum leaves `i64`.
pub open spec fn weight_plus(a: Weight, b: Weight) -> Option<Weight> {
    match (a, b) {
        (Weight::Finite(x), Weight::Finite(y)) =>
            if i64::MIN <= x + y <= i64::MAX { Some(Weight::Finite((x + y) as i64)) } else { None },
        _ => Some(Weight::PosInf),
    }
}

impl Weight {
    /// `⊗`'s identity: `0`.
    pub fn otimes_id() -> (w: Weight)
        ensures
            w == Weight::Finite(0),
    {
        Weight::Finite(0)
    }

    /// Is `self` below `other`?
    pub fn lt(self, other: Weight) -> (r: bool)
        ensures
            r == weight_lt(self, other),
    {
        match (self, other) {
            (Weight::Finite(x), Weight::Finite(y)) => x < y,
            (Weight::Finite(_), Weight::PosInf) => true,
            _ => false,
        }
    }

    /// `⊕`: the minimum.
    pub fn oplus(self, other: Weight) -> (r: Weight)
        ensures
            r == weight_min(self, other),
    {
        if other.lt(self) { other } else { self }
    }

    /// `⊗`: checked addition, `+∞` absorbing.
    pub fn otimes(self, other: Weight) -> (r: Result<Weight, TropOverflow>)
        ensures
            r == match weight_plus(self, other) { Some(w) => Ok::<Weight, TropOverflow>(w), None => Err(TropOverflow) },
    {
        match (self, other) {
            (Weight::Finite(x), Weight::Finite(y)) => match x.checked_add(y) {
                Some(s) => Ok(Weight::Finite(s)),
                None => Err(TropOverflow),
            },
            _ => Ok(Weight::PosInf),
        }
    }
}

/// A tuple's annotation: `Unit` in Bool, a weight in Trop.
#[derive(Debug, Clone, Copy, PartialEq, Eq, Structural)]
pub enum Ann {
    Unit,
    W(Weight),
}

/// Both annotations belong to the same semiring.
pub open spec fn same_kind(a: Ann, b: Ann) -> bool {
    (a is Unit && b is Unit) || (a is W && b is W)
}

/// `a ⊕ b` and whether it improved on `a`.
pub open spec fn ann_oplus(a: Ann, b: Ann) -> (Ann, bool) {
    match (a, b) {
        (Ann::W(x), Ann::W(y)) => (Ann::W(weight_min(x, y)), weight_lt(weight_min(x, y), x)),
        _ => (Ann::Unit, false),
    }
}

/// `a ⊗ b`; `None` on tropical overflow.
pub open spec fn ann_otimes(a: Ann, b: Ann) -> Option<Ann> {
    match (a, b) {
        (Ann::W(x), Ann::W(y)) => match weight_plus(x, y) { Some(w) => Some(Ann::W(w)), None => None },
        _ => Some(Ann::Unit),
    }
}

/// The annotation a semiring gives a fact that carries no weight.
pub open spec fn ann_of_weight(w: Option<Weight>) -> Ann {
    match w { None => Ann::Unit, Some(x) => Ann::W(x) }
}

/// `⊗`'s identity in `sem`.
pub open spec fn ann_id(sem: Semiring) -> Ann {
    match sem { Semiring::Bool => Ann::Unit, Semiring::Trop => Ann::W(Weight::Finite(0)) }
}

impl Ann {
    /// An EDB annotation from an optional weight: no weight is Bool's `Unit`.
    pub fn from_weight(weight: Option<Weight>) -> (a: Ann)
        ensures
            a == ann_of_weight(weight),
    {
        match weight {
            None => Ann::Unit,
            Some(w) => Ann::W(w),
        }
    }

    /// `⊗`'s identity for `sem`: Bool `Unit`, Trop `0`.
    pub fn otimes_id(sem: Semiring) -> (a: Ann)
        ensures
            a == ann_id(sem),
    {
        match sem {
            Semiring::Bool => Ann::Unit,
            Semiring::Trop => Ann::W(Weight::otimes_id()),
        }
    }

    /// `⊕` of two derivations of one tuple (Bool: or; Trop: min), and whether
    /// it improved on `self`.
    pub fn oplus(self, other: Ann) -> (r: (Ann, bool))
        requires
            same_kind(self, other),
        ensures
            r == ann_oplus(self, other),
    {
        match (self, other) {
            (Ann::W(a), Ann::W(b)) => {
                let m = a.oplus(b);
                (Ann::W(m), m.lt(a))
            },
            _ => (Ann::Unit, false),
        }
    }

    /// `⊗` along one derivation (Bool: and; Trop: checked `+`).
    pub fn otimes(self, other: Ann) -> (r: Result<Ann, TropOverflow>)
        requires
            same_kind(self, other),
        ensures
            r == match ann_otimes(self, other) { Some(a) => Ok::<Ann, TropOverflow>(a), None => Err(TropOverflow) },
    {
        match (self, other) {
            (Ann::W(a), Ann::W(b)) => match a.otimes(b) {
                Ok(w) => Ok(Ann::W(w)),
                Err(e) => Err(e),
            },
            _ => Ok(Ann::Unit),
        }
    }
}

} // verus!
