//! The order of ground atoms and models: lexicographic on predicate names (by
//! character), then on argument lists, where symbols precede integers — the
//! order the answer lists are reported in.
use vstd::prelude::*;
use crate::asp::{GroundAtom, Val};
use vstd::multiset::Multiset;

verus! {

/// `-1`, `0` or `1` by the sign of `x`.
pub open spec fn sign(x: int) -> int {
    if x < 0 { -1 } else if x == 0 { 0 } else { 1 }
}

/// Lexicographic order of sequences under the element order `f`; a proper
/// prefix comes first.
pub open spec fn lex<A>(a: Seq<A>, b: Seq<A>, f: spec_fn(A, A) -> int) -> int
    decreases a.len(),
{
    if a.len() == 0 {
        if b.len() == 0 { 0 } else { -1 }
    } else if b.len() == 0 {
        1
    } else {
        let c = f(a[0], b[0]);
        if c != 0 { c } else { lex(a.drop_first(), b.drop_first(), f) }
    }
}

/// `f` is a total preorder given as a three-way comparison.
pub open spec fn is_order<A>(f: spec_fn(A, A) -> int) -> bool {
    &&& forall|a: A, b: A| #[trigger] f(a, b) == -f(b, a) && -1 <= f(a, b) <= 1
    &&& forall|a: A, b: A, c: A| #[trigger] f(a, b) <= 0 && #[trigger] f(b, c) <= 0 ==> f(a, c) <= 0
    &&& forall|a: A, b: A, c: A| #[trigger] f(a, b) == 0 ==> #[trigger] f(a, c) == f(b, c)
}

pub open spec fn lex_of<A>(f: spec_fn(A, A) -> int) -> spec_fn(Seq<A>, Seq<A>) -> int {
    |a: Seq<A>, b: Seq<A>| lex(a, b, f)
}

proof fn lemma_lex_antisym<A>(a: Seq<A>, b: Seq<A>, f: spec_fn(A, A) -> int)
    requires
        is_order(f),
    ensures
        lex(a, b, f) == -lex(b, a, f),
        -1 <= lex(a, b, f) <= 1,
    decreases a.len(),
{
    if a.len() > 0 && b.len() > 0 {
        assert(f(a[0], b[0]) == -f(b[0], a[0]));
        lemma_lex_antisym(a.drop_first(), b.drop_first(), f);
    }
}

proof fn lemma_lex_trans<A>(a: Seq<A>, b: Seq<A>, c: Seq<A>, f: spec_fn(A, A) -> int)
    requires
        is_order(f),
        lex(a, b, f) <= 0,
        lex(b, c, f) <= 0,
    ensures
        lex(a, c, f) <= 0,
    decreases a.len(),
{
    if a.len() > 0 && b.len() > 0 && c.len() > 0 {
        let (x, y, z) = (a[0], b[0], c[0]);
        assert(f(x, y) == -f(y, x));
        assert(f(y, z) == -f(z, y));
        if f(x, y) == 0 {
            assert(f(x, z) == f(y, z));
            if f(y, z) == 0 {
                lemma_lex_trans(a.drop_first(), b.drop_first(), c.drop_first(), f);
            }
        } else if f(y, z) == 0 {
            assert(f(y, x) == f(z, x));
            assert(f(x, z) == -f(z, x));
        } else {
            assert(f(x, z) <= 0);
            if f(x, z) == 0 {
                assert(f(x, y) == f(z, y));
            }
        }
    }
}

proof fn lemma_lex_cong<A>(a: Seq<A>, b: Seq<A>, c: Seq<A>, f: spec_fn(A, A) -> int)
    requires
        is_order(f),
        lex(a, b, f) == 0,
    ensures
        lex(a, c, f) == lex(b, c, f),
    decreases a.len(),
{
    if a.len() > 0 && b.len() > 0 && c.len() > 0 {
        assert(f(a[0], b[0]) == 0);
        assert(f(a[0], c[0]) == f(b[0], c[0]));
        lemma_lex_cong(a.drop_first(), b.drop_first(), c.drop_first(), f);
    }
}

/// Lexicographic extension keeps the order properties.
pub proof fn lemma_lex_order<A>(f: spec_fn(A, A) -> int)
    requires
        is_order(f),
    ensures
        is_order(lex_of(f)),
{
    let g = lex_of(f);
    assert forall|a: Seq<A>, b: Seq<A>| #[trigger] g(a, b) == -g(b, a) && -1 <= g(a, b) <= 1 by {
        lemma_lex_antisym(a, b, f);
    }
    assert forall|a: Seq<A>, b: Seq<A>, c: Seq<A>| #[trigger] g(a, b) <= 0 && #[trigger] g(b, c) <= 0 implies g(a, c) <= 0 by {
        lemma_lex_trans(a, b, c, f);
    }
    assert forall|a: Seq<A>, b: Seq<A>, c: Seq<A>| #[trigger] g(a, b) == 0 implies #[trigger] g(a, c) == g(b, c) by {
        lemma_lex_cong(a, b, c, f);
    }
}

/// After `i` equal positions, the comparison is that of the remainders.
pub proof fn lemma_lex_skip<A>(a: Seq<A>, b: Seq<A>, f: spec_fn(A, A) -> int, i: int)
    requires
        0 <= i <= a.len(),
        i <= b.len(),
        forall|j: int| 0 <= j < i ==> f(a[j], b[j]) == 0,
    ensures
        lex(a, b, f) == lex(a.skip(i), b.skip(i), f),
    decreases i,
{
    if i > 0 {
        assert(f(a[0], b[0]) == 0);
        lemma_lex_skip(a.drop_first(), b.drop_first(), f, i - 1);
        assert(a.drop_first().skip(i - 1) =~= a.skip(i));
        assert(b.drop_first().skip(i - 1) =~= b.skip(i));
    } else {
        assert(a.skip(0) =~= a);
        assert(b.skip(0) =~= b);
    }
}

/// Characters by code point.
pub open spec fn ord_char() -> spec_fn(char, char) -> int {
    |a: char, b: char| sign(a as int - b as int)
}

/// Strings by their characters.
pub open spec fn ord_str(a: Seq<char>, b: Seq<char>) -> int {
    lex(a, b, ord_char())
}

/// Values: symbols (by name) before integers (by value).
pub open spec fn ord_val(a: Val, b: Val) -> int {
    match (a, b) {
        (Val::Sym(x), Val::Sym(y)) => ord_str(x@, y@),
        (Val::Sym(_), Val::Int(_)) => -1,
        (Val::Int(_), Val::Sym(_)) => 1,
        (Val::Int(x), Val::Int(y)) => sign(x - y),
    }
}

pub open spec fn ord_val_fn() -> spec_fn(Val, Val) -> int {
    |a: Val, b: Val| ord_val(a, b)
}

/// What an atom's order looks at: its predicate's characters and its arguments.
pub type AtomView = (Seq<char>, Seq<Val>);

pub open spec fn av(a: GroundAtom) -> AtomView {
    (a.0@, a.1@)
}

/// The atoms of a model, by view.
pub open spec fn mv(m: Seq<GroundAtom>) -> Seq<AtomView> {
    m.map_values(|a: GroundAtom| av(a))
}

/// Atoms: by predicate, then by argument list.
pub open spec fn ord_atom(a: AtomView, b: AtomView) -> int {
    let c = ord_str(a.0, b.0);
    if c != 0 { c } else { lex(a.1, b.1, ord_val_fn()) }
}

pub open spec fn ord_atom_fn() -> spec_fn(AtomView, AtomView) -> int {
    |a: AtomView, b: AtomView| ord_atom(a, b)
}

/// Models: lexicographically by their (sorted) atoms.
pub open spec fn ord_model(a: Seq<AtomView>, b: Seq<AtomView>) -> int {
    lex(a, b, ord_atom_fn())
}

pub open spec fn ord_model_fn() -> spec_fn(Seq<AtomView>, Seq<AtomView>) -> int {
    |a: Seq<AtomView>, b: Seq<AtomView>| ord_model(a, b)
}

/// Non-decreasing under `f`.
pub open spec fn sorted_by<A>(s: Seq<A>, f: spec_fn(A, A) -> int) -> bool {
    forall|i: int, j: int| 0 <= i < j < s.len() ==> f(s[i], s[j]) <= 0
}

pub proof fn lemma_orders()
    ensures
        is_order(ord_char()),
        is_order(lex_of(ord_char())),
        is_order(ord_val_fn()),
        is_order(lex_of(ord_val_fn())),
        is_order(ord_atom_fn()),
        is_order(lex_of(ord_atom_fn())),
        is_order(ord_model_fn()),
{
    lemma_lex_order(ord_char());
    let s = lex_of(ord_char());
    let v = ord_val_fn();
    assert forall|a: Val, b: Val| #[trigger] v(a, b) == -v(b, a) && -1 <= v(a, b) <= 1 by {
        if let (Val::Sym(x), Val::Sym(y)) = (a, b) { assert(s(x@, y@) == -s(y@, x@)); }
    }
    assert forall|a: Val, b: Val, c: Val| #[trigger] v(a, b) <= 0 && #[trigger] v(b, c) <= 0 implies v(a, c) <= 0 by {
        if let (Val::Sym(x), Val::Sym(y), Val::Sym(z)) = (a, b, c) { assert(s(x@, y@) <= 0 && s(y@, z@) <= 0); }
    }
    assert forall|a: Val, b: Val, c: Val| #[trigger] v(a, b) == 0 implies #[trigger] v(a, c) == v(b, c) by {
        if let (Val::Sym(x), Val::Sym(y), Val::Sym(z)) = (a, b, c) { assert(s(x@, y@) == 0); assert(s(x@, z@) == s(y@, z@)); }
    }
    lemma_lex_order(v);
    let l = lex_of(v);
    let t = ord_atom_fn();
    assert forall|a: AtomView, b: AtomView| #[trigger] t(a, b) == -t(b, a) && -1 <= t(a, b) <= 1 by {
        assert(s(a.0, b.0) == -s(b.0, a.0));
        assert(l(a.1, b.1) == -l(b.1, a.1));
    }
    assert forall|a: AtomView, b: AtomView, c: AtomView| #[trigger] t(a, b) <= 0 && #[trigger] t(b, c) <= 0 implies t(a, c) <= 0 by {
        assert(s(a.0, b.0) == -s(b.0, a.0));
        assert(s(b.0, c.0) == -s(c.0, b.0));
        assert(s(a.0, c.0) == -s(c.0, a.0));
        if s(a.0, b.0) == 0 {
            assert(s(a.0, c.0) == s(b.0, c.0));
            if s(b.0, c.0) == 0 { assert(l(a.1, b.1) <= 0 && l(b.1, c.1) <= 0); }
        } else if s(b.0, c.0) == 0 {
            assert(s(b.0, a.0) == s(c.0, a.0));
        } else {
            assert(s(a.0, b.0) <= 0 && s(b.0, c.0) <= 0);
            if s(a.0, c.0) == 0 { assert(s(a.0, b.0) == s(c.0, b.0)); }
        }
    }
    assert forall|a: AtomView, b: AtomView, c: AtomView| #[trigger] t(a, b) == 0 implies #[trigger] t(a, c) == t(b, c) by {
        assert(s(a.0, b.0) == 0);
        assert(s(a.0, c.0) == s(b.0, c.0));
        assert(l(a.1, b.1) == 0);
        assert(l(a.1, c.1) == l(b.1, c.1));
    }
    lemma_lex_order(t);
    assert(ord_model_fn() =~= lex_of(t)) by {
        assert forall|a: Seq<AtomView>, b: Seq<AtomView>| #[trigger] ord_model_fn()(a, b) == lex_of(t)(a, b) by {}
    }
}


/// Compare two strings by their characters.
pub fn compare_str(a: &String, b: &String) -> (c: i8)
    ensures
        c == ord_str(a@, b@),
{
    let sa = a.as_str();
    let sb = b.as_str();
    let la = sa.unicode_len();
    let lb = sb.unicode_len();
    let mut i: usize = 0;
    while i < la && i < lb
        invariant
            la == a@.len(),
            lb == b@.len(),
            sa@ == a@,
            sb@ == b@,
            i <= la,
            i <= lb,
            forall|j: int| 0 <= j < i ==> ord_char()(a@[j], b@[j]) == 0,
        decreases la - i,
    {
        let x = sa.get_char(i);
        let y = sb.get_char(i);
        if (x as u32) != (y as u32) {
            proof {
                lemma_lex_skip(a@, b@, ord_char(), i as int);
                assert(a@.skip(i as int)[0] == x);
                assert(b@.skip(i as int)[0] == y);
            }
            if (x as u32) < (y as u32) { return -1; } else { return 1; }
        }
        i = i + 1;
    }
    proof {
        lemma_lex_skip(a@, b@, ord_char(), i as int);
    }
    if la < lb { -1 } else if la > lb { 1 } else { 0 }
}

/// Compare two values: symbols before integers.
pub fn compare_val(a: &Val, b: &Val) -> (c: i8)
    ensures
        c == ord_val(*a, *b),
{
    match (a, b) {
        (Val::Sym(x), Val::Sym(y)) => compare_str(x, y),
        (Val::Sym(_), Val::Int(_)) => -1,
        (Val::Int(_), Val::Sym(_)) => 1,
        (Val::Int(x), Val::Int(y)) => if *x < *y { -1 } else if *x == *y { 0 } else { 1 },
    }
}

/// Compare two argument lists lexicographically.
pub fn compare_vals(a: &Vec<Val>, b: &Vec<Val>) -> (c: i8)
    ensures
        c == lex(a@, b@, ord_val_fn()),
{
    let mut i: usize = 0;
    while i < a.len() && i < b.len()
        invariant
            i <= a@.len(),
            i <= b@.len(),
            forall|j: int| 0 <= j < i ==> ord_val_fn()(a@[j], b@[j]) == 0,
        decreases a@.len() - i,
    {
        let c = compare_val(&a[i], &b[i]);
        if c != 0 {
            proof {
                lemma_lex_skip(a@, b@, ord_val_fn(), i as int);
                assert(a@.skip(i as int)[0] == a@[i as int]);
                assert(b@.skip(i as int)[0] == b@[i as int]);
            }
            return c;
        }
        i = i + 1;
    }
    proof {
        lemma_lex_skip(a@, b@, ord_val_fn(), i as int);
    }
    if a.len() < b.len() { -1 } else if a.len() > b.len() { 1 } else { 0 }
}

/// Compare two ground atoms: by predicate, then by arguments.
pub fn compare_atom(a: &GroundAtom, b: &GroundAtom) -> (c: i8)
    ensures
        c == ord_atom(av(*a), av(*b)),
{
    let c = compare_str(&a.0, &b.0);
    if c != 0 { c } else { compare_vals(&a.1, &b.1) }
}

/// Compare two models (sorted atom lists) lexicographically.
pub fn compare_model(a: &Vec<GroundAtom>, b: &Vec<GroundAtom>) -> (c: i8)
    ensures
        c == ord_model(mv(a@), mv(b@)),
{
    let ghost ma = mv(a@);
    let ghost mb = mv(b@);
    let mut i: usize = 0;
    while i < a.len() && i < b.len()
        invariant
            i <= a@.len(),
            i <= b@.len(),
            ma == mv(a@),
            mb == mv(b@),
            forall|j: int| 0 <= j < i ==> ord_atom_fn()(ma[j], mb[j]) == 0,
        decreases a@.len() - i,
    {
        let c = compare_atom(&a[i], &b[i]);
        if c != 0 {
            proof {
                lemma_lex_skip(ma, mb, ord_atom_fn(), i as int);
                assert(ma.skip(i as int)[0] == av(a@[i as int]));
                assert(mb.skip(i as int)[0] == av(b@[i as int]));
            }
            return c;
        }
        i = i + 1;
    }
    proof {
        lemma_lex_skip(ma, mb, ord_atom_fn(), i as int);
    }
    if a.len() < b.len() { -1 } else if a.len() > b.len() { 1 } else { 0 }
}

/// Sort the atoms of a model.
pub fn sort_atoms(v: Vec<GroundAtom>) -> (r: Vec<GroundAtom>)
    ensures
        mv(r@).to_multiset() == mv(v@).to_multiset(),
        sorted_by(mv(r@), ord_atom_fn()),
{
    broadcast use vstd::seq_lib::group_to_multiset_ensures;
    proof { lemma_orders(); }
    let ghost v0 = v@;
    let mut v = v;
    let mut r: Vec<GroundAtom> = Vec::new();
    while v.len() > 0
        invariant
            is_order(ord_atom_fn()),
            mv(r@).to_multiset().add(mv(v@).to_multiset()) == mv(v0).to_multiset(),
            sorted_by(mv(r@), ord_atom_fn()),
        decreases v@.len(),
    {
        let ghost vb = v@;
        let x = v.pop().unwrap();
        assert(vb =~= v@.push(x));
        assert(mv(vb) =~= mv(v@).push(av(x)));
        let mut k: usize = 0;
        while k < r.len() && compare_atom(&x, &r[k]) >= 0
            invariant
                k <= r@.len(),
                forall|j: int| 0 <= j < k ==> ord_atom(av(x), av(r@[j])) >= 0,
            decreases r@.len() - k,
        {
            k = k + 1;
        }
        let ghost rb = r@;
        r.insert(k, x);
        proof {
            let f = ord_atom_fn();
            assert(mv(r@) =~= mv(rb).insert(k as int, av(x)));
            broadcast use vstd::multiset::group_multiset_axioms;
            vstd::seq_lib::to_multiset_insert(mv(rb), k as int, av(x));
            vstd::seq_lib::to_multiset_build(mv(v@), av(x));
            assert(mv(r@).to_multiset() == mv(rb).to_multiset().insert(av(x)));
            assert(mv(vb).to_multiset() == mv(v@).to_multiset().insert(av(x)));
            assert(mv(r@).to_multiset().add(mv(v@).to_multiset()) =~= mv(rb).to_multiset().add(mv(vb).to_multiset()));
            assert forall|i: int, j: int| 0 <= i < j < mv(r@).len() implies f(mv(r@)[i], mv(r@)[j]) <= 0 by {
                let m = mv(r@);
                let mb = mv(rb);
                if j < k {
                    assert(m[i] == mb[i] && m[j] == mb[j]);
                } else if i > k {
                    assert(m[i] == mb[i - 1] && m[j] == mb[j - 1]);
                } else if i == k {
                    assert(m[j] == mb[j - 1]);
                    assert(f(av(x), mb[k as int]) < 0);
                    if j - 1 > k { assert(f(mb[k as int], mb[j - 1]) <= 0); }
                } else if j == k {
                    assert(m[i] == mb[i]);
                    assert(f(av(x), mb[i]) >= 0);
                    assert(f(mb[i], av(x)) == -f(av(x), mb[i]));
                } else {
                    assert(m[i] == mb[i] && m[j] == mb[j - 1]);
                }
            }
        }
    }
    proof {
        assert(mv(v@).to_multiset() =~= Multiset::empty());
        assert(mv(r@).to_multiset().add(Multiset::empty()) =~= mv(r@).to_multiset());
    }
    r
}

/// The models, by view.
pub open spec fn mvs(ms: Seq<Vec<GroundAtom>>) -> Seq<Seq<AtomView>> {
    ms.map_values(|m: Vec<GroundAtom>| mv(m@))
}

/// Sort a list of models.
pub fn sort_models(v: Vec<Vec<GroundAtom>>) -> (r: Vec<Vec<GroundAtom>>)
    ensures
        mvs(r@).to_multiset() == mvs(v@).to_multiset(),
        sorted_by(mvs(r@), ord_model_fn()),
{
    broadcast use vstd::seq_lib::group_to_multiset_ensures;
    proof { lemma_orders(); }
    let ghost v0 = v@;
    let mut v = v;
    let mut r: Vec<Vec<GroundAtom>> = Vec::new();
    while v.len() > 0
        invariant
            is_order(ord_model_fn()),
            mvs(r@).to_multiset().add(mvs(v@).to_multiset()) == mvs(v0).to_multiset(),
            sorted_by(mvs(r@), ord_model_fn()),
        decreases v@.len(),
    {
        let ghost vb = v@;
        let x = v.pop().unwrap();
        assert(vb =~= v@.push(x));
        assert(mvs(vb) =~= mvs(v@).push(mv(x@)));
        let mut k: usize = 0;
        while k < r.len() && compare_model(&x, &r[k]) >= 0
            invariant
                k <= r@.len(),
                forall|j: int| 0 <= j < k ==> ord_model(mv(x@), mv(r@[j]@)) >= 0,
            decreases r@.len() - k,
        {
            k = k + 1;
        }
        let ghost rb = r@;
        r.insert(k, x);
        proof {
            let f = ord_model_fn();
            assert(mvs(r@) =~= mvs(rb).insert(k as int, mv(x@)));
            broadcast use vstd::multiset::group_multiset_axioms;
            vstd::seq_lib::to_multiset_insert(mvs(rb), k as int, mv(x@));
            vstd::seq_lib::to_multiset_build(mvs(v@), mv(x@));
            assert(mvs(r@).to_multiset() == mvs(rb).to_multiset().insert(mv(x@)));
            assert(mvs(vb).to_multiset() == mvs(v@).to_multiset().insert(mv(x@)));
            assert(mvs(r@).to_multiset().add(mvs(v@).to_multiset()) =~= mvs(rb).to_multiset().add(mvs(vb).to_multiset()));
            assert forall|i: int, j: int| 0 <= i < j < mvs(r@).len() implies f(mvs(r@)[i], mvs(r@)[j]) <= 0 by {
                let m = mvs(r@);
                let mb = mvs(rb);
                if j < k {
                    assert(m[i] == mb[i] && m[j] == mb[j]);
                } else if i > k {
                    assert(m[i] == mb[i - 1] && m[j] == mb[j - 1]);
                } else if i == k {
                    assert(m[j] == mb[j - 1]);
                    assert(f(mv(x@), mb[k as int]) < 0);
                    if j - 1 > k { assert(f(mb[k as int], mb[j - 1]) <= 0); }
                } else if j == k {
                    assert(m[i] == mb[i]);
                    assert(f(mv(x@), mb[i]) >= 0);
                    assert(f(mb[i], mv(x@)) == -f(mv(x@), mb[i]));
                } else {
                    assert(m[i] == mb[i] && m[j] == mb[j - 1]);
                }
            }
        }
    }
    proof {
        assert(mvs(v@).to_multiset() =~= Multiset::empty());
        assert(mvs(r@).to_multiset().add(Multiset::empty()) =~= mvs(r@).to_multiset());
    }
    r
}

} // verus!
