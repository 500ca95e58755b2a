//! Reading the models a clasp-compatible solver prints back to ground atoms.
//!
//! clasp's default output names each model on an `Answer: N (…)` line followed
//! by exactly one line holding that model's shown atoms (a blank line is the
//! empty model). The shown atoms are the `s<id>` symbols of the aspif document.
use vstd::prelude::*;
use crate::asp::{copy_atom, Ground, GroundAtom};
use crate::asp::aspif::parse_show_name_spec;
use crate::asp::order::{av, compare_model, is_order, lemma_orders, mv, mvs, ord_atom_fn, ord_model, ord_model_fn, sort_atoms, sort_models, sorted_by, AtomView};
use crate::text::{chars_of, is_ws, parse_usize_chars, ws};
use vstd::multiset::Multiset;

verus! {

/// A line without the carriage return that ends it, if any.
pub open spec fn strip_cr(p: Seq<char>) -> Seq<char> {
    if p.len() > 0 && p.last() == '\r' { p.drop_last() } else { p }
}

/// Lines read so far from `t`: the finished lines (each ended by `\n`, with a
/// `\r` before it dropped) and the line in progress.
pub open spec fn line_state(t: Seq<char>) -> (Seq<Seq<char>>, Seq<char>)
    decreases t.len(),
{
    if t.len() == 0 {
        (Seq::empty(), Seq::empty())
    } else {
        let (done, cur) = line_state(t.drop_last());
        if t.last() == '\n' { (done.push(strip_cr(cur)), Seq::empty()) } else { (done, cur.push(t.last())) }
    }
}

/// The lines of `t` as `str::lines` gives them: a final line needs no `\n`.
pub open spec fn text_lines(t: Seq<char>) -> Seq<Seq<char>> {
    let (done, cur) = line_state(t);
    if cur.len() > 0 { done.push(cur) } else { done }
}

/// Tokens read so far from `t`: the finished ones and the one in progress.
pub open spec fn token_state(t: Seq<char>) -> (Seq<Seq<char>>, Seq<char>)
    decreases t.len(),
{
    if t.len() == 0 {
        (Seq::empty(), Seq::empty())
    } else {
        let (done, cur) = token_state(t.drop_last());
        if is_ws(t.last()) {
            (if cur.len() > 0 { done.push(cur) } else { done }, Seq::empty())
        } else {
            (done, cur.push(t.last()))
        }
    }
}

/// The maximal runs of non-whitespace characters, as `split_whitespace` gives them.
pub open spec fn tokens(t: Seq<char>) -> Seq<Seq<char>> {
    let (done, cur) = token_state(t);
    if cur.len() > 0 { done.push(cur) } else { done }
}

/// The marker that opens a model.
pub open spec fn answer_marker() -> Seq<char> {
    seq!['A', 'n', 's', 'w', 'e', 'r', ':']
}

/// `line` begins with the model marker.
pub open spec fn is_answer(line: Seq<char>) -> bool {
    line.len() >= 7 && line.subrange(0, 7) == answer_marker()
}

/// The model lines among the first `k` lines: the line after each marker line
/// (an empty line when the marker line is the last one).
pub open spec fn answer_lines(ls: Seq<Seq<char>>, k: nat) -> Seq<Seq<char>>
    decreases k,
{
    if k == 0 {
        Seq::empty()
    } else {
        let prev = answer_lines(ls, (k - 1) as nat);
        if is_answer(ls[k - 1]) {
            prev.push(if k < ls.len() { ls[k as int] } else { Seq::empty() })
        } else {
            prev
        }
    }
}

/// The atoms the tokens name: each `s<id>` token with `id` an atom of the table,
/// in order; other tokens name nothing.
pub open spec fn token_atoms(toks: Seq<Seq<char>>, atoms: Seq<GroundAtom>) -> Seq<AtomView>
    decreases toks.len(),
{
    if toks.len() == 0 {
        Seq::empty()
    } else {
        let prev = token_atoms(toks.drop_last(), atoms);
        match parse_show_name_spec(toks.last()) {
            Some(id) => if id < atoms.len() { prev.push(av(atoms[id as int])) } else { prev },
            None => prev,
        }
    }
}

/// The models printed in `text`, one per marker, each as the atoms its line names.
pub open spec fn printed_models(text: Seq<char>, atoms: Seq<GroundAtom>) -> Seq<Seq<AtomView>> {
    let ls = text_lines(text);
    answer_lines(ls, ls.len()).map_values(|l: Seq<char>| token_atoms(tokens(l), atoms))
}

/// `m` is, up to the order of atoms, the sorted arrangement of the atoms `r`.
pub open spec fn sorted_form(m: Seq<AtomView>, r: Seq<AtomView>) -> bool {
    exists|p: Seq<AtomView>|
        #![trigger p.to_multiset()]
        p.to_multiset() == r.to_multiset() && sorted_by(p, ord_atom_fn()) && ord_model(m, p) == 0
}

/// `m` holds the atoms of one of the models `pm`.
pub open spec fn is_printed(m: Seq<AtomView>, pm: Seq<Seq<AtomView>>) -> bool {
    exists|k: int| 0 <= k < pm.len() && m.to_multiset() == #[trigger] pm[k].to_multiset()
}

/// One of the models `ms` is the sorted form of `r`.
pub open spec fn has_sorted_form(ms: Seq<Seq<AtomView>>, r: Seq<AtomView>) -> bool {
    exists|i: int| 0 <= i < ms.len() && sorted_form(#[trigger] ms[i], r)
}

/// The character views of a vector of character vectors.
pub open spec fn cviews(s: Seq<Vec<char>>) -> Seq<Seq<char>> {
    s.map_values(|x: Vec<char>| x@)
}

/// The lines of `t`.
fn split_lines(t: &Vec<char>) -> (ls: Vec<Vec<char>>)
    ensures
        cviews(ls@) == text_lines(t@),
{
    let mut done: Vec<Vec<char>> = Vec::new();
    let mut cur: Vec<char> = Vec::new();
    let mut i: usize = 0;
    while i < t.len()
        invariant
            i <= t@.len(),
            (cviews(done@), cur@) == line_state(t@.take(i as int)),
        decreases t@.len() - i,
    {
        let c = t[i];
        proof {
            assert(t@.take(i + 1).drop_last() =~= t@.take(i as int));
            assert(t@.take(i + 1).last() == c);
        }
        if c == '\n' {
            let n = cur.len();
            if n > 0 && cur[n - 1] == '\r' {
                cur.pop();
            }
            let ghost d0 = done@;
            let ghost c0 = cur@;
            let mut line: Vec<char> = Vec::new();
            std::mem::swap(&mut line, &mut cur);
            done.push(line);
            proof {
                assert(cviews(done@) =~= cviews(d0).push(c0));
                assert(cur@ =~= Seq::<char>::empty());
            }
        } else {
            cur.push(c);
        }
        i = i + 1;
    }
    assert(t@.take(i as int) =~= t@);
    if cur.len() > 0 {
        let ghost d0 = done@;
        done.push(cur);
        assert(cviews(done@) =~= cviews(d0).push(done@.last()@));
    }
    done
}

/// The whitespace-separated tokens of `t`.
fn split_tokens(t: &Vec<char>) -> (ts: Vec<Vec<char>>)
    ensures
        cviews(ts@) == tokens(t@),
{
    let mut done: Vec<Vec<char>> = Vec::new();
    let mut cur: Vec<char> = Vec::new();
    let mut i: usize = 0;
    while i < t.len()
        invariant
            i <= t@.len(),
            (cviews(done@), cur@) == token_state(t@.take(i as int)),
        decreases t@.len() - i,
    {
        let c = t[i];
        proof {
            assert(t@.take(i + 1).drop_last() =~= t@.take(i as int));
            assert(t@.take(i + 1).last() == c);
        }
        if ws(c) {
            if cur.len() > 0 {
                let ghost d0 = done@;
                let ghost c0 = cur@;
                let mut tok: Vec<char> = Vec::new();
                std::mem::swap(&mut tok, &mut cur);
                done.push(tok);
                assert(cviews(done@) =~= cviews(d0).push(c0));
            }
            assert(cur@ =~= Seq::<char>::empty());
        } else {
            cur.push(c);
        }
        i = i + 1;
    }
    assert(t@.take(i as int) =~= t@);
    if cur.len() > 0 {
        let ghost d0 = done@;
        done.push(cur);
        assert(cviews(done@) =~= cviews(d0).push(done@.last()@));
    }
    done
}

/// Whether the line opens a model.
fn starts_answer(l: &Vec<char>) -> (b: bool)
    ensures
        b == is_answer(l@),
{
    let r = l.len() >= 7 && l[0] == 'A' && l[1] == 'n' && l[2] == 's' && l[3] == 'w' && l[4] == 'e'
        && l[5] == 'r' && l[6] == ':';
    proof {
        if l@.len() >= 7 {
            let p = l@.subrange(0, 7);
            if r {
                assert(p =~= answer_marker());
            } else {
                assert(p[0] == l@[0] && p[1] == l@[1] && p[2] == l@[2] && p[3] == l@[3]);
                assert(p[4] == l@[4] && p[5] == l@[5] && p[6] == l@[6]);
                if p == answer_marker() {
                    assert(answer_marker()[0] == 'A');
                }
            }
        }
    }
    r
}

/// The atom id a token names as a show symbol (`s<id>`), if it is one.
fn token_id(tok: &Vec<char>) -> (r: Option<usize>)
    ensures
        r matches Some(v) ==> parse_show_name_spec(tok@) == Some(v as nat),
        r is None ==> parse_show_name_spec(tok@) is None,
{
    if tok.len() == 0 || tok[0] != 's' {
        return None;
    }
    assert(tok@.subrange(1, tok@.len() as int) =~= tok@.drop_first());
    parse_usize_chars(tok, 1)
}

/// The atoms one model line names, sorted.
fn line_model(line: &Vec<char>, g: &Ground) -> (m: Vec<GroundAtom>)
    ensures
        mv(m@).to_multiset() == token_atoms(tokens(line@), g.atoms@).to_multiset(),
        sorted_by(mv(m@), ord_atom_fn()),
{
    let toks = split_tokens(line);
    let mut atoms: Vec<GroundAtom> = Vec::new();
    let mut k: usize = 0;
    while k < toks.len()
        invariant
            k <= toks@.len(),
            cviews(toks@) == tokens(line@),
            mv(atoms@) == token_atoms(cviews(toks@).take(k as int), g.atoms@),
        decreases toks@.len() - k,
    {
        let ghost tv = cviews(toks@);
        proof {
            assert(tv.take(k + 1).drop_last() =~= tv.take(k as int));
            assert(tv.take(k + 1).last() == toks@[k as int]@);
        }
        match token_id(&toks[k]) {
            Some(id) => {
                if id < g.atoms.len() {
                    let a = copy_atom(&g.atoms[id]);
                    let ghost a0 = atoms@;
                    atoms.push(a);
                    assert(mv(atoms@) =~= mv(a0).push(av(g.atoms@[id as int])));
                }
            },
            None => {},
        }
        k = k + 1;
    }
    assert(cviews(toks@).take(k as int) =~= cviews(toks@));
    sort_atoms(atoms)
}

/// The models of the marker lines among `lines`, each sorted.
fn collect_models(lines: &Vec<Vec<char>>, g: &Ground) -> (raw: Vec<Vec<GroundAtom>>)
    ensures
        raw@.len() == answer_lines(cviews(lines@), lines@.len() as nat).len(),
        forall|k: int| 0 <= k < raw@.len() ==> mv((#[trigger] raw@[k])@).to_multiset()
            == token_atoms(tokens(answer_lines(cviews(lines@), lines@.len() as nat)[k]), g.atoms@).to_multiset(),
        forall|k: int| 0 <= k < raw@.len() ==> sorted_by(mv((#[trigger] raw@[k])@), ord_atom_fn()),
{
    let ghost ls = cviews(lines@);
    let mut raw: Vec<Vec<GroundAtom>> = Vec::new();
    let mut i: usize = 0;
    while i < lines.len()
        invariant
            i <= lines@.len(),
            ls == cviews(lines@),
            raw@.len() == answer_lines(ls, i as nat).len(),
            forall|k: int| 0 <= k < raw@.len() ==> mv((#[trigger] raw@[k])@).to_multiset()
                == token_atoms(tokens(answer_lines(ls, i as nat)[k]), g.atoms@).to_multiset(),
            forall|k: int| 0 <= k < raw@.len() ==> sorted_by(mv((#[trigger] raw@[k])@), ord_atom_fn()),
        decreases lines@.len() - i,
    {
        assert(ls[i as int] == lines@[i as int]@);
        if starts_answer(&lines[i]) {
            let empty: Vec<char> = Vec::new();
            let m = if i + 1 < lines.len() { line_model(&lines[i + 1], g) } else { line_model(&empty, g) };
            proof {
                if i + 1 < lines@.len() {
                    assert(ls[i + 1] == lines@[i + 1]@);
                }
                assert(empty@ =~= Seq::<char>::empty());
            }
            raw.push(m);
        }
        i = i + 1;
    }
    raw
}

/// The models a clasp-compatible solver printed in `text`, as sorted lists of
/// the ground atoms of `g` they show, sorted, each model once.
pub fn parse_models(text: &str, g: &Ground) -> (ms: Vec<Vec<GroundAtom>>)
    ensures
        forall|i: int| 0 <= i < ms@.len() ==> sorted_by(#[trigger] mvs(ms@)[i], ord_atom_fn()),
        forall|i: int, j: int| 0 <= i < j < ms@.len() ==> ord_model(#[trigger] mvs(ms@)[i], #[trigger] mvs(ms@)[j]) < 0,
        forall|i: int| 0 <= i < ms@.len() ==> is_printed(#[trigger] mvs(ms@)[i], printed_models(text@, g.atoms@)),
        forall|k: int| 0 <= k < printed_models(text@, g.atoms@).len() ==> has_sorted_form(
            mvs(ms@),
            #[trigger] printed_models(text@, g.atoms@)[k],
        ),
{
    let chars = chars_of(text);
    let lines = split_lines(&chars);
    let raw = collect_models(&lines, g);
    let ghost pm = printed_models(text@, g.atoms@);
    proof {
        let ls = cviews(lines@);
        assert(pm.len() == raw@.len());
        assert forall|k: int| 0 <= k < raw@.len() implies (#[trigger] mvs(raw@)[k]).to_multiset() == pm[k].to_multiset()
            && sorted_by(mvs(raw@)[k], ord_atom_fn()) by {
            assert(mvs(raw@)[k] == mv(raw@[k]@));
            assert(pm[k] == token_atoms(tokens(answer_lines(ls, ls.len())[k]), g.atoms@));
        }
    }
    let ghost r0 = mvs(raw@);
    let sorted = sort_models(raw);
    let (out, Ghost(idx), Ghost(cov)) = dedup_models(&sorted);
    proof {
        lemma_kept_printed(pm, r0, mvs(sorted@), mvs(out@), idx);
        lemma_printed_kept(pm, r0, mvs(sorted@), mvs(out@), cov);
        lemma_kept_ascending(mvs(out@));
    }
    out
}

/// The order of models, held opaque so that proofs about runs of models do not
/// unfold the lexicographic comparison.
#[verifier::opaque]
spec fn model_order(a: Seq<AtomView>, b: Seq<AtomView>) -> int {
    ord_model(a, b)
}

proof fn lemma_model_order(a: Seq<AtomView>, b: Seq<AtomView>)
    ensures
        model_order(a, b) == ord_model(a, b),
{
    reveal(model_order);
}

/// Every model compares equal to itself.
proof fn lemma_self_eq(x: Seq<AtomView>)
    ensures
        model_order(x, x) == 0,
{
    reveal(model_order);
    lemma_orders();
    let f = ord_model_fn();
    assert(f(x, x) == -f(x, x));
}

/// Strict order of models is transitive.
proof fn lemma_lt_trans(a: Seq<AtomView>, b: Seq<AtomView>, c: Seq<AtomView>)
    requires
        model_order(a, b) < 0,
        model_order(b, c) < 0,
    ensures
        model_order(a, c) < 0,
{
    reveal(model_order);
    lemma_orders();
    let f = ord_model_fn();
    assert(f(a, b) < 0 && f(b, c) < 0);
    assert(f(a, c) <= 0);
    if f(a, c) == 0 {
        assert(f(a, b) == f(c, b));
        assert(f(c, b) == -f(b, c));
    }
}

/// An element of one arrangement of a multiset occurs in the other.
proof fn lemma_perm_index<A>(x: Seq<A>, y: Seq<A>, b: int) -> (k: int)
    requires
        x.to_multiset() == y.to_multiset(),
        0 <= b < x.len(),
    ensures
        0 <= k < y.len(),
        y[k] == x[b],
{
    broadcast use vstd::seq_lib::group_to_multiset_ensures;
    let e = x[b];
    assert(x.contains(e));
    assert(y.to_multiset().count(e) > 0);
    assert(y.contains(e));
    choose|k: int| 0 <= k < y.len() && y[k] == e
}

/// Each kept model is one of the printed models, sorted.
proof fn lemma_kept_printed(
    pm: Seq<Seq<AtomView>>,
    raw: Seq<Seq<AtomView>>,
    sorted: Seq<Seq<AtomView>>,
    out: Seq<Seq<AtomView>>,
    idx: Seq<int>,
)
    requires
        raw.len() == pm.len(),
        forall|k: int| 0 <= k < raw.len() ==> (#[trigger] raw[k]).to_multiset() == pm[k].to_multiset()
            && sorted_by(raw[k], ord_atom_fn()),
        sorted.to_multiset() == raw.to_multiset(),
        idx.len() == out.len(),
        forall|a: int| 0 <= a < out.len() ==> 0 <= #[trigger] idx[a] < sorted.len() && out[a] == sorted[idx[a]],
    ensures
        forall|i: int| 0 <= i < out.len() ==> sorted_by(#[trigger] out[i], ord_atom_fn()),
        forall|i: int| 0 <= i < out.len() ==> is_printed(#[trigger] out[i], pm),
{
    assert forall|i: int| 0 <= i < out.len() implies sorted_by(#[trigger] out[i], ord_atom_fn()) && is_printed(out[i], pm) by {
        let b = idx[i];
        let k = lemma_perm_index(sorted, raw, b);
        assert(out[i] == raw[k]);
        assert(raw[k].to_multiset() == pm[k].to_multiset() && sorted_by(raw[k], ord_atom_fn()));
        assert(out[i].to_multiset() == pm[k].to_multiset());
    }
}

/// Each printed model has a kept model equal to its sorted form.
proof fn lemma_printed_kept(
    pm: Seq<Seq<AtomView>>,
    raw: Seq<Seq<AtomView>>,
    sorted: Seq<Seq<AtomView>>,
    out: Seq<Seq<AtomView>>,
    cov: Seq<int>,
)
    requires
        raw.len() == pm.len(),
        forall|k: int| 0 <= k < raw.len() ==> (#[trigger] raw[k]).to_multiset() == pm[k].to_multiset()
            && sorted_by(raw[k], ord_atom_fn()),
        sorted.to_multiset() == raw.to_multiset(),
        cov.len() == sorted.len(),
        forall|c: int| 0 <= c < sorted.len() ==> 0 <= #[trigger] cov[c] < out.len() && model_order(out[cov[c]], sorted[c]) == 0,
    ensures
        forall|k: int| 0 <= k < pm.len() ==> has_sorted_form(out, #[trigger] pm[k]),
{
    assert forall|k: int| 0 <= k < pm.len() implies has_sorted_form(out, #[trigger] pm[k]) by {
        let x = raw[k];
        let q = lemma_perm_index(raw, sorted, k);
        let a = cov[q];
        assert(model_order(out[a], sorted[q]) == 0);
        lemma_model_order(out[a], x);
        assert(x.to_multiset() == pm[k].to_multiset() && sorted_by(x, ord_atom_fn()) && ord_model(out[a], x) == 0);
        assert(sorted_form(out[a], pm[k]));
    }
}

/// Kept models ascend strictly.
proof fn lemma_kept_ascending(out: Seq<Seq<AtomView>>)
    requires
        forall|a: int| 0 <= a < out.len() - 1 ==> model_order(#[trigger] out[a], out[a + 1]) < 0,
    ensures
        forall|i: int, j: int| 0 <= i < j < out.len() ==> ord_model(#[trigger] out[i], #[trigger] out[j]) < 0,
{
    assert forall|i: int, j: int| 0 <= i < j < out.len() implies ord_model(#[trigger] out[i], #[trigger] out[j]) < 0 by {
        lemma_chain(out, i, j);
        lemma_model_order(out[i], out[j]);
    }
}

/// In a list whose neighbours ascend strictly, any earlier model precedes any later one.
proof fn lemma_chain(out: Seq<Seq<AtomView>>, i: int, j: int)
    requires
        0 <= i < j < out.len(),
        forall|a: int| 0 <= a < out.len() - 1 ==> model_order(#[trigger] out[a], out[a + 1]) < 0,
    ensures
        model_order(out[i], out[j]) < 0,
    decreases j - i,
{
    if j > i + 1 {
        lemma_chain(out, i, j - 1);
        assert(model_order(out[j - 1], out[j]) < 0);
        lemma_lt_trans(out[i], out[j - 1], out[j]);
    }
}

/// Keep the first of each run of models that compare equal in a sorted list.
/// Also gives, for each kept model, where it stands in `sorted`, and, for each
/// sorted model, the kept one equal to it.
fn dedup_models(sorted: &Vec<Vec<GroundAtom>>) -> (r: (Vec<Vec<GroundAtom>>, Ghost<Seq<int>>, Ghost<Seq<int>>))
    requires
        sorted_by(mvs(sorted@), ord_model_fn()),
    ensures
        r.1@.len() == r.0@.len(),
        forall|a: int| 0 <= a < r.0@.len() ==> 0 <= #[trigger] r.1@[a] < sorted@.len() && mvs(r.0@)[a] == mvs(sorted@)[r.1@[a]],
        forall|a: int| 0 <= a < r.0@.len() - 1 ==> model_order(#[trigger] mvs(r.0@)[a], mvs(r.0@)[a + 1]) < 0,
        r.2@.len() == sorted@.len(),
        forall|c: int| 0 <= c < sorted@.len() ==> 0 <= #[trigger] r.2@[c] < r.0@.len()
            && model_order(mvs(r.0@)[r.2@[c]], mvs(sorted@)[c]) == 0,
{
    let ghost s = mvs(sorted@);
    assert forall|i: int, j: int| 0 <= i < j < s.len() implies model_order(#[trigger] s[i], #[trigger] s[j]) <= 0 by {
        reveal(model_order);
        assert((ord_model_fn())(s[i], s[j]) <= 0);
    }
    let mut out: Vec<Vec<GroundAtom>> = Vec::new();
    let ghost mut idx: Seq<int> = Seq::empty();
    let ghost mut cov: Seq<int> = Seq::empty();
    let mut q: usize = 0;
    while q < sorted.len()
        invariant
            q <= sorted@.len(),
            s == mvs(sorted@),
            forall|i: int, j: int| 0 <= i < j < s.len() ==> model_order(#[trigger] s[i], #[trigger] s[j]) <= 0,
            idx.len() == out@.len(),
            forall|a: int| 0 <= a < out@.len() ==> 0 <= #[trigger] idx[a] < q && mvs(out@)[a] == s[idx[a]],
            forall|a: int| 0 <= a < out@.len() - 1 ==> model_order(#[trigger] mvs(out@)[a], mvs(out@)[a + 1]) < 0,
            cov.len() == q,
            forall|c: int| 0 <= c < q ==> 0 <= #[trigger] cov[c] < out@.len() && model_order(mvs(out@)[cov[c]], s[c]) == 0,
            q > 0 ==> out@.len() > 0,
        decreases sorted@.len() - q,
    {
        let ghost o0 = mvs(out@);
        let ghost x = s[q as int];
        assert(x == mv(sorted@[q as int]@));
        let keep = if out.len() == 0 {
            true
        } else {
            let c = compare_model(&out[out.len() - 1], &sorted[q]);
            proof {
                assert(o0.last() == mv(out@[out@.len() - 1]@));
                lemma_model_order(o0.last(), x);
            }
            c != 0
        };
        if keep {
            let m = copy_model(&sorted[q]);
            out.push(m);
            proof {
                assert(mvs(out@) =~= o0.push(x));
                lemma_self_eq(x);
                if o0.len() > 0 {
                    let lb = idx[o0.len() - 1];
                    assert(o0.last() == s[lb]);
                    assert(model_order(s[lb], x) <= 0);
                    assert(model_order(o0.last(), x) < 0);
                }
                assert forall|a: int| 0 <= a < out@.len() - 1 implies model_order(#[trigger] mvs(out@)[a], mvs(out@)[a + 1]) < 0 by {
                    assert(mvs(out@)[a] == o0[a]);
                    if a + 1 < o0.len() {
                        assert(mvs(out@)[a + 1] == o0[a + 1]);
                    }
                }
                idx = idx.push(q as int);
                cov = cov.push(o0.len() as int);
                assert forall|a: int| 0 <= a < out@.len() implies 0 <= #[trigger] idx[a] < q + 1 && mvs(out@)[a] == s[idx[a]] by {
                    if a < o0.len() {
                        assert(mvs(out@)[a] == o0[a]);
                    }
                }
                assert forall|c: int| 0 <= c < q + 1 implies 0 <= #[trigger] cov[c] < out@.len() && model_order(mvs(out@)[cov[c]], s[c]) == 0 by {
                    if c < q {
                        assert(mvs(out@)[cov[c]] == o0[cov[c]]);
                    }
                }
            }
        } else {
            proof {
                let la = o0.len() - 1;
                assert(o0[la] == mv(out@[la]@));
                assert(model_order(o0[la], x) == 0);
                cov = cov.push(la);
            }
        }
        q = q + 1;
    }
    (out, Ghost(idx), Ghost(cov))
}

/// A copy of a model.
fn copy_model(m: &Vec<GroundAtom>) -> (r: Vec<GroundAtom>)
    ensures
        mv(r@) == mv(m@),
{
    let mut r: Vec<GroundAtom> = Vec::new();
    let mut i: usize = 0;
    while i < m.len()
        invariant
            i <= m@.len(),
            mv(r@) == mv(m@).take(i as int),
        decreases m@.len() - i,
    {
        let a = copy_atom(&m[i]);
        let ghost r0 = r@;
        r.push(a);
        assert(mv(r@) =~= mv(r0).push(av(m@[i as int])));
        assert(mv(m@).take(i + 1) =~= mv(m@).take(i as int).push(av(m@[i as int])));
        i = i + 1;
    }
    assert(mv(m@).take(i as int) =~= mv(m@));
    r
}

} // verus!
