//! Grounding simplification over a ground program in CSR form: drop rules
//! whose body is definitely false and strip literals that are trivially true.
use vstd::prelude::*;

verus! {

/// A ground program in CSR form. Rule `i` has head `head[i]` (atom id, or `-1`
/// for a constraint) and body `body_lit[body_start[i]..body_start[i+1]]`. A body
/// literal is signed: `+(atom+1)` positive, `-(atom+1)` negative.
#[derive(Debug, Clone, PartialEq, Eq, Default)]
pub struct AspCsr {
    pub head: Vec<i32>,
    pub body_start: Vec<u32>,
    pub body_lit: Vec<i32>,
}

/// The signed literal for `(atom, positive)`.
pub open spec fn enc_spec(atom: int, positive: bool) -> int {
    if positive { atom + 1 } else { -(atom + 1) }
}

/// The atom a signed literal speaks of.
pub open spec fn lit_atom(lit: int) -> int {
    if lit > 0 { lit - 1 } else { -lit - 1 }
}

/// Encode `(atom, positive)` as a signed body literal.
pub fn enc(atom: usize, positive: bool) -> (lit: i32)
    requires
        atom < i32::MAX,
    ensures
        lit == enc_spec(atom as int, positive),
{
    let a = atom as i32 + 1;
    if positive {
        a
    } else {
        -a
    }
}

/// Decode a signed body literal into `(atom, positive)`.
pub fn dec(lit: i32) -> (r: (usize, bool))
    requires
        lit != 0,
    ensures
        r.0 == lit_atom(lit as int),
        r.1 == (lit > 0),
{
    let abs: u32 = if lit > 0 {
        lit as u32
    } else if lit == i32::MIN {
        2147483648u32
    } else {
        (-lit) as u32
    };
    ((abs - 1) as usize, lit > 0)
}

/// Decoding an encoded literal gives back the atom and its sign.
pub proof fn lemma_dec_enc(atom: int, positive: bool)
    requires
        0 <= atom,
    ensures
        lit_atom(enc_spec(atom, positive)) == atom,
        (enc_spec(atom, positive) > 0) == positive,
{
}

impl AspCsr {
    /// Number of rules.
    pub fn n_rules(&self) -> (n: usize)
        ensures
            n == self.head@.len(),
    {
        self.head.len()
    }

    /// Offsets are monotone and within the literal array, one more offset than rules.
    pub open spec fn wf(&self) -> bool {
        &&& self.body_start@.len() == self.head@.len() + 1
        &&& forall|i: int, j: int|
            0 <= i <= j < self.body_start@.len() ==> self.body_start@[i] <= self.body_start@[j]
        &&& self.body_start@[self.body_start@.len() - 1] <= self.body_lit@.len()
    }

    /// Body of rule `i`.
    pub open spec fn body(&self, i: int) -> Seq<i32> {
        self.body_lit@.subrange(self.body_start@[i] as int, self.body_start@[i + 1] as int)
    }

    /// The rules as `(head, body)` pairs.
    pub open spec fn rules(&self) -> Seq<(i32, Seq<i32>)> {
        Seq::new(self.head@.len(), |i: int| (self.head@[i], self.body(i)))
    }
}

/// Every literal of every rule is non-zero and names an atom below `n`.
pub open spec fn lits_in_range(c: &AspCsr, n: int) -> bool {
    forall|i: int, k: int|
        0 <= i < c.head@.len() && 0 <= k < c.body(i).len() ==> c.body(i)[k] != 0 && lit_atom(
            c.body(i)[k] as int,
        ) < n
}

/// Per-literal decision: `None` kills the rule, `Some(true)` keeps the
/// literal, `Some(false)` drops it as trivially true.
pub open spec fn keep_spec(lit: i32, poss: Seq<u8>, cert: Seq<u8>) -> Option<bool> {
    let a = lit_atom(lit as int);
    if lit > 0 {
        if poss[a] == 0 { None } else { Some(cert[a] == 0) }
    } else if cert[a] != 0 {
        None
    } else {
        Some(poss[a] != 0)
    }
}

/// The filtered body: `None` if some literal kills the rule.
pub open spec fn filter_body(b: Seq<i32>, poss: Seq<u8>, cert: Seq<u8>) -> Option<Seq<i32>>
    decreases b.len(),
{
    if b.len() == 0 {
        Some(Seq::empty())
    } else {
        match filter_body(b.drop_last(), poss, cert) {
            None => None,
            Some(p) => match keep_spec(b.last(), poss, cert) {
                None => None,
                Some(true) => Some(p.push(b.last())),
                Some(false) => Some(p),
            },
        }
    }
}

/// The surviving rules, in order, with their filtered bodies.
pub open spec fn filter_rules(rs: Seq<(i32, Seq<i32>)>, poss: Seq<u8>, cert: Seq<u8>) -> Seq<
    (i32, Seq<i32>),
>
    decreases rs.len(),
{
    if rs.len() == 0 {
        Seq::empty()
    } else {
        let prev = filter_rules(rs.drop_last(), poss, cert);
        match filter_body(rs.last().1, poss, cert) {
            None => prev,
            Some(b) => prev.push((rs.last().0, b)),
        }
    }
}

fn keep_literal(lit: i32, poss: &[u8], cert: &[u8]) -> (r: Option<bool>)
    requires
        lit != 0,
        lit_atom(lit as int) < poss@.len(),
        lit_atom(lit as int) < cert@.len(),
    ensures
        r == keep_spec(lit, poss@, cert@),
{
    let (a, positive) = dec(lit);
    if positive {
        if poss[a] == 0 {
            None
        } else {
            Some(cert[a] == 0)
        }
    } else if cert[a] != 0 {
        None
    } else {
        Some(poss[a] != 0)
    }
}

proof fn lemma_filter_body_len(b: Seq<i32>, poss: Seq<u8>, cert: Seq<u8>)
    ensures
        filter_body(b, poss, cert) matches Some(f) ==> f.len() <= b.len(),
    decreases b.len(),
{
    if b.len() > 0 {
        lemma_filter_body_len(b.drop_last(), poss, cert);
    }
}

/// CPU reference for the simplify-filter pass.
pub fn simplify_filter_cpu(rules: &AspCsr, poss: &[u8], cert: &[u8]) -> (out: AspCsr)
    requires
        rules.wf(),
        lits_in_range(rules, poss@.len() as int),
        lits_in_range(rules, cert@.len() as int),
    ensures
        out.wf(),
        out.body_start@[0] == 0,
        out.body_start@[out.body_start@.len() - 1] == out.body_lit@.len(),
        out.rules() == filter_rules(rules.rules(), poss@, cert@),
{
    let mut out = AspCsr { head: Vec::new(), body_start: Vec::new(), body_lit: Vec::new() };
    out.body_start.push(0);
    let n = rules.n_rules();
    let mut i: usize = 0;
    while i < n
        invariant
            n == rules.head@.len(),
            i <= n,
            rules.wf(),
            lits_in_range(rules, poss@.len() as int),
            lits_in_range(rules, cert@.len() as int),
            out.wf(),
            out.body_start@[0] == 0,
            out.body_start@[out.body_start@.len() - 1] == out.body_lit@.len(),
            out.body_lit@.len() <= rules.body_start@[i as int],
            out.rules() == filter_rules(rules.rules().take(i as int), poss@, cert@),
        decreases n - i,
    {
        let s = rules.body_start[i] as usize;
        let e = rules.body_start[i + 1] as usize;
        let ghost body = rules.body(i as int);
        let mut kept: Vec<i32> = Vec::new();
        let mut alive = true;
        let mut k = s;
        while k < e && alive
            invariant
                s <= k <= e,
                s == rules.body_start@[i as int],
                e == rules.body_start@[i + 1],
                e <= rules.body_lit@.len(),
                i < n,
                n == rules.head@.len(),
                body == rules.body(i as int),
                lits_in_range(rules, poss@.len() as int),
                lits_in_range(rules, cert@.len() as int),
                alive ==> filter_body(body.take(k - s), poss@, cert@) == Some(kept@),
                !alive ==> k > s && filter_body(body.take(k - s), poss@, cert@) is None,
                kept@.len() <= k - s,
            decreases e - k,
        {
            let lit = rules.body_lit[k];
            assert(body[k - s] == lit);
            assert(body.take(k - s + 1).drop_last() =~= body.take(k - s));
            match keep_literal(lit, poss, cert) {
                None => {
                    alive = false;
                },
                Some(true) => kept.push(lit),
                Some(false) => {},
            }
            k = k + 1;
        }
        proof {
            if alive {
                assert(body.take(e - s) =~= body);
            } else {
                // a killed prefix kills the whole body
                lemma_filter_none_extends(body, (k - s) as int, poss@, cert@);
            }
            let rs = rules.rules().take(i + 1);
            assert(rs.drop_last() =~= rules.rules().take(i as int));
            assert(rs.last() == (rules.head@[i as int], body));
        }
        if !alive {
            i = i + 1;
            continue;
        }
        proof {
            lemma_filter_body_len(body, poss@, cert@);
        }
        let ghost old_out = out;
        out.head.push(rules.head[i]);
        let mut kept_slice = kept;
        out.body_lit.append(&mut kept_slice);
        assert(out.body_lit@.len() <= e);
        let new_end = out.body_lit.len() as u32;
        out.body_start.push(new_end);
        proof {
            assert(out.body(out.head@.len() - 1) =~= kept@) by {
                assert(out.body_lit@ =~= old_out.body_lit@ + kept@);
            }
            assert forall|j: int| 0 <= j < old_out.head@.len() implies out.body(j)
                =~= old_out.body(j) by {
                assert(out.body_lit@ =~= old_out.body_lit@ + kept@);
                assert(out.body_start@[j] == old_out.body_start@[j]);
                assert(out.body_start@[j + 1] == old_out.body_start@[j + 1]);
            }
            assert(out.rules() =~= old_out.rules().push((rules.head@[i as int], kept@)));
        }
        i = i + 1;
    }
    assert(rules.rules().take(n as int) =~= rules.rules());
    out
}

proof fn lemma_filter_none_extends(b: Seq<i32>, m: int, poss: Seq<u8>, cert: Seq<u8>)
    requires
        0 < m <= b.len(),
        filter_body(b.take(m), poss, cert) is None,
    ensures
        filter_body(b, poss, cert) is None,
    decreases b.len() - m,
{
    if m < b.len() {
        assert(b.take(m + 1).drop_last() =~= b.take(m));
        lemma_filter_none_extends(b, m + 1, poss, cert);
    } else {
        assert(b.take(m) =~= b);
    }
}

} // verus!

verus! {

/// Simplify-filter a ground program. Without a device engine this is the CPU
/// reference, and it always succeeds.
pub fn simplify_filter(rules: &AspCsr, poss: &[u8], cert: &[u8]) -> (r: Result<AspCsr, crate::gpu::GpuError>)
    requires
        rules.wf(),
        lits_in_range(rules, poss@.len() as int),
        lits_in_range(rules, cert@.len() as int),
    ensures
        r matches Ok(out) && out.wf() && out.body_start@[0] == 0
            && out.body_start@[out.body_start@.len() - 1] == out.body_lit@.len()
            && out.rules() == filter_rules(rules.rules(), poss@, cert@),
{
    Ok(simplify_filter_cpu(rules, poss, cert))
}

} // verus!
