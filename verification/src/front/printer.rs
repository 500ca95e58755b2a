//! The canonical printer: High-IR to surface text, one item per line with
//! fixed spacing, default effects left out, each item preceded by its leading
//! comments and, after the first item, by the blank line it had.
use vstd::prelude::*;
use crate::front::ir::{
    AggOp, Annotation, ArgType, Atom, Completeness, Determinism, Effects, Fact, Item, ItemKind,
    Literal, Pragma, PredDecl, Program, QueryKind, Term, Termination, Weight,
};
use crate::text::{dec, dec_int, push_decimal, push_int};
use crate::front::lexer::{keyword, Tok};

verus! {

/// The text of an aggregate operator.
pub open spec fn agg_text(op: AggOp) -> Seq<char> {
    match op {
        AggOp::Min => "min"@,
        AggOp::Max => "max"@,
        AggOp::Sum => "sum"@,
        AggOp::Count => "count"@,
        AggOp::ProbOr => "prob_or"@,
    }
}

/// The keyword token that stands for an aggregate operator.
pub open spec fn agg_tok(op: AggOp) -> Tok {
    match op {
        AggOp::Min => Tok::Min,
        AggOp::Max => Tok::Max,
        AggOp::Sum => Tok::Sum,
        AggOp::Count => Tok::Count,
        AggOp::ProbOr => Tok::ProbOr,
    }
}

/// Printing keeps each aggregate operator: a printed aggregate term
/// `op<V>` is a word the lexer reads as the keyword of that very operator,
/// then `<`, the variable and `>`.
pub proof fn lemma_printed_aggregate_reads_back(op: AggOp, var: String)
    ensures
        exists|w: Seq<char>| #![trigger keyword(w)]
            term_text(Term::Agg { op, var }) == w + "<"@ + var@ + ">"@ && keyword(w) == Some(agg_tok(op)),
{
    reveal_strlit("pred");
    reveal_strlit("domain");
    reveal_strlit("input");
    reveal_strlit("from");
    reveal_strlit("model");
    reveal_strlit("neural");
    reveal_strlit("not");
    reveal_strlit("int");
    reveal_strlit("term");
    reveal_strlit("min");
    reveal_strlit("max");
    reveal_strlit("sum");
    reveal_strlit("count");
    reveal_strlit("prob_or");
    let w = agg_text(op);
    assert(term_text(Term::Agg { op, var }) == w + "<"@ + var@ + ">"@);
    match op {
        AggOp::Min => {
            assert(w[0] != "not"@[0] && w[0] != "int"@[0]);
            assert(w != "pred"@ && w != "domain"@ && w != "input"@ && w != "from"@ && w != "model"@);
            assert(w != "neural"@ && w != "not"@ && w != "int"@ && w != "term"@);
        },
        AggOp::Max => {
            assert(w[0] != "not"@[0] && w[0] != "int"@[0] && w[1] != "min"@[1]);
            assert(w != "pred"@ && w != "domain"@ && w != "input"@ && w != "from"@ && w != "model"@);
            assert(w != "neural"@ && w != "not"@ && w != "int"@ && w != "term"@ && w != "min"@);
        },
        AggOp::Sum => {
            assert(w[0] != "not"@[0] && w[0] != "int"@[0] && w[0] != "min"@[0] && w[0] != "max"@[0]);
            assert(w != "pred"@ && w != "domain"@ && w != "input"@ && w != "from"@ && w != "model"@);
            assert(w != "neural"@ && w != "not"@ && w != "int"@ && w != "term"@ && w != "min"@ && w != "max"@);
        },
        AggOp::Count => {
            assert(w[0] != "input"@[0] && w[0] != "model"@[0]);
            assert(w != "pred"@ && w != "domain"@ && w != "input"@ && w != "from"@ && w != "model"@);
            assert(w != "neural"@ && w != "not"@ && w != "int"@ && w != "term"@ && w != "min"@ && w != "max"@ && w != "sum"@);
        },
        AggOp::ProbOr => {
            assert(w != "pred"@ && w != "domain"@ && w != "input"@ && w != "from"@ && w != "model"@);
            assert(w != "neural"@ && w != "not"@ && w != "int"@ && w != "term"@ && w != "min"@ && w != "max"@ && w != "sum"@);
            assert(w != "count"@);
        },
    }
    assert(keyword(w) == Some(agg_tok(op)));
}

/// The text of a term: `X`, `c`, `42`, `min<X>`, `f(t1, t2)`.
pub open spec fn term_text(t: Term) -> Seq<char>
    decreases t, 1nat,
{
    match t {
        Term::Var { name } => name@,
        Term::Const { name } => name@,
        Term::Int { value } => dec_int(value as int),
        Term::Agg { op, var } => agg_text(op) + "<"@ + var@ + ">"@,
        Term::Compound { functor, args } => functor@ + "("@ + terms_text(args@) + ")"@,
    }
}

/// Terms separated by `, `.
pub open spec fn terms_text(ts: Seq<Term>) -> Seq<char>
    decreases ts, 0nat,
{
    if ts.len() == 0 {
        Seq::empty()
    } else if ts.len() == 1 {
        term_text(ts[0])
    } else {
        terms_text(ts.drop_last()) + ", "@ + term_text(ts.last())
    }
}

/// `pred(t1, t2)`.
pub open spec fn atom_text(a: Atom) -> Seq<char> {
    a.pred@ + "("@ + terms_text(a.args@) + ")"@
}

pub open spec fn literal_text(l: Literal) -> Seq<char> {
    match l {
        Literal::Pos(a) => atom_text(a),
        Literal::Neg(a) => "not "@ + atom_text(a),
    }
}

/// Body literals separated by `, `.
pub open spec fn body_text(ls: Seq<Literal>) -> Seq<char>
    decreases ls.len(),
{
    if ls.len() == 0 {
        Seq::empty()
    } else if ls.len() == 1 {
        literal_text(ls[0])
    } else {
        body_text(ls.drop_last()) + ", "@ + literal_text(ls.last())
    }
}

pub open spec fn arg_type_text(a: ArgType) -> Seq<char> {
    match a {
        ArgType::Domain { name } => name@,
        ArgType::Int => "int"@,
        ArgType::Term { name } => "term "@ + name@,
    }
}

/// Argument types separated by `, `.
pub open spec fn arg_types_text(ts: Seq<ArgType>) -> Seq<char>
    decreases ts.len(),
{
    if ts.len() == 0 {
        Seq::empty()
    } else if ts.len() == 1 {
        arg_type_text(ts[0])
    } else {
        arg_types_text(ts.drop_last()) + ", "@ + arg_type_text(ts.last())
    }
}

/// The annotation, `Prov_k` always with its `k`.
pub open spec fn annotation_text(a: Annotation) -> Seq<char> {
    match a {
        Annotation::Bool => "Bool"@,
        Annotation::Trop => "Trop"@,
        Annotation::Prov => "Prov"@,
        Annotation::ProvK { k } => "Prov_k("@ + dec(k as nat) + ")"@,
    }
}

/// The effects that differ from the defaults, each after a space.
pub open spec fn effects_text(e: Effects) -> Seq<char> {
    (if e.termination == Termination::Partial { " partial"@ } else { Seq::empty() })
        + (if e.completeness == Completeness::SoundOnly { " sound_only"@ } else { Seq::empty() })
        + (if e.determinism == Determinism::Stochastic { " stochastic"@ } else { Seq::empty() })
}

pub open spec fn weight_text(w: Weight) -> Seq<char> {
    match w {
        Weight::Finite(n) => dec_int(n as int),
        Weight::PosInf => "inf"@,
    }
}

/// Printable ASCII other than the quote and the backslash.
pub open spec fn plain_char(c: char) -> bool {
    ' ' <= c && c <= '~' && c != '"' && c != '\\'
}

/// `"s"` with `"` and `\` escaped, as `{:?}` writes a string of printable ASCII.
pub open spec fn escaped(s: Seq<char>) -> Seq<char>
    decreases s.len(),
{
    if s.len() == 0 {
        Seq::empty()
    } else {
        let c = s.last();
        escaped(s.drop_last()) + if c == '"' || c == '\\' { seq!['\\', c] } else { seq![c] }
    }
}

/// The quoted text `{:?}` writes for a string of printable ASCII.
pub open spec fn quoted(s: Seq<char>) -> Seq<char> {
    seq!['"'] + escaped(s) + seq!['"']
}

/// Printable ASCII only.
pub open spec fn printable_ascii(s: Seq<char>) -> bool {
    forall|i: int| 0 <= i < s.len() ==> ' ' <= #[trigger] s[i] && s[i] <= '~'
}

/// What `{:?}` writes for a string.
pub uninterp spec fn debug_str(s: Seq<char>) -> Seq<char>;

/// `format!("{:?}", s)`: a string literal for `s`. The result depends on `s`
/// alone; for printable ASCII it is `s` in double quotes with `"` and `\`
/// escaped by a backslash. Beyond printable ASCII (the escapes of control and
/// non-printable characters) nothing is stated.
#[verifier::external_body]
pub(crate) fn debug_string(s: &str) -> (r: String)
    ensures
        r@ == debug_str(s@),
        printable_ascii(s@) ==> r@ == quoted(s@),
{
    format!("{:?}", s)
}

/// The text of an item, without its line break.
pub open spec fn item_text(node: ItemKind) -> Seq<char> {
    match node {
        ItemKind::Domain(d) => "domain "@ + d.name@ + "."@,
        ItemKind::Predicate(p) => match p.neural {
            Some(n) => "neural "@ + p.name@ + "("@ + arg_types_text(p.sig.args@) + ") from model "@
                + debug_str(n.model@) + "."@,
            None => "pred "@ + p.name@ + "("@ + arg_types_text(p.sig.args@) + "): "@
                + annotation_text(p.sig.annotation) + effects_text(p.sig.effects) + "."@,
        },
        ItemKind::Rule(r) => atom_text(r.head) + " :- "@ + body_text(r.body@) + "."@,
        ItemKind::Fact(f) => (match f.weight {
            Some(w) => weight_text(w) + " :: "@,
            None => match f.prob {
                Some(pr) => pr@ + " :: "@,
                None => Seq::empty(),
            },
        }) + atom_text(f.atom) + "."@,
        ItemKind::Input(i) => "input "@ + i.pred@ + " from "@ + debug_str(i.path@) + "."@,
        ItemKind::Query(q) => (match q.kind {
            QueryKind::Plain => "? "@,
            QueryKind::Prob => "?prob "@,
            QueryKind::Grad => "?grad "@,
        }) + atom_text(q.atom) + "."@,
        ItemKind::Pragma(p) => match p {
            Pragma::Terms => "@terms."@,
            Pragma::Asp => "@asp."@,
        },
    }
}

/// Comments, each on its own line.
pub open spec fn comments_text(cs: Seq<String>) -> Seq<char>
    decreases cs.len(),
{
    if cs.len() == 0 { Seq::empty() } else { comments_text(cs.drop_last()) + cs.last()@ + "\n"@ }
}

/// The lines of item `i`: a blank line if it had one and is not first, its
/// comments, and the item.
pub open spec fn item_block(it: Item, first: bool) -> Seq<char> {
    (if it.trivia.blank_before && !first { "\n"@ } else { Seq::empty() })
        + comments_text(it.trivia.leading@) + item_text(it.node) + "\n"@
}

/// The text of the first `k` items.
pub open spec fn items_text(items: Seq<Item>, k: nat) -> Seq<char>
    decreases k,
{
    if k == 0 { Seq::empty() } else { items_text(items, (k - 1) as nat) + item_block(items[k - 1], k == 1) }
}

/// The canonical text of a program.
pub open spec fn program_text(p: Program) -> Seq<char> {
    items_text(p.items@, p.items@.len())
}

fn push_agg(out: &mut String, op: AggOp)
    ensures
        final(out)@ == old(out)@ + agg_text(op),
{
    match op {
        AggOp::Min => out.append("min"),
        AggOp::Max => out.append("max"),
        AggOp::Sum => out.append("sum"),
        AggOp::Count => out.append("count"),
        AggOp::ProbOr => out.append("prob_or"),
    }
}

fn push_term(out: &mut String, t: &Term)
    ensures
        final(out)@ == old(out)@ + term_text(*t),
    decreases t,
{
    match t {
        Term::Var { name } => out.append(name.as_str()),
        Term::Const { name } => out.append(name.as_str()),
        Term::Int { value } => push_int(out, *value),
        Term::Agg { op, var } => {
            push_agg(out, *op);
            out.append("<");
            out.append(var.as_str());
            out.append(">");
            assert(out@ =~= old(out)@ + term_text(*t));
        },
        Term::Compound { functor, args } => {
            let ghost start = out@;
            out.append(functor.as_str());
            out.append("(");
            push_terms(out, args);
            out.append(")");
            assert(out@ =~= start + term_text(*t));
        },
    }
}

fn push_terms(out: &mut String, ts: &Vec<Term>)
    ensures
        final(out)@ == old(out)@ + terms_text(ts@),
    decreases ts,
{
    let ghost start = out@;
    let mut i: usize = 0;
    while i < ts.len()
        invariant
            i <= ts@.len(),
            out@ == start + terms_text(ts@.take(i as int)),
        decreases ts@.len() - i,
    {
        assert(ts@.take(i + 1).drop_last() =~= ts@.take(i as int));
        assert(ts@.take(i + 1).last() == ts@[i as int]);
        if i > 0 {
            out.append(", ");
        }
        assert(decreases_to!(ts => ts@[i as int]));
        push_term(out, &ts[i]);
        proof {
            if i == 0 {
                assert(ts@.take(1) =~= seq![ts@[0]]);
            }
            assert(out@ =~= start + terms_text(ts@.take(i + 1)));
        }
        i = i + 1;
    }
    assert(ts@.take(ts@.len() as int) =~= ts@);
}

fn push_atom(out: &mut String, a: &Atom)
    ensures
        final(out)@ == old(out)@ + atom_text(*a),
{
    let ghost start = out@;
    out.append(a.pred.as_str());
    out.append("(");
    push_terms(out, &a.args);
    out.append(")");
    assert(out@ =~= start + atom_text(*a));
}

fn push_literal(out: &mut String, l: &Literal)
    ensures
        final(out)@ == old(out)@ + literal_text(*l),
{
    match l {
        Literal::Pos(a) => push_atom(out, a),
        Literal::Neg(a) => {
            let ghost start = out@;
            out.append("not ");
            push_atom(out, a);
            assert(out@ =~= start + literal_text(*l));
        },
    }
}

fn push_body(out: &mut String, ls: &Vec<Literal>)
    ensures
        final(out)@ == old(out)@ + body_text(ls@),
{
    let ghost start = out@;
    let mut i: usize = 0;
    while i < ls.len()
        invariant
            i <= ls@.len(),
            out@ == start + body_text(ls@.take(i as int)),
        decreases ls@.len() - i,
    {
        assert(ls@.take(i + 1).drop_last() =~= ls@.take(i as int));
        assert(ls@.take(i + 1).last() == ls@[i as int]);
        if i > 0 {
            out.append(", ");
        }
        push_literal(out, &ls[i]);
        proof {
            if i == 0 {
                assert(ls@.take(1) =~= seq![ls@[0]]);
            }
            assert(out@ =~= start + body_text(ls@.take(i + 1)));
        }
        i = i + 1;
    }
    assert(ls@.take(ls@.len() as int) =~= ls@);
}

fn push_arg_type(out: &mut String, a: &ArgType)
    ensures
        final(out)@ == old(out)@ + arg_type_text(*a),
{
    match a {
        ArgType::Domain { name } => out.append(name.as_str()),
        ArgType::Int => out.append("int"),
        ArgType::Term { name } => {
            out.append("term ");
            out.append(name.as_str());
            assert(out@ =~= old(out)@ + arg_type_text(*a));
        },
    }
}

fn push_arg_types(out: &mut String, ts: &Vec<ArgType>)
    ensures
        final(out)@ == old(out)@ + arg_types_text(ts@),
{
    let ghost start = out@;
    let mut i: usize = 0;
    while i < ts.len()
        invariant
            i <= ts@.len(),
            out@ == start + arg_types_text(ts@.take(i as int)),
        decreases ts@.len() - i,
    {
        assert(ts@.take(i + 1).drop_last() =~= ts@.take(i as int));
        assert(ts@.take(i + 1).last() == ts@[i as int]);
        if i > 0 {
            out.append(", ");
        }
        push_arg_type(out, &ts[i]);
        proof {
            if i == 0 {
                assert(ts@.take(1) =~= seq![ts@[0]]);
            }
            assert(out@ =~= start + arg_types_text(ts@.take(i + 1)));
        }
        i = i + 1;
    }
    assert(ts@.take(ts@.len() as int) =~= ts@);
}

fn push_annotation(out: &mut String, a: Annotation)
    ensures
        final(out)@ == old(out)@ + annotation_text(a),
{
    match a {
        Annotation::Bool => out.append("Bool"),
        Annotation::Trop => out.append("Trop"),
        Annotation::Prov => out.append("Prov"),
        Annotation::ProvK { k } => {
            out.append("Prov_k(");
            push_decimal(out, k as u64);
            out.append(")");
            assert(out@ =~= old(out)@ + annotation_text(a));
        },
    }
}

fn push_effects(out: &mut String, e: Effects)
    ensures
        final(out)@ == old(out)@ + effects_text(e),
{
    let ghost start = out@;
    let ghost a = if e.termination == Termination::Partial { " partial"@ } else { Seq::<char>::empty() };
    let ghost b = if e.completeness == Completeness::SoundOnly { " sound_only"@ } else { Seq::<char>::empty() };
    if e.termination == Termination::Partial {
        out.append(" partial");
    }
    assert(out@ =~= start + a);
    if e.completeness == Completeness::SoundOnly {
        out.append(" sound_only");
    }
    assert(out@ =~= start + a + b);
    if e.determinism == Determinism::Stochastic {
        out.append(" stochastic");
    }
    assert(out@ =~= start + effects_text(e));
}

fn push_weight(out: &mut String, w: Weight)
    ensures
        final(out)@ == old(out)@ + weight_text(w),
{
    match w {
        Weight::Finite(n) => push_int(out, n),
        Weight::PosInf => out.append("inf"),
    }
}

fn push_pred(out: &mut String, p: &PredDecl)
    ensures
        final(out)@ == old(out)@ + item_text(ItemKind::Predicate(*p)),
{
    let ghost start = out@;
    match &p.neural {
        Some(n) => {
            out.append("neural ");
            out.append(p.name.as_str());
            out.append("(");
            push_arg_types(out, &p.sig.args);
            out.append(") from model ");
            let q = debug_string(n.model.as_str());
            out.append(q.as_str());
            out.append(".");
        },
        None => {
            out.append("pred ");
            out.append(p.name.as_str());
            out.append("(");
            push_arg_types(out, &p.sig.args);
            out.append("): ");
            push_annotation(out, p.sig.annotation);
            push_effects(out, p.sig.effects);
            out.append(".");
        },
    }
    assert(out@ =~= start + item_text(ItemKind::Predicate(*p)));
}

fn push_fact(out: &mut String, f: &Fact)
    ensures
        final(out)@ == old(out)@ + item_text(ItemKind::Fact(*f)),
{
    let ghost start = out@;
    match f.weight {
        Some(w) => {
            push_weight(out, w);
            out.append(" :: ");
        },
        None => match &f.prob {
            Some(pr) => {
                out.append(pr.as_str());
                out.append(" :: ");
            },
            None => {},
        },
    }
    let ghost mid = out@;
    push_atom(out, &f.atom);
    out.append(".");
    assert(out@ =~= start + item_text(ItemKind::Fact(*f)));
}

fn push_item(out: &mut String, node: &ItemKind)
    ensures
        final(out)@ == old(out)@ + item_text(*node),
{
    let ghost start = out@;
    match node {
        ItemKind::Domain(d) => {
            out.append("domain ");
            out.append(d.name.as_str());
            out.append(".");
        },
        ItemKind::Predicate(p) => push_pred(out, p),
        ItemKind::Rule(r) => {
            push_atom(out, &r.head);
            out.append(" :- ");
            push_body(out, &r.body);
            out.append(".");
        },
        ItemKind::Fact(f) => push_fact(out, f),
        ItemKind::Input(i) => {
            out.append("input ");
            out.append(i.pred.as_str());
            out.append(" from ");
            let q = debug_string(i.path.as_str());
            out.append(q.as_str());
            out.append(".");
        },
        ItemKind::Query(q) => {
            match q.kind {
                QueryKind::Plain => out.append("? "),
                QueryKind::Prob => out.append("?prob "),
                QueryKind::Grad => out.append("?grad "),
            }
            push_atom(out, &q.atom);
            out.append(".");
        },
        ItemKind::Pragma(p) => match p {
            Pragma::Terms => out.append("@terms."),
            Pragma::Asp => out.append("@asp."),
        },
    }
    assert(out@ =~= start + item_text(*node));
}

/// Render a whole program to canonical surface text, each item ending in a
/// line break.
pub fn print_program(p: &Program) -> (out: String)
    ensures
        out@ == program_text(*p),
{
    let mut out = String::new();
    let mut i: usize = 0;
    while i < p.items.len()
        invariant
            i <= p.items@.len(),
            out@ == items_text(p.items@, i as nat),
        decreases p.items@.len() - i,
    {
        let it = &p.items[i];
        let ghost before = out@;
        if it.trivia.blank_before && i > 0 {
            out.append("\n");
        }
        let ghost c0 = out@;
        let mut k: usize = 0;
        while k < it.trivia.leading.len()
            invariant
                k <= it.trivia.leading@.len(),
                out@ == c0 + comments_text(it.trivia.leading@.take(k as int)),
            decreases it.trivia.leading@.len() - k,
        {
            assert(it.trivia.leading@.take(k + 1).drop_last() =~= it.trivia.leading@.take(k as int));
            out.append(it.trivia.leading[k].as_str());
            out.append("\n");
            assert(out@ =~= c0 + comments_text(it.trivia.leading@.take(k + 1)));
            k = k + 1;
        }
        assert(it.trivia.leading@.take(it.trivia.leading@.len() as int) =~= it.trivia.leading@);
        push_item(&mut out, &it.node);
        out.append("\n");
        assert(out@ =~= before + item_block(p.items@[i as int], i == 0));
        i = i + 1;
    }
    out
}

} // verus!
