//! Command-line conventions of the `strata` front end: its exit codes and how
//! it reads its argument list.
use vstd::prelude::*;
use crate::text::{dec_int, has_prefix, push_int, same_text, starts_with};
use crate::asp::{GroundAtom, Val};

verus! {

/// Process exit codes, shared by every subcommand.
#[derive(Debug, Clone, Copy, PartialEq, Eq, Structural)]
pub enum Code {
    /// Success.
    Success,
    /// Any error-severity diagnostic was reported.
    Diagnostics,
    /// Bad command-line usage.
    Usage,
    /// Runtime fault (such as a tropical weight overflow).
    Runtime,
}

impl Code {
    /// The process exit status of each code.
    pub open spec fn status_spec(self) -> u8 {
        match self {
            Code::Success => 0,
            Code::Diagnostics => 1,
            Code::Usage => 2,
            Code::Runtime => 4,
        }
    }

    /// The process exit status this code stands for.
    pub fn status(self) -> (s: u8)
        ensures
            s == self.status_spec(),
    {
        match self {
            Code::Success => 0,
            Code::Diagnostics => 1,
            Code::Usage => 2,
            Code::Runtime => 4,
        }
    }
}

/// An argument that is an option (it begins with `-`) rather than a positional one.
pub open spec fn is_option(a: Seq<char>) -> bool {
    a.len() > 0 && a[0] == '-'
}

/// Argument `i` is the first one that is not an option.
pub open spec fn first_positional(args: Seq<String>, i: int) -> bool {
    &&& 0 <= i < args.len()
    &&& !is_option(args[i]@)
    &&& forall|j: int| 0 <= j < i ==> is_option(#[trigger] args[j]@)
}

/// Argument `i` is the first one that begins with `key`.
pub open spec fn first_keyed(args: Seq<String>, key: Seq<char>, i: int) -> bool {
    &&& 0 <= i < args.len()
    &&& has_prefix(args[i]@, key)
    &&& forall|j: int| 0 <= j < i ==> !has_prefix(#[trigger] args[j]@, key)
}

/// The first positional (non-option) argument, if any.
pub fn positional(args: &[String]) -> (r: Option<&str>)
    ensures
        match r {
            None => forall|i: int| 0 <= i < args@.len() ==> is_option(#[trigger] args@[i]@),
            Some(s) => exists|i: int| first_positional(args@, i) && s@ == args@[i]@,
        },
{
    let mut i: usize = 0;
    while i < args.len()
        invariant
            i <= args@.len(),
            forall|j: int| 0 <= j < i ==> is_option(#[trigger] args@[j]@),
        decreases args.len() - i,
    {
        let a = args[i].as_str();
        let dash = starts_with(a, "-");
        proof {
            reveal_strlit("-");
            assert(a@ == args@[i as int]@);
            if a@.len() > 0 {
                assert(a@.subrange(0, 1)[0] == a@[0]);
                if a@[0] == '-' {
                    assert(a@.subrange(0, 1) =~= "-"@);
                }
            }
            assert(dash == is_option(a@));
        }
        if !dash {
            assert(first_positional(args@, i as int));
            return Some(a);
        }
        i = i + 1;
    }
    None
}

/// Whether `flag` is among the arguments.
pub fn has_flag(args: &[String], flag: &str) -> (b: bool)
    ensures
        b == exists|i: int| 0 <= i < args@.len() && #[trigger] args@[i]@ == flag@,
{
    let mut i: usize = 0;
    while i < args.len()
        invariant
            i <= args@.len(),
            forall|j: int| 0 <= j < i ==> #[trigger] args@[j]@ != flag@,
        decreases args.len() - i,
    {
        if same_text(args[i].as_str(), flag) {
            return true;
        }
        i = i + 1;
    }
    false
}

/// The rest of the first argument that begins with `key`, if any
/// (`--key=value` read with the key `--key=` gives `value`).
pub fn opt_value<'a>(args: &'a [String], key: &str) -> (r: Option<&'a str>)
    ensures
        match r {
            None => forall|i: int| 0 <= i < args@.len() ==> !has_prefix(#[trigger] args@[i]@, key@),
            Some(v) => exists|i: int|
                first_keyed(args@, key@, i) && v@ == args@[i]@.subrange(
                    key@.len() as int,
                    args@[i]@.len() as int,
                ),
        },
{
    let mut i: usize = 0;
    while i < args.len()
        invariant
            i <= args@.len(),
            forall|j: int| 0 <= j < i ==> !has_prefix(#[trigger] args@[j]@, key@),
        decreases args.len() - i,
    {
        let a = args[i].as_str();
        if starts_with(a, key) {
            let v = a.substring_char(key.unicode_len(), a.unicode_len());
            assert(first_keyed(args@, key@, i as int));
            return Some(v);
        }
        i = i + 1;
    }
    None
}

/// The value that `--error-format=` asks for is `json`.
pub open spec fn json_requested(args: Seq<String>) -> bool {
    exists|i: int|
        first_keyed(args, "--error-format="@, i) && args[i]@.subrange(
            "--error-format="@.len() as int,
            args[i]@.len() as int,
        ) == "json"@
}

/// Whether the arguments ask for diagnostics as JSON (`--error-format=json`).
pub fn wants_json(args: &[String]) -> (b: bool)
    ensures
        b == json_requested(args@),
{
    match opt_value(args, "--error-format=") {
        None => false,
        Some(v) => {
            let r = same_text(v, "json");
            proof {
                let i = choose|i: int|
                    first_keyed(args@, "--error-format="@, i) && v@ == args@[i]@.subrange(
                        "--error-format="@.len() as int,
                        args@[i]@.len() as int,
                    );
                assert forall|k: int| first_keyed(args@, "--error-format="@, k) implies k == i by {
                    if k < i {
                        assert(!has_prefix(args@[k]@, "--error-format="@));
                    }
                    if i < k {
                        assert(!has_prefix(args@[i]@, "--error-format="@));
                    }
                }
            }
            r
        },
    }
}

/// How an answer-set value is shown: a symbol by its name, an integer in decimal.
pub open spec fn val_text(v: Val) -> Seq<char> {
    match v {
        Val::Sym(s) => s@,
        Val::Int(n) => dec_int(n as int),
    }
}

/// The values shown one after another, separated by `, `.
pub open spec fn args_text(vs: Seq<Val>) -> Seq<char>
    decreases vs.len(),
{
    if vs.len() == 0 {
        Seq::empty()
    } else if vs.len() == 1 {
        val_text(vs[0])
    } else {
        args_text(vs.drop_last()) + seq![',', ' '] + val_text(vs.last())
    }
}

/// How an answer-set atom is shown: `pred` alone, or `pred(a, b, …)`.
pub open spec fn atom_text(a: GroundAtom) -> Seq<char> {
    if a.1@.len() == 0 { a.0@ } else { a.0@ + seq!['('] + args_text(a.1@) + seq![')'] }
}

/// Show an answer-set value.
pub fn render_asp_val(v: &Val) -> (s: String)
    ensures
        s@ == val_text(*v),
{
    match v {
        Val::Sym(name) => name.clone(),
        Val::Int(n) => {
            let mut s = String::new();
            push_int(&mut s, *n);
            assert(s@ =~= dec_int(*n as int));
            s
        },
    }
}

/// Show an answer-set atom.
pub fn render_asp_atom(a: &GroundAtom) -> (s: String)
    ensures
        s@ == atom_text(*a),
{
    let (pred, args) = a;
    if args.len() == 0 {
        return pred.clone();
    }
    let mut s = pred.clone();
    s.append("(");
    let ghost head = s@;
    let mut i: usize = 0;
    while i < args.len()
        invariant
            i <= args@.len(),
            args@.len() > 0,
            head == pred@ + "("@,
            s@ == head + args_text(args@.take(i as int)),
        decreases args@.len() - i,
    {
        let ghost before = s@;
        if i > 0 {
            s.append(", ");
        }
        let t = render_asp_val(&args[i]);
        s.append(t.as_str());
        proof {
            reveal_strlit(", ");
            let tk = args@.take(i + 1);
            assert(tk.drop_last() =~= args@.take(i as int));
            assert(tk.last() == args@[i as int]);
            if i == 0 {
                assert(args@.take(0) =~= Seq::<Val>::empty());
                assert(args_text(tk) == val_text(args@[0]));
            }
            assert(s@ =~= head + args_text(tk));
        }
        i = i + 1;
    }
    s.append(")");
    proof {
        reveal_strlit("(");
        reveal_strlit(")");
        assert(args@.take(i as int) =~= args@);
        assert(s@ =~= atom_text(*a));
    }
    s
}

} // verus!
