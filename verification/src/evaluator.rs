//! The `Evaluator`: interprets a `Value` tree under an `Env`, dispatching
//! the fixed special forms and a name-keyed registry of intrinsic
//! operations.
//!
//! Malformed special-form usage — `if` with fewer than two arguments,
//! `def`/`set`/`fun` with a first argument that is not a symbol, `set` on an
//! unbound name, `fun` on a name already bound — is surfaced as a
//! recoverable `EvalError` rather than aborting the process, so the
//! interpreter can be embedded safely. Unresolved symbols and unknown
//! operators evaluate to `Nil`, a deliberate leniency.
//!
//! The spec-level interpreter (`eval_spec` and the functions around it)
//! states exactly what evaluation returns and how it changes the scope
//! chain; every method's contract ties the executable code to it.

use vstd::prelude::*;

use crate::doubles::{add_bits, div_bits, mul_bits, sub_bits};
use crate::env::{Env, chain_has, chain_lookup, chain_update, str_eq};
use crate::reader::{Reader, parse_at, lemma_parse_size};
use crate::values::{
    Value, ValueView, car, car_view, cdr, cdr_view, lemma_list_size_elem, lemma_list_size_first3,
    lemma_list_size_nonneg, lemma_list_view, lemma_size_pos, list_size, list_view, num_coerce,
    size_of, truthy, value_view, ZERO_BITS,
};

verus! {

/// Bit pattern of IEEE-754 binary64 one, the seed of the multiplicative
/// fold.
pub const ONE_BITS: u64 = 0x3FF0_0000_0000_0000;

/// A fatal condition raised by malformed special-form usage, surfaced as a
/// recoverable error.
#[derive(Debug, Clone, Copy, PartialEq, Eq, Structural)]
pub enum EvalError {
    /// A special form was given fewer arguments than it requires.
    MissingArguments,
    /// `def`, `set` or `fun` was given a first argument that is not a
    /// symbol.
    NotASymbol,
    /// `set` was applied to a name that no scope on the chain binds.
    UnboundSymbol,
    /// `fun` was applied to a name already bound in the current scope.
    AlreadyBound,
}

/// A built-in operation, identified by name in the registry. Each intrinsic
/// receives its argument list unevaluated and decides internally which
/// arguments to evaluate.
#[derive(Debug, Clone, Copy, PartialEq, Eq, Structural)]
pub enum Intrinsic {
    /// Returns its argument list unevaluated.
    Nop,
    /// Evaluates its first argument one more time; a string argument is
    /// read as source text first, enabling meta-evaluation of data as code.
    Eval,
    /// Structural comparison of the raw first argument against each
    /// evaluated remaining argument.
    Equals,
    /// Sum of the evaluated arguments, each coerced to a number.
    Add,
    /// Product of the evaluated arguments, each coerced to a number.
    Mul,
    /// The raw first argument's numeric coercion, minus each evaluated
    /// remaining argument.
    Sub,
    /// The raw first argument's numeric coercion, divided by each evaluated
    /// remaining argument.
    Div,
}

/// The name under which each intrinsic is registered.
pub open spec fn intrinsic_name(op: Intrinsic) -> Seq<char> {
    match op {
        Intrinsic::Nop => "nop"@,
        Intrinsic::Eval => "eval"@,
        Intrinsic::Equals => "="@,
        Intrinsic::Add => "+"@,
        Intrinsic::Mul => "*"@,
        Intrinsic::Sub => "-"@,
        Intrinsic::Div => "/"@,
    }
}

/// Lookup in the registry; a later registration of a name shadows an
/// earlier one.
pub open spec fn reg_find(reg: Seq<(Seq<char>, Intrinsic)>, name: Seq<char>) -> Option<Intrinsic>
    decreases reg.len(),
{
    if reg.len() == 0 {
        None
    } else if reg.last().0 == name {
        Some(reg.last().1)
    } else {
        reg_find(reg.drop_last(), name)
    }
}

/// The operator identifier of a list's first element: the text of a symbol,
/// string or atom, the literal form of a boolean, and nothing for the other
/// shapes, which can name no special form or intrinsic.
pub open spec fn form_name(v: ValueView) -> Option<Seq<char>> {
    match v {
        ValueView::Sym(s) => Some(s),
        ValueView::Str(s) => Some(s),
        ValueView::Atom(s) => Some(s),
        ValueView::Bool(b) => Some(
            if b {
                "#t"@
            } else {
                "#f"@
            },
        ),
        _ => None,
    }
}

/// The arithmetic fold that an intrinsic performs over its evaluated
/// arguments' numeric coercions, left to right from the accumulator.
pub open spec fn fold_arith(op: Intrinsic, vals: Seq<ValueView>, acc: u64) -> u64
    decreases vals.len(),
{
    if vals.len() == 0 {
        acc
    } else {
        let x = num_coerce(vals[0]);
        let next = match op {
            Intrinsic::Add => add_bits(acc, x),
            Intrinsic::Mul => mul_bits(acc, x),
            Intrinsic::Sub => sub_bits(acc, x),
            _ => div_bits(acc, x),
        };
        fold_arith(op, vals.drop_first(), next)
    }
}

/// Evaluation of one expression against a registry and a scope chain: the
/// chain after evaluation, and the result or the fatal condition met.
///
/// Literals, `Func` values and empty lists are self-evaluating; a symbol
/// resolves through the chain, to `Nil` when unbound; a non-empty list
/// dispatches its head's identifier first against the special forms, then
/// against the registry, and an unknown operator yields `Nil`.
pub open spec fn eval_spec(
    reg: Seq<(Seq<char>, Intrinsic)>,
    en: Seq<Map<Seq<char>, ValueView>>,
    v: ValueView,
) -> (Seq<Map<Seq<char>, ValueView>>, Result<ValueView, EvalError>)
    decreases size_of(v), 2int,
    via eval_spec_decreases
{
    match v {
        ValueView::Sym(name) => (en, Ok(chain_lookup(en, name))),
        ValueView::List(es) => {
            if es.len() == 0 {
                (en, Ok(v))
            } else {
                match form_name(es[0]) {
                    Some(name) => eval_form(reg, en, name, es.drop_first()),
                    None => (en, Ok(ValueView::Nil)),
                }
            }
        },
        _ => (en, Ok(v)),
    }
}

#[via_fn]
proof fn eval_spec_decreases(
    reg: Seq<(Seq<char>, Intrinsic)>,
    en: Seq<Map<Seq<char>, ValueView>>,
    v: ValueView,
) {
    if v is List {
        let es = v->List_0;
        if es.len() > 0 {
            lemma_size_pos(es[0]);
            lemma_list_size_nonneg(es.drop_first());
            assert(list_size(es) == size_of(es[0]) + list_size(es.drop_first()));
            assert(size_of(v) == 1 + list_size(es));
        }
    }
}

/// Evaluation of a form: the fixed special forms take precedence, then the
/// registry of intrinsics; an identifier that names neither yields `Nil`.
pub open spec fn eval_form(
    reg: Seq<(Seq<char>, Intrinsic)>,
    en: Seq<Map<Seq<char>, ValueView>>,
    name: Seq<char>,
    args: Seq<ValueView>,
) -> (Seq<Map<Seq<char>, ValueView>>, Result<ValueView, EvalError>)
    decreases list_size(args) + 2, 1int,
    via eval_form_decreases
{
    match eval_sform(reg, en, name, args) {
        Some(r) => r,
        None => match reg_find(reg, name) {
            Some(op) => eval_intrinsic(reg, en, op, ValueView::List(args)),
            None => (en, Ok(ValueView::Nil)),
        },
    }
}

#[via_fn]
proof fn eval_form_decreases(
    reg: Seq<(Seq<char>, Intrinsic)>,
    en: Seq<Map<Seq<char>, ValueView>>,
    name: Seq<char>,
    args: Seq<ValueView>,
) {
    lemma_list_size_nonneg(args);
}

/// Evaluation of the special forms `do`, `if`, `def`, `set` and `fun`, and
/// nothing for any other identifier.
///
/// `do` evaluates each argument left to right and yields the last value, or
/// `Nil` for none. `if` evaluates its condition and then exactly one
/// branch, the missing else-branch defaulting to `Nil`. `def` evaluates its
/// second argument and binds the symbol in the innermost scope. `set`
/// requires the symbol to be bound somewhere on the chain and rewrites the
/// innermost scope that binds it. `fun` validates that its first argument
/// is a symbol not yet bound in the current scope and yields `Nil` without
/// establishing a callable binding.
pub open spec fn eval_sform(
    reg: Seq<(Seq<char>, Intrinsic)>,
    en: Seq<Map<Seq<char>, ValueView>>,
    name: Seq<char>,
    args: Seq<ValueView>,
) -> Option<(Seq<Map<Seq<char>, ValueView>>, Result<ValueView, EvalError>)>
    decreases list_size(args) + 2, 0int,
    via eval_sform_decreases
{
    if name == "do"@ {
        let r = eval_args_vals(reg, en, args);
        Some(
            match r.1 {
                Ok(vals) => (
                    r.0,
                    Ok(
                        if vals.len() == 0 {
                            ValueView::Nil
                        } else {
                            vals.last()
                        },
                    ),
                ),
                Err(e) => (r.0, Err(e)),
            },
        )
    } else if name == "if"@ {
        if args.len() < 2 {
            Some((en, Err(EvalError::MissingArguments)))
        } else {
            let c = eval_spec(reg, en, args[0]);
            Some(
                match c.1 {
                    Ok(cv) => eval_spec(
                        reg,
                        c.0,
                        if truthy(cv) {
                            args[1]
                        } else if args.len() > 2 {
                            args[2]
                        } else {
                            ValueView::Nil
                        },
                    ),
                    Err(e) => (c.0, Err(e)),
                },
            )
        }
    } else if name == "def"@ {
        if args.len() < 2 {
            Some((en, Err(EvalError::MissingArguments)))
        } else if !(args[0] is Sym) {
            Some((en, Err(EvalError::NotASymbol)))
        } else {
            let r = eval_spec(reg, en, args[1]);
            Some(
                match r.1 {
                    Ok(val) => (r.0.update(0, r.0[0].insert(args[0]->Sym_0, val)), Ok(val)),
                    Err(e) => (r.0, Err(e)),
                },
            )
        }
    } else if name == "set"@ {
        if args.len() < 2 {
            Some((en, Err(EvalError::MissingArguments)))
        } else if !(args[0] is Sym) {
            Some((en, Err(EvalError::NotASymbol)))
        } else if !chain_has(en, args[0]->Sym_0) {
            Some((en, Err(EvalError::UnboundSymbol)))
        } else {
            let r = eval_spec(reg, en, args[1]);
            Some(
                match r.1 {
                    Ok(val) => (chain_update(r.0, args[0]->Sym_0, val), Ok(val)),
                    Err(e) => (r.0, Err(e)),
                },
            )
        }
    } else if name == "fun"@ {
        if args.len() < 1 {
            Some((en, Err(EvalError::MissingArguments)))
        } else if !(args[0] is Sym) {
            Some((en, Err(EvalError::NotASymbol)))
        } else if en.len() > 0 && en[0].contains_key(args[0]->Sym_0) {
            Some((en, Err(EvalError::AlreadyBound)))
        } else {
            Some((en, Ok(ValueView::Nil)))
        }
    } else {
        None
    }
}

#[via_fn]
proof fn eval_sform_decreases(
    reg: Seq<(Seq<char>, Intrinsic)>,
    en: Seq<Map<Seq<char>, ValueView>>,
    name: Seq<char>,
    args: Seq<ValueView>,
) {
    lemma_list_size_nonneg(args);
    if args.len() > 0 {
        lemma_list_size_elem(args, 0);
        lemma_size_pos(args[0]);
    }
    if args.len() > 1 {
        lemma_list_size_elem(args, 1);
        lemma_size_pos(args[1]);
    }
    if args.len() > 2 {
        lemma_list_size_elem(args, 2);
        lemma_size_pos(args[2]);
    }
}

/// Evaluation of one intrinsic, given its raw argument list.
pub open spec fn eval_intrinsic(
    reg: Seq<(Seq<char>, Intrinsic)>,
    en: Seq<Map<Seq<char>, ValueView>>,
    op: Intrinsic,
    a: ValueView,
) -> (Seq<Map<Seq<char>, ValueView>>, Result<ValueView, EvalError>)
    decreases size_of(a), 0int,
    via eval_intrinsic_decreases
{
    match op {
        Intrinsic::Nop => (en, Ok(a)),
        Intrinsic::Eval => {
            if a is List && a->List_0.len() > 0 {
                let first = a->List_0[0];
                match first {
                    ValueView::Str(txt) => {
                        match parse_at(txt, 0) {
                            Ok(vj) => eval_spec(reg, en, vj.0),
                            Err(_) => (en, Ok(ValueView::Nil)),
                        }
                    },
                    _ => eval_spec(reg, en, first),
                }
            } else {
                (en, Ok(ValueView::Nil))
            }
        },
        Intrinsic::Equals => {
            match cdr_view(a) {
                ValueView::List(rest) => eval_equals(reg, en, car_view(a), rest),
                _ => (en, Ok(ValueView::Bool(false))),
            }
        },
        Intrinsic::Add => {
            match a {
                ValueView::List(es) => {
                    let r = eval_args_vals(reg, en, es);
                    match r.1 {
                        Ok(vals) => (r.0, Ok(ValueView::Num(fold_arith(op, vals, ZERO_BITS)))),
                        Err(e) => (r.0, Err(e)),
                    }
                },
                _ => (en, Ok(ValueView::Num(ZERO_BITS))),
            }
        },
        Intrinsic::Mul => {
            match a {
                ValueView::List(es) => {
                    let r = eval_args_vals(reg, en, es);
                    match r.1 {
                        Ok(vals) => (r.0, Ok(ValueView::Num(fold_arith(op, vals, ONE_BITS)))),
                        Err(e) => (r.0, Err(e)),
                    }
                },
                _ => (en, Ok(ValueView::Num(ONE_BITS))),
            }
        },
        _ => {
            let seed = num_coerce(car_view(a));
            let rest = match cdr_view(a) {
                ValueView::List(es) => es,
                _ => Seq::empty(),
            };
            let r = eval_args_vals(reg, en, rest);
            match r.1 {
                Ok(vals) => (r.0, Ok(ValueView::Num(fold_arith(op, vals, seed)))),
                Err(e) => (r.0, Err(e)),
            }
        },
    }
}

#[via_fn]
proof fn eval_intrinsic_decreases(
    reg: Seq<(Seq<char>, Intrinsic)>,
    en: Seq<Map<Seq<char>, ValueView>>,
    op: Intrinsic,
    a: ValueView,
) {
    if a is List {
        let es = a->List_0;
        lemma_list_size_nonneg(es);
        assert(size_of(a) == 1 + list_size(es));
        if es.len() > 0 {
            lemma_size_pos(es[0]);
            lemma_list_size_elem(es, 0);
            if es[0] is Str {
                let txt = es[0]->Str_0;
                lemma_parse_size(txt, 0);
                if parse_at(txt, 0) is Ok {
                    lemma_size_pos(parse_at(txt, 0)->Ok_0.0);
                }
                assert(size_of(es[0]) == 1 + txt.len());
            }
            assert(cdr_view(a)->List_0 == es.drop_first());
            lemma_list_size_nonneg(es.drop_first());
            assert(list_size(es) == size_of(es[0]) + list_size(es.drop_first()));
        }
    }
    lemma_size_pos(a);
}

/// Evaluation of a sequence of arguments, left to right, collecting each
/// value; the first fatal condition stops the walk.
pub open spec fn eval_args_vals(
    reg: Seq<(Seq<char>, Intrinsic)>,
    en: Seq<Map<Seq<char>, ValueView>>,
    es: Seq<ValueView>,
) -> (Seq<Map<Seq<char>, ValueView>>, Result<Seq<ValueView>, EvalError>)
    decreases list_size(es), 3int,
    via eval_args_vals_decreases
{
    if es.len() == 0 {
        (en, Ok(Seq::empty()))
    } else {
        let r = eval_spec(reg, en, es[0]);
        match r.1 {
            Ok(val) => {
                let rest = eval_args_vals(reg, r.0, es.drop_first());
                match rest.1 {
                    Ok(vals) => (rest.0, Ok(seq![val] + vals)),
                    Err(e) => (rest.0, Err(e)),
                }
            },
            Err(e) => (r.0, Err(e)),
        }
    }
}

#[via_fn]
proof fn eval_args_vals_decreases(
    reg: Seq<(Seq<char>, Intrinsic)>,
    en: Seq<Map<Seq<char>, ValueView>>,
    es: Seq<ValueView>,
) {
    if es.len() > 0 {
        lemma_list_size_elem(es, 0);
        lemma_size_pos(es[0]);
        lemma_list_size_nonneg(es.drop_first());
    }
}

/// Structural comparison of the raw head against each evaluated remaining
/// argument: true when every one matches, vacuously true for none, false
/// at the first mismatch, which stops the walk there.
pub open spec fn eval_equals(
    reg: Seq<(Seq<char>, Intrinsic)>,
    en: Seq<Map<Seq<char>, ValueView>>,
    head: ValueView,
    rest: Seq<ValueView>,
) -> (Seq<Map<Seq<char>, ValueView>>, Result<ValueView, EvalError>)
    decreases list_size(rest), 3int,
    via eval_equals_decreases
{
    if rest.len() == 0 {
        (en, Ok(ValueView::Bool(true)))
    } else {
        let r = eval_spec(reg, en, rest[0]);
        match r.1 {
            Ok(val) => {
                if val == head {
                    eval_equals(reg, r.0, head, rest.drop_first())
                } else {
                    (r.0, Ok(ValueView::Bool(false)))
                }
            },
            Err(e) => (r.0, Err(e)),
        }
    }
}

#[via_fn]
proof fn eval_equals_decreases(
    reg: Seq<(Seq<char>, Intrinsic)>,
    en: Seq<Map<Seq<char>, ValueView>>,
    head: ValueView,
    rest: Seq<ValueView>,
) {
    if rest.len() > 0 {
        lemma_list_size_elem(rest, 0);
        lemma_size_pos(rest[0]);
        lemma_list_size_nonneg(rest.drop_first());
    }
}

/// Evaluation of source text: one top-level form is read and evaluated; a
/// parse failure is swallowed and yields `Nil`.
pub open spec fn eval_string(
    reg: Seq<(Seq<char>, Intrinsic)>,
    en: Seq<Map<Seq<char>, ValueView>>,
    txt: Seq<char>,
) -> (Seq<Map<Seq<char>, ValueView>>, Result<ValueView, EvalError>) {
    match parse_at(txt, 0) {
        Ok(vj) => eval_spec(reg, en, vj.0),
        Err(_) => (en, Ok(ValueView::Nil)),
    }
}

/// The registry that `base_intrinsics` installs.
pub open spec fn base_registry() -> Seq<(Seq<char>, Intrinsic)> {
    seq![
        ("eval"@, Intrinsic::Eval),
        ("="@, Intrinsic::Equals),
        ("+"@, Intrinsic::Add),
        ("*"@, Intrinsic::Mul),
        ("-"@, Intrinsic::Sub),
        ("/"@, Intrinsic::Div),
    ]
}


/// Structural equality of two value trees.
pub fn value_eq(a: &Value, b: &Value) -> (r: bool)
    ensures
        r == (a@ == b@),
    decreases *a,
{
    match (a, b) {
        (Value::Nil, Value::Nil) => true,
        (Value::Num(x), Value::Num(y)) => x == y,
        (Value::Str(x), Value::Str(y)) => str_eq(x.as_str(), y.as_str()),
        (Value::Sym(x), Value::Sym(y)) => str_eq(x.as_str(), y.as_str()),
        (Value::Atom(x), Value::Atom(y)) => str_eq(x.as_str(), y.as_str()),
        (Value::Bool(x), Value::Bool(y)) => x == y,
        (Value::List(xs), Value::List(ys)) => {
            proof {
                lemma_list_view(xs@);
                lemma_list_view(ys@);
            }
            if xs.len() != ys.len() {
                return false;
            }
            let mut i: usize = 0;
            while i < xs.len()
                invariant
                    *a == Value::List(*xs),
                    *b == Value::List(*ys),
                    i <= xs@.len(),
                    xs@.len() == ys@.len(),
                    forall|j: int| 0 <= j < xs@.len() ==> list_view(xs@)[j] == value_view(xs@[j]),
                    forall|j: int| 0 <= j < ys@.len() ==> list_view(ys@)[j] == value_view(ys@[j]),
                    list_view(xs@).len() == xs@.len(),
                    list_view(ys@).len() == ys@.len(),
                    forall|j: int| 0 <= j < i ==> value_view(xs@[j]) == value_view(ys@[j]),
                decreases xs@.len() - i,
            {
                proof {
                    assert(decreases_to!(*a => a->List_0));
                    assert(decreases_to!(a->List_0 => a->List_0@));
                    assert(decreases_to!(a->List_0@ => xs@[i as int]));
                }
                if !value_eq(&xs[i], &ys[i]) {
                    proof {
                        assert(list_view(xs@)[i as int] != list_view(ys@)[i as int]);
                    }
                    return false;
                }
                i = i + 1;
            }
            proof {
                assert(list_view(xs@) =~= list_view(ys@));
            }
            true
        },
        (Value::Func(f), Value::Func(g)) => {
            let pe = value_eq(&f.params, &g.params);
            if !pe {
                return false;
            }
            value_eq(&f.body, &g.body)
        },
        _ => {
            proof {
                assert(a@ != b@);
            }
            false
        },
    }
}

/// The view of a registry's backing vector.
spec fn reg_view(v: Seq<(String, Intrinsic)>) -> Seq<(Seq<char>, Intrinsic)> {
    Seq::new(v.len(), |i: int| (v[i].0@, v[i].1))
}

/// Walks the tree against an environment, dispatching special forms and the
/// intrinsic registry, which is populated once at construction and then
/// only read.
pub struct Evaluator {
    intrinsics: Vec<(String, Intrinsic)>,
}

impl View for Evaluator {
    type V = Seq<(Seq<char>, Intrinsic)>;

    closed spec fn view(&self) -> Seq<(Seq<char>, Intrinsic)> {
        reg_view(self.intrinsics@)
    }
}

impl Intrinsic {
    /// The name under which the intrinsic is registered.
    pub fn name(&self) -> (r: &'static str)
        ensures
            r@ == intrinsic_name(*self),
    {
        match self {
            Intrinsic::Nop => "nop",
            Intrinsic::Eval => "eval",
            Intrinsic::Equals => "=",
            Intrinsic::Add => "+",
            Intrinsic::Mul => "*",
            Intrinsic::Sub => "-",
            Intrinsic::Div => "/",
        }
    }
}

impl Evaluator {
    /// An evaluator with the base intrinsics registered.
    pub fn new() -> (r: Self)
        ensures
            r@ == base_registry(),
    {
        let mut this = Evaluator { intrinsics: Vec::new() };
        proof {
            assert(this@ =~= Seq::<(Seq<char>, Intrinsic)>::empty());
        }
        this.base_intrinsics();
        proof {
            assert(this@ =~= base_registry());
        }
        this
    }

    /// Registers one intrinsic under its own name; a later registration of
    /// the same name shadows an earlier one.
    pub fn add_intrinsic(&mut self, intr: Intrinsic)
        ensures
            final(self)@ =~= old(self)@.push((intrinsic_name(intr), intr)),
    {
        let name = intr.name();
        self.intrinsics.push((name.to_owned(), intr));
        proof {
            assert(self@ =~= old(self)@.push((intrinsic_name(intr), intr)));
        }
    }

    /// Registers the base intrinsics: `eval`, `=`, `+`, `*`, `-`, `/`.
    pub fn base_intrinsics(&mut self)
        ensures
            final(self)@ =~= old(self)@ + base_registry(),
    {
        self.add_intrinsic(Intrinsic::Eval);
        self.add_intrinsic(Intrinsic::Equals);
        self.add_intrinsic(Intrinsic::Add);
        self.add_intrinsic(Intrinsic::Mul);
        self.add_intrinsic(Intrinsic::Sub);
        self.add_intrinsic(Intrinsic::Div);
        proof {
            assert(self@ =~= old(self)@ + base_registry());
        }
    }

    /// The intrinsic registered under the name, if any.
    fn find_intrinsic(&self, s: &str) -> (r: Option<Intrinsic>)
        ensures
            r == reg_find(self@, s@),
    {
        let mut i: usize = self.intrinsics.len();
        proof {
            assert(self@.take(self.intrinsics@.len() as int) =~= self@);
        }
        while i > 0
            invariant
                i <= self.intrinsics@.len(),
                reg_find(self@, s@) == reg_find(self@.take(i as int), s@),
            decreases i,
        {
            i = i - 1;
            if str_eq(self.intrinsics[i].0.as_str(), s) {
                proof {
                    assert(self@.take(i as int + 1).last() == (s@, self.intrinsics@[i as int].1));
                }
                return Some(self.intrinsics[i].1);
            }
            proof {
                assert(self@.take(i as int + 1).drop_last() =~= self@.take(i as int));
            }
        }
        proof {
            assert(self@.take(0) =~= Seq::<(Seq<char>, Intrinsic)>::empty());
        }
        None
    }

    /// Whether an intrinsic is registered under the name.
    pub fn is_intrinsic(&self, s: &str) -> (r: bool)
        ensures
            r == (reg_find(self@, s@) is Some),
    {
        match self.find_intrinsic(s) {
            Some(_) => true,
            None => false,
        }
    }
}


/// The operator identifier of a form's head, where it has one.
fn form_name_of(v: &Value) -> (r: Option<String>)
    ensures
        match form_name(v@) {
            Some(name) => r is Some && (match r {
                Some(t) => t@ == name,
                None => false,
            }),
            None => r is None,
        },
{
    match v {
        Value::Sym(s) => Some(s.clone()),
        Value::Str(s) => Some(s.clone()),
        Value::Atom(s) => Some(s.clone()),
        Value::Bool(b) => {
            if *b {
                Some("#t".to_owned())
            } else {
                Some("#f".to_owned())
            }
        },
        _ => None,
    }
}

impl Evaluator {
    /// Evaluates each argument from `from` on, left to right, and yields
    /// the last value (or `Nil` when there is none): the body of `do`.
    fn do_args(&self, env: &mut Env, xs: &Vec<Value>, from: usize) -> (res: Result<
        Value,
        EvalError,
    >)
        requires
            from <= xs@.len(),
        ensures
            ({
                let r = eval_args_vals(self@, old(env)@, list_view(xs@).skip(from as int));
                &&& final(env)@ == r.0
                &&& match r.1 {
                    Ok(vals) => res is Ok && value_view(res->Ok_0) == (
                    if vals.len() == 0 {
                        ValueView::Nil
                    } else {
                        vals.last()
                    }),
                    Err(e) => res is Err && res->Err_0 == e,
                }
            }),
        decreases list_size(list_view(xs@).skip(from as int)), 3int,
    {
        let ghost es = list_view(xs@);
        proof {
            lemma_list_view(xs@);
        }
        if from >= xs.len() {
            proof {
                assert(es.skip(from as int) =~= Seq::<ValueView>::empty());
            }
            return Ok(Value::Nil);
        }
        proof {
            assert(es.skip(from as int)[0] == value_view(xs@[from as int]));
            lemma_list_size_elem(es.skip(from as int), 0);
            lemma_size_pos(es.skip(from as int)[0]);
            lemma_list_size_nonneg(es.skip(from as int).drop_first());
            assert(es.skip(from as int).drop_first() =~= es.skip(from as int + 1));
        }
        let r = self.evaluate(env, &xs[from]);
        match r {
            Ok(v) => {
                let done = from + 1 >= xs.len();
                let res = if done {
                    Ok(v)
                } else {
                    let inner_res = self.do_args(env, xs, from + 1);
                    match inner_res {
                        Ok(w) => Ok(w),
                        Err(e) => Err(e),
                    }
                };
                proof {
                    let rS = es.skip(from as int);
                    let r1 = eval_spec(self@, old(env)@, rS[0]);
                    let rest2 = eval_args_vals(self@, r1.0, rS.drop_first());
                    let full = eval_args_vals(self@, old(env)@, rS);
                    assert(rS.len() != 0);
                    assert(rS.drop_first() == es.skip(from as int + 1));
                    if done {
                        assert(es.skip(from as int + 1) =~= Seq::<ValueView>::empty());
                        assert(rest2 == (r1.0, Ok::<Seq<ValueView>, EvalError>(Seq::empty())));
                    }
                    if rest2.1 is Ok {
                        let vals = seq![r1.1->Ok_0] + rest2.1->Ok_0;
                        assert(full.0 == rest2.0);
                        assert(full.1 == Ok::<Seq<ValueView>, EvalError>(vals));
                        assert(vals.len() > 0);
                        if rest2.1->Ok_0.len() == 0 {
                            assert(vals.last() == r1.1->Ok_0);
                        } else {
                            assert(vals.last() == rest2.1->Ok_0.last());
                        }
                    }
                }
                res
            },
            Err(e) => Err(e),
        }
    }

    /// Evaluates each argument from `from` on and folds its numeric
    /// coercion into the accumulator with the operation's arithmetic.
    fn fold_args(&self, env: &mut Env, op: Intrinsic, xs: &Vec<Value>, from: usize, seed: u64)
        -> (res: Result<u64, EvalError>)
        requires
            from <= xs@.len(),
        ensures
            ({
                let r = eval_args_vals(self@, old(env)@, list_view(xs@).skip(from as int));
                &&& final(env)@ == r.0
                &&& match r.1 {
                    Ok(vals) => res is Ok && res->Ok_0 == fold_arith(op, vals, seed),
                    Err(e) => res is Err && res->Err_0 == e,
                }
            }),
        decreases list_size(list_view(xs@).skip(from as int)), 3int,
    {
        let ghost es = list_view(xs@);
        proof {
            lemma_list_view(xs@);
        }
        if from >= xs.len() {
            proof {
                assert(es.skip(from as int) =~= Seq::<ValueView>::empty());
            }
            return Ok(seed);
        }
        proof {
            assert(es.skip(from as int)[0] == value_view(xs@[from as int]));
            lemma_list_size_elem(es.skip(from as int), 0);
            lemma_size_pos(es.skip(from as int)[0]);
            lemma_list_size_nonneg(es.skip(from as int).drop_first());
            assert(es.skip(from as int).drop_first() =~= es.skip(from as int + 1));
        }
        let r = self.evaluate(env, &xs[from]);
        match r {
            Ok(v) => {
                let x = v.as_num();
                let next = match op {
                    Intrinsic::Add => crate::doubles::double_add(seed, x),
                    Intrinsic::Mul => crate::doubles::double_mul(seed, x),
                    Intrinsic::Sub => crate::doubles::double_sub(seed, x),
                    _ => crate::doubles::double_div(seed, x),
                };
                let rest = self.fold_args(env, op, xs, from + 1, next);
                proof {
                    let inner = eval_args_vals(
                        self@,
                        eval_spec(self@, old(env)@, es.skip(from as int)[0]).0,
                        es.skip(from as int + 1),
                    );
                    if inner.1 is Ok {
                        let vals = seq![value_view(v)] + inner.1->Ok_0;
                        assert(vals.drop_first() =~= inner.1->Ok_0);
                        assert(vals[0] == value_view(v));
                    }
                }
                rest
            },
            Err(e) => Err(e),
        }
    }

    /// Evaluates each remaining argument from `from` on and compares it
    /// structurally against the raw head; false at the first mismatch,
    /// which stops the walk, and vacuously true past the end.
    fn equals_args(&self, env: &mut Env, head: &Value, xs: &Vec<Value>, from: usize) -> (res:
        Result<Value, EvalError>)
        requires
            from <= xs@.len(),
        ensures
            ({
                let r = eval_equals(self@, old(env)@, head@, list_view(xs@).skip(from as int));
                &&& final(env)@ == r.0
                &&& match r.1 {
                    Ok(v) => res is Ok && value_view(res->Ok_0) == v,
                    Err(e) => res is Err && res->Err_0 == e,
                }
            }),
        decreases list_size(list_view(xs@).skip(from as int)), 3int,
    {
        let ghost es = list_view(xs@);
        proof {
            lemma_list_view(xs@);
        }
        if from >= xs.len() {
            proof {
                assert(es.skip(from as int) =~= Seq::<ValueView>::empty());
            }
            return Ok(Value::Bool(true));
        }
        proof {
            assert(es.skip(from as int)[0] == value_view(xs@[from as int]));
            lemma_list_size_elem(es.skip(from as int), 0);
            lemma_size_pos(es.skip(from as int)[0]);
            lemma_list_size_nonneg(es.skip(from as int).drop_first());
            assert(es.skip(from as int).drop_first() =~= es.skip(from as int + 1));
        }
        let r = self.evaluate(env, &xs[from]);
        match r {
            Ok(v) => {
                if value_eq(&v, head) {
                    self.equals_args(env, head, xs, from + 1)
                } else {
                    Ok(Value::Bool(false))
                }
            },
            Err(e) => Err(e),
        }
    }
}


impl Intrinsic {
    /// Applies the intrinsic to its raw argument list. Each intrinsic
    /// decides internally which arguments to evaluate.
    pub fn eval(&self, evaluator: &Evaluator, env: &mut Env, args: Value) -> (res: Result<
        Value,
        EvalError,
    >)
        ensures
            ({
                let r = eval_intrinsic(evaluator@, old(env)@, *self, args@);
                &&& final(env)@ == r.0
                &&& match r.1 {
                    Ok(v) => res is Ok && value_view(res->Ok_0) == v,
                    Err(e) => res is Err && res->Err_0 == e,
                }
            }),
        decreases size_of(args@), 1int,
    {
        let ghost a = args@;
        match self {
            Intrinsic::Nop => Ok(args),
            Intrinsic::Eval => {
                match &args {
                    Value::List(xs) => {
                        proof {
                            lemma_list_view(xs@);
                        }
                        if xs.len() == 0 {
                            return Ok(Value::Nil);
                        }
                        proof {
                            lemma_list_size_elem(list_view(xs@), 0);
                            lemma_size_pos(list_view(xs@)[0]);
                            lemma_list_size_nonneg(list_view(xs@));
                        }
                        match &xs[0] {
                            Value::Str(txt) => {
                                proof {
                                    lemma_parse_size(txt@, 0);
                                }
                                evaluator.eval(env, txt.as_str())
                            },
                            _ => evaluator.evaluate(env, &xs[0]),
                        }
                    },
                    _ => Ok(Value::Nil),
                }
            },
            Intrinsic::Equals => {
                let head = car(&args);
                let tail_list = cdr(&args);
                match tail_list {
                    Value::List(rest) => {
                        proof {
                            lemma_list_view(rest@);
                            lemma_list_size_nonneg(list_view(rest@));
                            lemma_size_pos(a);
                            assert(list_view(rest@).skip(0) =~= list_view(rest@));
                            if a is List && a->List_0.len() > 0 {
                                lemma_size_pos(a->List_0[0]);
                                lemma_list_size_nonneg(a->List_0);
                                assert(list_size(a->List_0) == size_of(a->List_0[0])
                                    + list_size(a->List_0.drop_first()));
                                assert(list_view(rest@) == a->List_0.drop_first());
                            }
                        }
                        evaluator.equals_args(env, &head, &rest, 0)
                    },
                    _ => Ok(Value::Bool(false)),
                }
            },
            Intrinsic::Add => {
                match &args {
                    Value::List(xs) => {
                        proof {
                            lemma_list_view(xs@);
                            lemma_list_size_nonneg(list_view(xs@));
                            assert(list_view(xs@).skip(0) =~= list_view(xs@));
                        }
                        let total = match evaluator.fold_args(env, Intrinsic::Add, xs, 0, ZERO_BITS) {
                            Ok(t) => t,
                            Err(e) => {
                                return Err(e);
                            },
                        };
                        Ok(Value::Num(total))
                    },
                    _ => Ok(Value::Num(ZERO_BITS)),
                }
            },
            Intrinsic::Mul => {
                match &args {
                    Value::List(xs) => {
                        proof {
                            lemma_list_view(xs@);
                            lemma_list_size_nonneg(list_view(xs@));
                            assert(list_view(xs@).skip(0) =~= list_view(xs@));
                        }
                        let total = match evaluator.fold_args(env, Intrinsic::Mul, xs, 0, ONE_BITS) {
                            Ok(t) => t,
                            Err(e) => {
                                return Err(e);
                            },
                        };
                        Ok(Value::Num(total))
                    },
                    _ => Ok(Value::Num(ONE_BITS)),
                }
            },
            _ => {
                let seed = car(&args).as_num();
                let rest = cdr(&args).as_vec();
                proof {
                    lemma_list_view(rest@);
                    lemma_size_pos(a);
                    lemma_list_size_nonneg(list_view(rest@));
                    assert(list_view(rest@).skip(0) =~= list_view(rest@));
                    if a is List && a->List_0.len() > 0 {
                        lemma_list_size_elem(a->List_0, 0);
                        lemma_size_pos(a->List_0[0]);
                        lemma_list_size_nonneg(a->List_0);
                        assert(list_size(a->List_0) == size_of(a->List_0[0])
                            + list_size(a->List_0.drop_first()));
                        assert(list_view(rest@) == a->List_0.drop_first());
                    }
                }
                let total = match evaluator.fold_args(env, *self, &rest, 0, seed) {
                    Ok(t) => t,
                    Err(e) => {
                        return Err(e);
                    },
                };
                Ok(Value::Num(total))
            },
        }
    }

}

impl Evaluator {
    /// Evaluates the condition, then evaluates and returns exactly one of
    /// the two branches based on its truthiness.
    pub fn evaluate_if(&self, env: &mut Env, cond: &Value, if_true: &Value, if_false: &Value)
        -> (res: Result<Value, EvalError>)
        ensures
            ({
                let c = eval_spec(self@, old(env)@, cond@);
                match c.1 {
                    Err(e) => final(env)@ == c.0 && res is Err && res->Err_0 == e,
                    Ok(cv) => ({
                        let b = eval_spec(
                            self@,
                            c.0,
                            if truthy(cv) {
                                if_true@
                            } else {
                                if_false@
                            },
                        );
                        &&& final(env)@ == b.0
                        &&& match b.1 {
                            Ok(v) => res is Ok && value_view(res->Ok_0) == v,
                            Err(e) => res is Err && res->Err_0 == e,
                        }
                    }),
                }
            }),
        decreases size_of(cond@) + size_of(if_true@) + size_of(if_false@), 0int,
    {
        proof {
            lemma_size_pos(cond@);
            lemma_size_pos(if_true@);
            lemma_size_pos(if_false@);
        }
        let c = match self.evaluate(env, cond) {
            Ok(v) => v,
            Err(e) => {
                return Err(e);
            },
        };
        if c.is_true() {
            self.evaluate(env, if_true)
        } else {
            self.evaluate(env, if_false)
        }
    }

    /// Evaluates the special forms `do`, `if`, `def`, `set` and `fun`, and
    /// reports any other identifier as not a special form.
    pub fn evaluate_special_form(&self, env: &mut Env, ident: &String, args: &Vec<Value>) -> (res:
        Option<Result<Value, EvalError>>)
        ensures
            ({
                match eval_sform(self@, old(env)@, ident@, list_view(args@)) {
                    Some(r) => res is Some && final(env)@ == r.0 && (match res {
                        Some(inner) => match r.1 {
                            Ok(v) => inner is Ok && value_view(inner->Ok_0) == v,
                            Err(e) => inner is Err && inner->Err_0 == e,
                        },
                        None => false,
                    }),
                    None => res is None && final(env)@ == old(env)@,
                }
            }),
        decreases list_size(list_view(args@)) + 2, 0int,
    {
        let ghost es = list_view(args@);
        proof {
            lemma_list_view(args@);
            lemma_list_size_nonneg(es);
            if es.len() > 0 {
                lemma_list_size_elem(es, 0);
                lemma_size_pos(es[0]);
            }
            if es.len() > 1 {
                lemma_list_size_elem(es, 1);
                lemma_size_pos(es[1]);
            }
            if es.len() > 2 {
                lemma_list_size_elem(es, 2);
                lemma_size_pos(es[2]);
            }
        }
        if str_eq(ident.as_str(), "do") {
            proof {
                assert(es.skip(0) =~= es);
            }
            Some(self.do_args(env, args, 0))
        } else if str_eq(ident.as_str(), "if") {
            if args.len() < 2 {
                return Some(Err(EvalError::MissingArguments));
            }
            proof {
                lemma_list_size_first3(es);
            }
            let r = if args.len() > 2 {
                self.evaluate_if(env, &args[0], &args[1], &args[2])
            } else {
                let absent = Value::Nil;
                self.evaluate_if(env, &args[0], &args[1], &absent)
            };
            Some(r)
        } else if str_eq(ident.as_str(), "def") {
            if args.len() < 2 {
                return Some(Err(EvalError::MissingArguments));
            }
            match &args[0] {
                Value::Sym(name) => {
                    let r = match self.evaluate(env, &args[1]) {
                        Ok(v) => v,
                        Err(e) => {
                            return Some(Err(e));
                        },
                    };
                    env.set(name.as_str(), r.clone());
                    Some(Ok(r))
                },
                _ => Some(Err(EvalError::NotASymbol)),
            }
        } else if str_eq(ident.as_str(), "set") {
            if args.len() < 2 {
                return Some(Err(EvalError::MissingArguments));
            }
            match &args[0] {
                Value::Sym(name) => {
                    if !env.has_in_chain(name.as_str()) {
                        return Some(Err(EvalError::UnboundSymbol));
                    }
                    let r = match self.evaluate(env, &args[1]) {
                        Ok(v) => v,
                        Err(e) => {
                            return Some(Err(e));
                        },
                    };
                    let found = env.set_in_chain(name.as_str(), r.clone());
                    proof {
                        if !found {
                            crate::env::lemma_chain_update_absent(env@, name@, r@);
                        }
                    }
                    Some(Ok(r))
                },
                _ => Some(Err(EvalError::NotASymbol)),
            }
        } else if str_eq(ident.as_str(), "fun") {
            if args.len() < 1 {
                return Some(Err(EvalError::MissingArguments));
            }
            match &args[0] {
                Value::Sym(name) => {
                    proof {
                        crate::env::lemma_env_nonempty(env);
                    }
                    if env.has(name.as_str()) {
                        Some(Err(EvalError::AlreadyBound))
                    } else {
                        Some(Ok(Value::Nil))
                    }
                },
                _ => Some(Err(EvalError::NotASymbol)),
            }
        } else {
            None
        }
    }

    /// Evaluates one expression: literals, `Func` values and empty lists
    /// are self-evaluating; a symbol resolves through the chain, to `Nil`
    /// when unbound; a non-empty list dispatches its head's identifier
    /// against the special forms and then the registry, and an unknown
    /// operator yields `Nil`.
    pub fn evaluate(&self, env: &mut Env, value: &Value) -> (res: Result<Value, EvalError>)
        ensures
            ({
                let r = eval_spec(self@, old(env)@, value@);
                &&& final(env)@ == r.0
                &&& match r.1 {
                    Ok(v) => res is Ok && value_view(res->Ok_0) == v,
                    Err(e) => res is Err && res->Err_0 == e,
                }
            }),
        decreases size_of(value@), 2int,
    {
        match value {
            Value::Sym(s) => Ok(env.get(s.as_str())),
            Value::List(xs) => {
                proof {
                    lemma_list_view(xs@);
                }
                if xs.len() == 0 {
                    return Ok(value.clone());
                }
                let ghost es = list_view(xs@);
                proof {
                    lemma_list_size_elem(es, 0);
                    lemma_size_pos(es[0]);
                    lemma_list_size_nonneg(es.drop_first());
                    assert(list_size(es) == size_of(es[0]) + list_size(es.drop_first()));
                    assert(size_of(value@) == 1 + list_size(es));
                }
                let head_name = form_name_of(&xs[0]);
                let args_vec = cdr(value).as_vec();
                proof {
                    assert(list_view(args_vec@) == es.drop_first());
                }
                match head_name {
                    None => Ok(Value::Nil),
                    Some(ident) => {
                        match self.evaluate_special_form(env, &ident, &args_vec) {
                            Some(r) => r,
                            None => {
                                match self.find_intrinsic(ident.as_str()) {
                                    Some(op) => {
                                        proof {
                                            lemma_list_size_nonneg(es.drop_first());
                                        }
                                        op.eval(self, env, Value::List(args_vec))
                                    },
                                    None => Ok(Value::Nil),
                                }
                            },
                        }
                    },
                }
            },
            _ => Ok(value.clone()),
        }
    }

    /// Parses one top-level form from the text and evaluates it; a parse
    /// failure is swallowed and yields `Nil`.
    pub fn eval(&self, env: &mut Env, code: &str) -> (res: Result<Value, EvalError>)
        ensures
            ({
                let r = eval_string(self@, old(env)@, code@);
                &&& final(env)@ == r.0
                &&& match r.1 {
                    Ok(v) => res is Ok && value_view(res->Ok_0) == v,
                    Err(e) => res is Err && res->Err_0 == e,
                }
            }),
        decreases code@.len() + 2, 0int,
    {
        let mut reader = Reader::new();
        let source = code.to_owned();
        let parsed = reader.read(&source);
        match parsed {
            Ok(v) => {
                proof {
                    lemma_parse_size(code@, 0);
                    lemma_size_pos(value_view(v));
                }
                self.evaluate(env, &v)
            },
            Err(_) => Ok(Value::Nil),
        }
    }
}

/// Parses and evaluates one top-level form against a fresh environment and
/// a fresh evaluator with the base intrinsics.
pub fn eval(code: &str) -> (res: Result<Value, EvalError>)
    ensures
        ({
            let r = eval_string(base_registry(), seq![Map::<Seq<char>, ValueView>::empty()], code@);
            match r.1 {
                Ok(v) => res is Ok && value_view(res->Ok_0) == v,
                Err(e) => res is Err && res->Err_0 == e,
            }
        }),
{
    let mut env = Env::new();
    Evaluator::new().eval(&mut env, code)
}


/// Definition, rebinding and lookup round-trip: on a chain with at least
/// its root scope, `(def x a)` binds `x` to `a` and yields `a`, a following
/// `(set x b)` rebinds `x` to `b` and yields `b`, and after each step the
/// chain resolves `x` accordingly — while `set` on a name that no scope
/// binds is the unbound-symbol fatal condition and changes nothing.
pub proof fn lemma_def_set_get_round_trip(
    reg: Seq<(Seq<char>, Intrinsic)>,
    en: Seq<Map<Seq<char>, ValueView>>,
    name: Seq<char>,
    a: u64,
    b: u64,
)
    requires
        en.len() > 0,
    ensures
        ({
            let d = eval_sform(reg, en, "def"@, seq![ValueView::Sym(name), ValueView::Num(a)]);
            &&& d is Some
            &&& d->Some_0.1 == Ok::<ValueView, EvalError>(ValueView::Num(a))
            &&& chain_lookup(d->Some_0.0, name) == ValueView::Num(a)
            &&& ({
                let st = eval_sform(
                    reg,
                    d->Some_0.0,
                    "set"@,
                    seq![ValueView::Sym(name), ValueView::Num(b)],
                );
                &&& st is Some
                &&& st->Some_0.1 == Ok::<ValueView, EvalError>(ValueView::Num(b))
                &&& chain_lookup(st->Some_0.0, name) == ValueView::Num(b)
            })
        }),
        !chain_has(en, name) ==> eval_sform(
            reg,
            en,
            "set"@,
            seq![ValueView::Sym(name), ValueView::Num(b)],
        ) == Some((en, Err::<ValueView, EvalError>(EvalError::UnboundSymbol))),
{
    let dargs = seq![ValueView::Sym(name), ValueView::Num(a)];
    assert(dargs.len() == 2 && dargs[0] == ValueView::Sym(name) && dargs[1] == ValueView::Num(a));
    proof_strlit_distinct();
    let d = eval_sform(reg, en, "def"@, dargs);
    let en1 = en.update(0, en[0].insert(name, ValueView::Num(a)));
    crate::env::lemma_define_then_lookup(en, name, ValueView::Num(a), name);
    assert(d == Some((en1, Ok::<ValueView, EvalError>(ValueView::Num(a)))));
    let sargs = seq![ValueView::Sym(name), ValueView::Num(b)];
    assert(sargs.len() == 2 && sargs[0] == ValueView::Sym(name) && sargs[1] == ValueView::Num(b));
    assert(chain_has(en1, name));
    crate::env::lemma_rebind_then_lookup(en1, name, ValueView::Num(b), name);
}

/// The five special-form names are pairwise distinct pieces of text.
proof fn proof_strlit_distinct()
    ensures
        "do"@ != "if"@ && "do"@ != "def"@ && "do"@ != "set"@ && "do"@ != "fun"@,
        "if"@ != "def"@ && "if"@ != "set"@ && "if"@ != "fun"@,
        "def"@ != "set"@ && "def"@ != "fun"@,
        "set"@ != "fun"@,
{
    reveal_strlit("do");
    reveal_strlit("if");
    reveal_strlit("def");
    reveal_strlit("set");
    reveal_strlit("fun");
    assert(("do"@).len() == 2);
    assert(("if"@).len() == 2);
    assert(("def"@).len() == 3);
    assert(("set"@).len() == 3);
    assert(("fun"@).len() == 3);
    assert(("do"@)[0] == 'd');
    assert(("if"@)[0] == 'i');
    assert(("def"@)[0] == 'd');
    assert(("set"@)[0] == 's');
    assert(("fun"@)[0] == 'f');
}

} // verus!
