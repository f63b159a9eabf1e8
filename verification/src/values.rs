//! The data model: the `Value` tagged union that every datum of the language
//! inhabits, and the `Env` chain of lexical scopes that binds identifiers to
//! values.

use vstd::prelude::*;

verus! {

/// Bit pattern of IEEE-754 binary64 positive zero.
pub const ZERO_BITS: u64 = 0;

/// Bit pattern of IEEE-754 binary64 negative zero.
pub const NEG_ZERO_BITS: u64 = 0x8000_0000_0000_0000;

/// The mathematical shape of a `Value`: the same tree with text as character
/// sequences and numbers as their binary64 bit patterns. Contracts speak of
/// values through this type.
#[verifier::ext_equal]
pub enum ValueView {
    Nil,
    Num(u64),
    Str(Seq<char>),
    Sym(Seq<char>),
    Atom(Seq<char>),
    Bool(bool),
    List(Seq<ValueView>),
    Func(FuncView),
}

/// Shape of an `OwlFunc`: a formal-parameter specification and an
/// unevaluated body expression.
#[verifier::ext_equal]
pub struct FuncView {
    pub params: Box<ValueView>,
    pub body: Box<ValueView>,
}

/// The tagged union representing every datum the language can hold.
///
/// `List` contents retain source order; an empty list is itself meaningful.
/// `Nil` is the absence of a value, distinct from boolean false. `Num`
/// carries the bit pattern of an IEEE-754 binary64 number.
#[derive(Debug, PartialEq)]
pub enum Value {
    Nil,
    Num(u64),
    Str(String),
    Sym(String),
    Atom(String),
    Bool(bool),
    List(Vec<Value>),
    Func(OwlFunc),
}

/// A callable value bundling a formal-parameter specification and an
/// unevaluated body expression. Present in the type but not yet constructed
/// by any special form: `fun` only validates its preconditions, and no
/// captured environment is recorded yet.
#[derive(Debug, PartialEq)]
pub struct OwlFunc {
    pub params: Box<Value>,
    pub body: Box<Value>,
}

/// The shape of a value tree.
pub open spec fn value_view(v: Value) -> ValueView
    decreases v,
{
    match v {
        Value::Nil => ValueView::Nil,
        Value::Num(n) => ValueView::Num(n),
        Value::Str(s) => ValueView::Str(s@),
        Value::Sym(s) => ValueView::Sym(s@),
        Value::Atom(s) => ValueView::Atom(s@),
        Value::Bool(b) => ValueView::Bool(b),
        Value::List(xs) => ValueView::List(list_view(xs@)),
        Value::Func(f) => ValueView::Func(
            FuncView { params: Box::new(value_view(*f.params)), body: Box::new(value_view(*f.body)) },
        ),
    }
}

/// The shape of each element of a sequence of values.
pub open spec fn list_view(s: Seq<Value>) -> Seq<ValueView>
    decreases s,
{
    if s.len() == 0 {
        Seq::empty()
    } else {
        seq![value_view(s[0])] + list_view(s.subrange(1, s.len() as int))
    }
}

/// `list_view` maps the sequence pointwise.
pub proof fn lemma_list_view(s: Seq<Value>)
    ensures
        list_view(s).len() == s.len(),
        forall|i: int| 0 <= i < s.len() ==> list_view(s)[i] == value_view(s[i]),
    decreases s,
{
    if s.len() > 0 {
        lemma_list_view(s.subrange(1, s.len() as int));
    }
}

impl View for Value {
    type V = ValueView;

    open spec fn view(&self) -> ValueView {
        value_view(*self)
    }
}

impl Clone for Value {
    /// A clone has the same shape as the original.
    fn clone(&self) -> (res: Self)
        ensures
            res@ == self@,
        decreases *self,
    {
        match self {
            Value::Nil => Value::Nil,
            Value::Num(n) => Value::Num(*n),
            Value::Str(s) => Value::Str(s.clone()),
            Value::Sym(s) => Value::Sym(s.clone()),
            Value::Atom(s) => Value::Atom(s.clone()),
            Value::Bool(b) => Value::Bool(*b),
            Value::List(xs) => {
                let mut copy: Vec<Value> = Vec::new();
                let mut i: usize = 0;
                proof {
                    lemma_list_view(xs@);
                }
                while i < xs.len()
                    invariant
                        *self == Value::List(*xs),
                        i <= xs@.len(),
                        copy@.len() == i,
                        forall|j: int| 0 <= j < i ==> value_view(copy@[j]) == value_view(xs@[j]),
                    decreases xs@.len() - i,
                {
                    proof {
                        assert(decreases_to!(*self => self->List_0));
                        assert(decreases_to!(self->List_0 => self->List_0@));
                        assert(decreases_to!(self->List_0@ => xs@[i as int]));
                    }
                    let element = xs[i].clone();
                    copy.push(element);
                    i = i + 1;
                }
                proof {
                    lemma_list_view(copy@);
                    assert(list_view(copy@) =~= list_view(xs@));
                }
                Value::List(copy)
            },
            Value::Func(f) => Value::Func(
                OwlFunc { params: Box::new((*f.params).clone()), body: Box::new((*f.body).clone()) },
            ),
        }
    }
}

impl Clone for OwlFunc {
    /// A clone has the same shape as the original.
    fn clone(&self) -> (res: Self)
        ensures
            value_view(Value::Func(res)) == value_view(Value::Func(*self)),
    {
        OwlFunc { params: Box::new((*self.params).clone()), body: Box::new((*self.body).clone()) }
    }
}

/// Truthiness of a value when used as a condition: `Nil`, boolean false and
/// numeric zero (of either sign) are falsy; everything else is truthy.
pub open spec fn truthy(v: ValueView) -> bool {
    match v {
        ValueView::Nil => false,
        ValueView::Bool(b) => b,
        ValueView::Num(bits) => bits != ZERO_BITS && bits != NEG_ZERO_BITS,
        _ => true,
    }
}

/// Numeric coercion of a value's direct structural form: the bits of a `Num`,
/// and zero for everything else.
pub open spec fn num_coerce(v: ValueView) -> u64 {
    match v {
        ValueView::Num(bits) => bits,
        _ => ZERO_BITS,
    }
}

impl Value {
    /// Whether the value counts as true in a condition.
    pub fn is_true(self) -> (r: bool)
        ensures
            r == truthy(self@),
    {
        match self {
            Value::Nil => false,
            Value::Num(n) => n != ZERO_BITS && n != NEG_ZERO_BITS,
            Value::Bool(b) => b,
            _ => true,
        }
    }

    /// The numeric coercion of the value: the bit pattern it holds if it is a
    /// `Num`, and the bits of zero otherwise.
    pub fn as_num(self) -> (r: u64)
        ensures
            r == num_coerce(self@),
    {
        match self {
            Value::Num(f) => f,
            _ => ZERO_BITS,
        }
    }

    /// The elements of a `List`, and the empty sequence for any other value.
    pub fn as_vec(self) -> (r: Vec<Value>)
        ensures
            list_view(r@) == match self@ {
                ValueView::List(es) => es,
                _ => Seq::<ValueView>::empty(),
            },
    {
        match self {
            Value::List(xs) => xs,
            _ => Vec::new(),
        }
    }
}

/// The head of a list value: its first element, or `Nil` for an empty list
/// or any non-list value.
pub open spec fn car_view(v: ValueView) -> ValueView {
    match v {
        ValueView::List(es) => if es.len() > 0 {
            es[0]
        } else {
            ValueView::Nil
        },
        _ => ValueView::Nil,
    }
}

/// The tail of a list value: the list of everything after its first element
/// (an empty list stays empty), and `Nil` for any non-list value.
pub open spec fn cdr_view(v: ValueView) -> ValueView {
    match v {
        ValueView::List(es) => if es.len() > 0 {
            ValueView::List(es.subrange(1, es.len() as int))
        } else {
            ValueView::List(Seq::empty())
        },
        _ => ValueView::Nil,
    }
}

/// The first element of a list, or `Nil` when there is none.
pub fn car(v: &Value) -> (r: Value)
    ensures
        r@ == car_view(v@),
{
    match v {
        Value::List(xs) => {
            if xs.len() > 0 {
                proof {
                    lemma_list_view(xs@);
                }
                let first = xs[0].clone();
                proof {
                    assert(v@ == ValueView::List(list_view(xs@)));
                    assert(first@ == list_view(xs@)[0]);
                    assert(first@ =~= car_view(v@));
                }
                first
            } else {
                proof {
                    assert(list_view(xs@) =~= Seq::<ValueView>::empty());
                    assert(car_view(v@) == ValueView::Nil);
                }
                Value::Nil
            }
        },
        _ => Value::Nil,
    }
}

/// Everything after the first element of a list, as a list.
pub fn cdr(v: &Value) -> (r: Value)
    ensures
        r@ == cdr_view(v@),
{
    match v {
        Value::List(xs) => {
            let mut tail: Vec<Value> = Vec::new();
            proof {
                lemma_list_view(xs@);
            }
            if xs.len() == 0 {
                proof {
                    assert(list_view(tail@) =~= Seq::<ValueView>::empty());
                }
                return Value::List(tail);
            }
            let mut i: usize = 1;
            while i < xs.len()
                invariant
                    xs@.len() > 0,
                    1 <= i <= xs@.len(),
                    tail@.len() == i - 1,
                    forall|j: int| 0 <= j < i - 1 ==> value_view(tail@[j]) == value_view(xs@[j + 1]),
                    forall|k: int| 0 <= k < xs@.len() ==> list_view(xs@)[k] == value_view(xs@[k]),
                decreases xs@.len() - i,
            {
                let element = xs[i].clone();
                tail.push(element);
                i = i + 1;
            }
            proof {
                lemma_list_view(tail@);
                assert(list_view(tail@) =~= list_view(xs@).subrange(1, list_view(xs@).len() as int));
            }
            Value::List(tail)
        },
        _ => Value::Nil,
    }
}


/// The size of a value tree: one for each node, plus the length of every
/// string literal. Evaluation terminates because each step works on a
/// strictly smaller size, even where the `eval` intrinsic parses a string
/// into a fresh tree — what a text parses to is smaller than the text.
pub open spec fn size_of(v: ValueView) -> int
    decreases v,
{
    match v {
        ValueView::Str(t) => 1 + t.len() as int,
        ValueView::List(es) => 1 + list_size(es),
        ValueView::Func(f) => 1 + size_of(*f.params) + size_of(*f.body),
        _ => 1,
    }
}

/// The summed size of a sequence of value trees.
pub open spec fn list_size(es: Seq<ValueView>) -> int
    decreases es,
{
    if es.len() == 0 {
        0
    } else {
        size_of(es[0]) + list_size(es.drop_first())
    }
}

/// Every value tree has positive size.
pub proof fn lemma_size_pos(v: ValueView)
    ensures
        size_of(v) >= 1,
    decreases v,
{
    match v {
        ValueView::Func(f) => {
            lemma_size_pos(*f.params);
            lemma_size_pos(*f.body);
        },
        ValueView::List(es) => {
            lemma_list_size_nonneg(es);
        },
        _ => {},
    }
}

/// A sequence of value trees has nonnegative summed size.
pub proof fn lemma_list_size_nonneg(es: Seq<ValueView>)
    ensures
        list_size(es) >= 0,
    decreases es,
{
    if es.len() > 0 {
        lemma_size_pos(es[0]);
        lemma_list_size_nonneg(es.drop_first());
    }
}

/// Each element's size is bounded by the sequence's summed size.
pub proof fn lemma_list_size_elem(es: Seq<ValueView>, i: int)
    requires
        0 <= i < es.len(),
    ensures
        size_of(es[i]) <= list_size(es),
    decreases es,
{
    lemma_size_pos(es[0]);
    lemma_list_size_nonneg(es.drop_first());
    if i > 0 {
        lemma_list_size_elem(es.drop_first(), i - 1);
        lemma_size_pos(es[0]);
    }
}

/// The summed size of a concatenation is the sum of the summed sizes.
pub proof fn lemma_list_size_add(a: Seq<ValueView>, b: Seq<ValueView>)
    ensures
        list_size(a + b) == list_size(a) + list_size(b),
    decreases a,
{
    if a.len() == 0 {
        assert(a + b =~= b);
    } else {
        assert((a + b).drop_first() =~= a.drop_first() + b);
        lemma_list_size_add(a.drop_first(), b);
    }
}


/// The summed size of a one-element sequence is that element's size.
pub proof fn lemma_list_size_one(v: ValueView)
    ensures
        list_size(seq![v]) == size_of(v),
{
    assert(seq![v].drop_first() =~= Seq::<ValueView>::empty());
    assert(list_size(Seq::<ValueView>::empty()) == 0);
}


/// The summed size bounds the sizes of the first three elements together.
pub proof fn lemma_list_size_first3(es: Seq<ValueView>)
    ensures
        es.len() >= 1 ==> size_of(es[0]) <= list_size(es),
        es.len() >= 2 ==> size_of(es[0]) + size_of(es[1]) <= list_size(es),
        es.len() >= 3 ==> size_of(es[0]) + size_of(es[1]) + size_of(es[2]) <= list_size(es),
{
    if es.len() >= 1 {
        let d1 = es.drop_first();
        lemma_list_size_nonneg(d1);
        if es.len() >= 2 {
            let d2 = d1.drop_first();
            lemma_list_size_nonneg(d2);
            assert(d1[0] == es[1]);
            if es.len() >= 3 {
                let d3 = d2.drop_first();
                lemma_list_size_nonneg(d3);
                assert(d2[0] == es[2]);
            }
        }
    }
}

} // verus!
