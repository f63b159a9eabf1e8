//! The `Env` chain of lexical scopes: a mapping from identifier to `Value`
//! plus an optional parent scope, searched innermost-out.

use vstd::prelude::*;

use crate::values::{Value, ValueView, value_view};

verus! {

/// Compares two pieces of text character by character.
pub fn str_eq(a: &str, b: &str) -> (r: bool)
    ensures
        r == (a@ == b@),
{
    let n = a.unicode_len();
    if n != b.unicode_len() {
        return false;
    }
    let mut i: usize = 0;
    while i < n
        invariant
            n == a@.len(),
            n == b@.len(),
            i <= n,
            forall|j: int| 0 <= j < i ==> a@[j] == b@[j],
        decreases n - i,
    {
        if a.get_char(i) != b.get_char(i) {
            return false;
        }
        i = i + 1;
    }
    proof {
        assert(a@ =~= b@);
    }
    true
}

/// The mapping that a sequence of bindings denotes: a later binding for a
/// name shadows an earlier one.
spec fn scope_view(data: Seq<(String, Value)>) -> Map<Seq<char>, ValueView>
    decreases data,
{
    if data.len() == 0 {
        Map::empty()
    } else {
        scope_view(data.drop_last()).insert(data.last().0@, value_view(data.last().1))
    }
}

/// A name bound nowhere in the sequence is absent from its mapping.
proof fn lemma_scope_absent(data: Seq<(String, Value)>, name: Seq<char>)
    requires
        forall|j: int| 0 <= j < data.len() ==> data[j].0@ != name,
    ensures
        !scope_view(data).contains_key(name),
    decreases data,
{
    if data.len() > 0 {
        lemma_scope_absent(data.drop_last(), name);
    }
}

/// The mapping sends a name to the value of its last binding.
proof fn lemma_scope_hit(data: Seq<(String, Value)>, name: Seq<char>, i: int)
    requires
        0 <= i < data.len(),
        data[i].0@ == name,
        forall|j: int| i < j < data.len() ==> data[j].0@ != name,
    ensures
        scope_view(data).contains_key(name),
        scope_view(data)[name] == value_view(data[i].1),
    decreases data,
{
    if i == data.len() - 1 {
    } else {
        lemma_scope_hit(data.drop_last(), name, i);
    }
}

/// A chained mapping from identifier to value: one mapping per scope,
/// innermost first.
pub struct Env {
    data: Vec<(String, Value)>,
    parent: Option<Box<Env>>,
}

/// Resolution of a name against a chain of scopes: the innermost scope that
/// binds the name decides its value, and an unresolved name denotes `Nil`.
pub open spec fn chain_lookup(scopes: Seq<Map<Seq<char>, ValueView>>, name: Seq<char>) -> ValueView
    decreases scopes.len(),
{
    if scopes.len() == 0 {
        ValueView::Nil
    } else if scopes[0].contains_key(name) {
        scopes[0][name]
    } else {
        chain_lookup(scopes.drop_first(), name)
    }
}

/// Whether any scope of the chain binds the name.
pub open spec fn chain_has(scopes: Seq<Map<Seq<char>, ValueView>>, name: Seq<char>) -> bool
    decreases scopes.len(),
{
    if scopes.len() == 0 {
        false
    } else {
        scopes[0].contains_key(name) || chain_has(scopes.drop_first(), name)
    }
}

/// The chain after rebinding a name in the innermost scope that already
/// binds it; a chain that binds it nowhere is unchanged.
pub open spec fn chain_update(
    scopes: Seq<Map<Seq<char>, ValueView>>,
    name: Seq<char>,
    v: ValueView,
) -> Seq<Map<Seq<char>, ValueView>>
    decreases scopes.len(),
{
    if scopes.len() == 0 {
        scopes
    } else if scopes[0].contains_key(name) {
        seq![scopes[0].insert(name, v)] + scopes.drop_first()
    } else {
        seq![scopes[0]] + chain_update(scopes.drop_first(), name, v)
    }
}

impl View for Env {
    type V = Seq<Map<Seq<char>, ValueView>>;

    closed spec fn view(&self) -> Seq<Map<Seq<char>, ValueView>> {
        env_scopes(*self)
    }
}

/// The scopes of an environment chain, innermost first.
spec fn env_scopes(e: Env) -> Seq<Map<Seq<char>, ValueView>>
    decreases e,
{
    seq![scope_view(e.data@)] + match e.parent {
        Some(p) => env_scopes(*p),
        None => Seq::empty(),
    }
}

impl Env {
    /// A fresh root environment: one scope, binding nothing.
    pub fn new() -> (r: Self)
        ensures
            r@ =~= seq![Map::<Seq<char>, ValueView>::empty()],
    {
        Env { data: Vec::new(), parent: None }
    }

    /// Whether the current (innermost) scope binds the identifier.
    pub fn has(&self, ident: &str) -> (r: bool)
        ensures
            r == self@[0].contains_key(ident@),
    {
        let mut i: usize = self.data.len();
        while i > 0
            invariant
                i <= self.data@.len(),
                forall|j: int| i <= j < self.data@.len() ==> self.data@[j].0@ != ident@,
            decreases i,
        {
            i = i - 1;
            if str_eq(self.data[i].0.as_str(), ident) {
                proof {
                    lemma_scope_hit(self.data@, ident@, i as int);
                    assert(self@[0] == scope_view(self.data@));
                }
                return true;
            }
        }
        proof {
            lemma_scope_absent(self.data@, ident@);
            assert(self@[0] == scope_view(self.data@));
        }
        false
    }

    /// Binds the identifier in the current (innermost) scope, shadowing any
    /// earlier binding of the same name in this scope.
    pub fn set(&mut self, ident: &str, value: Value)
        ensures
            final(self)@ =~= old(self)@.update(0, old(self)@[0].insert(ident@, value@)),
    {
        let key = ident.to_owned();
        let ghost d0 = self.data@;
        let ghost v0 = value@;
        self.data.push((key, value));
        proof {
            assert(self.data@.drop_last() =~= d0);
            assert(scope_view(self.data@) == scope_view(d0).insert(ident@, v0));
            assert(self@ =~= old(self)@.update(0, old(self)@[0].insert(ident@, v0)));
        }
    }

    /// Resolves the identifier by walking the chain from innermost to
    /// outermost scope; an unresolved name yields `Nil`.
    pub fn get(&self, ident: &str) -> (r: Value)
        ensures
            r@ == chain_lookup(self@, ident@),
        decreases *self,
    {
        let mut i: usize = self.data.len();
        while i > 0
            invariant
                i <= self.data@.len(),
                forall|j: int| i <= j < self.data@.len() ==> self.data@[j].0@ != ident@,
            decreases i,
        {
            i = i - 1;
            if str_eq(self.data[i].0.as_str(), ident) {
                proof {
                    lemma_scope_hit(self.data@, ident@, i as int);
                    assert(self@[0] == scope_view(self.data@));
                    assert(chain_lookup(self@, ident@) == scope_view(self.data@)[ident@]);
                }
                return self.data[i].1.clone();
            }
        }
        proof {
            lemma_scope_absent(self.data@, ident@);
            assert(self@[0] == scope_view(self.data@));
            assert(self@.drop_first() =~= match self.parent {
                Some(p) => env_scopes(*p),
                None => Seq::empty(),
            });
        }
        match &self.parent {
            Some(p) => {
                let r = p.get(ident);
                proof {
                    assert(self.parent == Some(*p));
                    assert(r@ == chain_lookup(env_scopes(**p), ident@));
                    assert(self@.drop_first() =~= env_scopes(**p));
                    assert(!self@[0].contains_key(ident@));
                    assert(self@.len() != 0);
                    assert(chain_lookup(self@, ident@) == chain_lookup(self@.drop_first(), ident@));
                }
                r
            },
            None => {
                proof {
                    assert(self@.drop_first() =~= Seq::<Map<Seq<char>, ValueView>>::empty());
                    assert(chain_lookup(self@, ident@) == ValueView::Nil);
                }
                Value::Nil
            },
        }
    }

    /// Whether any scope on the chain binds the identifier.
    pub fn has_in_chain(&self, ident: &str) -> (r: bool)
        ensures
            r == chain_has(self@, ident@),
        decreases *self,
    {
        if self.has(ident) {
            return true;
        }
        proof {
            assert(self@[0] == scope_view(self.data@));
            assert(self@.drop_first() =~= match self.parent {
                Some(p) => env_scopes(*p),
                None => Seq::empty(),
            });
        }
        match &self.parent {
            Some(p) => {
                let r = p.has_in_chain(ident);
                proof {
                    assert(self@.drop_first() =~= env_scopes(**p));
                    assert(self@.len() != 0);
                    assert(chain_has(self@, ident@) == chain_has(self@.drop_first(), ident@));
                }
                r
            },
            None => {
                proof {
                    assert(self@.len() != 0);
                    assert(self@.drop_first() =~= Seq::<Map<Seq<char>, ValueView>>::empty());
                    assert(!self@[0].contains_key(ident@));
                    assert(self@.drop_first().len() == 0);
                    assert(!chain_has(self@.drop_first(), ident@));
                    assert(!chain_has(self@, ident@));
                }
                false
            },
        }
    }

    /// Rebinds the identifier in the innermost scope that already binds it,
    /// searching innermost-out; reports whether such a scope was found, and
    /// changes nothing when none was.
    pub fn set_in_chain(&mut self, ident: &str, value: Value) -> (found: bool)
        ensures
            found == chain_has(old(self)@, ident@),
            final(self)@ =~= if found {
                chain_update(old(self)@, ident@, value@)
            } else {
                old(self)@
            },
        decreases *old(self),
    {
        if self.has(ident) {
            let ghost v0 = value@;
            self.set(ident, value);
            proof {
                assert(self@ =~= chain_update(old(self)@, ident@, v0));
            }
            return true;
        }
        proof {
            assert(old(self)@[0] == scope_view(old(self).data@));
            assert(old(self)@.drop_first() =~= match old(self).parent {
                Some(p) => env_scopes(*p),
                None => Seq::empty(),
            });
        }
        let ghost v0 = value@;
        match &mut self.parent {
            Some(p) => {
                let ghost p0 = **p;
                let found = p.set_in_chain(ident, value);
                proof {
                    assert(old(self)@.drop_first() =~= env_scopes(p0));
                    assert(old(self)@.len() != 0);
                    assert(chain_has(old(self)@, ident@) == chain_has(env_scopes(p0), ident@));
                    assert(self@[0] == old(self)@[0]);
                    assert(self@.drop_first() =~= env_scopes(**p));
                    if found {
                        assert(env_scopes(**p) =~= chain_update(env_scopes(p0), ident@, v0));
                        assert(self@ =~= chain_update(old(self)@, ident@, v0));
                    } else {
                        assert(self@ =~= old(self)@);
                    }
                }
                found
            },
            None => {
                proof {
                    assert(old(self)@.len() != 0);
                    assert(old(self)@.drop_first() =~= Seq::<Map<Seq<char>, ValueView>>::empty());
                    assert(!old(self)@[0].contains_key(ident@));
                    assert(old(self)@.drop_first().len() == 0);
                    assert(!chain_has(old(self)@.drop_first(), ident@));
                    assert(!chain_has(old(self)@, ident@));
                }
                false
            },
        }
    }
}

/// After a definition in the innermost scope, the chain resolves the name to
/// the defined value, and resolves every other name as before.
pub proof fn lemma_define_then_lookup(
    scopes: Seq<Map<Seq<char>, ValueView>>,
    name: Seq<char>,
    v: ValueView,
    other: Seq<char>,
)
    requires
        scopes.len() > 0,
    ensures
        chain_lookup(scopes.update(0, scopes[0].insert(name, v)), name) == v,
        other != name ==> chain_lookup(scopes.update(0, scopes[0].insert(name, v)), other)
            == chain_lookup(scopes, other),
{
    let updated = scopes.update(0, scopes[0].insert(name, v));
    assert(updated.drop_first() =~= scopes.drop_first());
}

/// After a rebinding somewhere on the chain, the chain resolves the name to
/// the new value, and resolves every other name as before.
pub proof fn lemma_rebind_then_lookup(
    scopes: Seq<Map<Seq<char>, ValueView>>,
    name: Seq<char>,
    v: ValueView,
    other: Seq<char>,
)
    requires
        chain_has(scopes, name),
    ensures
        chain_lookup(chain_update(scopes, name, v), name) == v,
        other != name ==> chain_lookup(chain_update(scopes, name, v), other)
            == chain_lookup(scopes, other),
    decreases scopes.len(),
{
    if scopes.len() > 0 {
        if scopes[0].contains_key(name) {
            assert(chain_update(scopes, name, v).drop_first() =~= scopes.drop_first());
        } else {
            lemma_rebind_then_lookup(scopes.drop_first(), name, v, other);
            assert(chain_update(scopes, name, v).drop_first()
                =~= chain_update(scopes.drop_first(), name, v));
        }
    }
}


/// An environment chain always holds at least its own innermost scope.
pub proof fn lemma_env_nonempty(e: &Env)
    ensures
        e@.len() >= 1,
{
}

/// Rebinding a name that no scope binds changes nothing.
pub proof fn lemma_chain_update_absent(
    scopes: Seq<Map<Seq<char>, ValueView>>,
    name: Seq<char>,
    v: ValueView,
)
    requires
        !chain_has(scopes, name),
    ensures
        chain_update(scopes, name, v) =~= scopes,
    decreases scopes.len(),
{
    if scopes.len() > 0 {
        lemma_chain_update_absent(scopes.drop_first(), name, v);
        assert(chain_update(scopes, name, v) =~= seq![scopes[0]] + scopes.drop_first());
        assert(seq![scopes[0]] + scopes.drop_first() =~= scopes);
    }
}

} // verus!
