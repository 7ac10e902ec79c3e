//! Names and what they stand for, scope by scope.

use crate::names::NameMap;
use vstd::prelude::*;

verus! {

/// What a name stands for in the innermost scope that has it, or globally.
pub open spec fn lookup_in<S>(
    scopes: Seq<Map<Seq<char>, S>>,
    globals: Map<Seq<char>, S>,
    name: Seq<char>,
) -> Option<S>
    decreases scopes.len(),
{
    if scopes.len() == 0 {
        if globals.contains_key(name) {
            Some(globals[name])
        } else {
            None
        }
    } else if scopes.last().contains_key(name) {
        Some(scopes.last()[name])
    } else {
        lookup_in(scopes.drop_last(), globals, name)
    }
}

/// The view of [`Scopes`].
#[verifier::ext_equal]
pub struct ScopesV<S> {
    pub inner: Seq<Map<Seq<char>, S>>,
    pub globals: Map<Seq<char>, S>,
}

impl<S> ScopesV<S> {
    /// What a name stands for.
    pub open spec fn lookup(self, name: Seq<char>) -> Option<S> {
        lookup_in(self.inner, self.globals, name)
    }

    /// Whether the innermost scope has a name.
    pub open spec fn declared(self, name: Seq<char>) -> bool {
        self.inner.len() > 0 && self.inner.last().contains_key(name)
    }

    /// A name bound in the innermost scope.
    pub open spec fn bind(self, name: Seq<char>, s: S) -> ScopesV<S> {
        ScopesV {
            inner: self.inner.update(self.inner.len() - 1, self.inner.last().insert(name, s)),
            ..self
        }
    }

    /// A name bound globally.
    pub open spec fn bind_global(self, name: Seq<char>, s: S) -> ScopesV<S> {
        ScopesV { globals: self.globals.insert(name, s), ..self }
    }

    /// A new scope.
    pub open spec fn enter(self) -> ScopesV<S> {
        ScopesV { inner: self.inner.push(Map::empty()), ..self }
    }

    /// The innermost scope left.
    pub open spec fn exit(self) -> ScopesV<S> {
        ScopesV { inner: self.inner.drop_last(), ..self }
    }

    /// One empty scope.
    pub open spec fn fresh(self) -> ScopesV<S> {
        ScopesV { inner: seq![Map::empty()], ..self }
    }
}

/// One empty scope, and no global name.
pub open spec fn no_names<S>() -> ScopesV<S> {
    ScopesV { inner: seq![Map::empty()], globals: Map::empty() }
}

/// A name that is bound stands for what it was bound to, and other names are not affected.
pub proof fn binding_is_found<S>(v: ScopesV<S>, name: Seq<char>, s: S, other: Seq<char>)
    requires
        v.inner.len() > 0,
    ensures
        v.bind(name, s).lookup(name) == Some(s),
        other != name ==> v.bind(name, s).lookup(other) == v.lookup(other),
{
    let w = v.bind(name, s);
    assert(w.inner.last() == v.inner.last().insert(name, s));
    assert(w.inner.drop_last() =~= v.inner.drop_last());
}

/// What is bound in a scope is gone when the scope is left.
pub proof fn scope_ends<S>(v: ScopesV<S>, name: Seq<char>, s: S)
    ensures
        v.enter().exit() == v,
        v.enter().bind(name, s).exit() == v,
        forall|other: Seq<char>| #[trigger] v.enter().lookup(other) == v.lookup(other),
{
    assert(v.enter().exit().inner =~= v.inner);
    assert(v.enter().bind(name, s).exit().inner =~= v.inner);
    assert forall|other: Seq<char>| #[trigger] v.enter().lookup(other) == v.lookup(other) by {
        assert(v.enter().inner.drop_last() =~= v.inner);
    }
}

/// Names and what they stand for.
pub struct Scopes<V> {
    inner: Vec<NameMap<V>>,
    globals: NameMap<V>,
}

spec fn maps<V: View>(v: Seq<NameMap<V>>) -> Seq<Map<Seq<char>, V::V>> {
    v.map_values(|m: NameMap<V>| m@)
}

impl<V: View> View for Scopes<V> {
    type V = ScopesV<V::V>;

    closed spec fn view(&self) -> ScopesV<V::V> {
        ScopesV { inner: maps(self.inner@), globals: self.globals@ }
    }
}

impl<V: View> Scopes<V> {
    pub fn new() -> (r: Self)
        ensures
            r@ == no_names::<V::V>(),
    {
        let mut inner: Vec<NameMap<V>> = Vec::new();
        inner.push(NameMap::new());
        let r = Scopes { inner, globals: NameMap::new() };
        assert(r@.inner =~= seq![Map::empty()]);
        r
    }

    /// Enters a scope.
    pub fn enter(&mut self)
        ensures
            final(self)@ == old(self)@.enter(),
    {
        let ghost before = self.inner@;
        self.inner.push(NameMap::new());
        assert(self@.inner =~= maps(before).push(Map::empty()));
    }

    /// Leaves the innermost scope.
    pub fn exit(&mut self)
        requires
            old(self)@.inner.len() > 0,
        ensures
            final(self)@ == old(self)@.exit(),
    {
        let ghost before = self.inner@;
        self.inner.pop();
        assert(self@.inner =~= maps(before).drop_last());
    }

    /// Leaves all scopes for one empty one.
    pub fn restart(&mut self)
        ensures
            final(self)@ == old(self)@.fresh(),
    {
        let mut inner: Vec<NameMap<V>> = Vec::new();
        inner.push(NameMap::new());
        self.inner = inner;
        assert(self@.inner =~= seq![Map::empty()]);
    }

    /// What a name stands for.
    pub fn lookup(&self, name: &str) -> (r: Option<&V>)
        ensures
            match self@.lookup(name@) {
                Some(s) => r matches Some(x) && x@ == s,
                None => r is None,
            },
    {
        let mut i: usize = self.inner.len();
        let ghost scopes = self@.inner;
        assert(scopes.take(i as int) =~= scopes);
        while i > 0
            invariant
                i <= self.inner.len(),
                scopes == maps(self.inner@),
                lookup_in(scopes, self@.globals, name@) == lookup_in(
                    scopes.take(i as int),
                    self@.globals,
                    name@,
                ),
                self@.inner == scopes,
            decreases i,
        {
            assert(scopes.take(i as int).drop_last() =~= scopes.take(i - 1));
            i = i - 1;
            if let Some(sym) = self.inner[i].get(name) {
                return Some(sym);
            }
        }
        self.globals.get(name)
    }

    /// Whether the innermost scope has a name.
    pub fn declared(&self, name: &str) -> (r: bool)
        ensures
            r == self@.declared(name@),
    {
        let n = self.inner.len();
        n > 0 && self.inner[n - 1].contains_key(name)
    }

    /// Whether there is a global name.
    pub fn has_global(&self, name: &str) -> (r: bool)
        ensures
            r == self@.globals.contains_key(name@),
    {
        self.globals.contains_key(name)
    }

    /// Binds a name in the innermost scope.
    pub fn bind(&mut self, name: String, s: V)
        requires
            old(self)@.inner.len() > 0,
        ensures
            final(self)@ == old(self)@.bind(name@, s@),
    {
        let ghost before = self@;
        let n = self.inner.len();
        self.inner[n - 1].insert(name, s);
        assert(self@.inner =~= before.bind(name@, s@).inner);
    }

    /// Binds a name globally.
    pub fn bind_global(&mut self, name: String, s: V)
        ensures
            final(self)@ == old(self)@.bind_global(name@, s@),
    {
        self.globals.insert(name, s);
    }
}

} // verus!
