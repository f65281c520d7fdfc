//! Setup value store — values produced by `before_each`/`before_all` hooks,
//! read by specs and later hooks.
//!
//! Values are keyed (one key per fixture type). Per-test values (from
//! `before_each`) are cleared between tests; per-scope values (from
//! `before_all`) live in a stack of layers, one per entered `describe`, and a
//! lookup searches the per-test values first, then the layers from the
//! innermost out — so inner scopes shadow outer ones and popping a layer
//! restores the outer value.
use vstd::prelude::*;
use std::collections::HashMap;

verus! {

/// The value stored under `k` in the map `m`, if any.
pub open spec fn find<V>(m: Map<u64, V>, k: u64) -> Option<V> {
    if m.contains_key(k) {
        Some(m[k])
    } else {
        None
    }
}

/// The value under `k` in the innermost of `layers` that has one.
pub open spec fn find_layers<V>(layers: Seq<Map<u64, V>>, k: u64) -> Option<V>
    decreases layers.len(),
{
    if layers.len() == 0 {
        None
    } else {
        match find(layers.last(), k) {
            Some(v) => Some(v),
            None => find_layers(layers.drop_last(), k),
        }
    }
}

/// Why a per-scope value could not be stored.
#[derive(Debug, PartialEq, Eq, Structural)]
pub enum StoreError {
    /// No scope layer is active.
    NoScope,
    /// The innermost layer already holds a value under this key: two values of
    /// one type in one scope cannot be told apart by a type-keyed read.
    Collision,
}

/// Typed fixture values for the running tests.
pub struct FixtureStore<V> {
    per_test: HashMap<u64, V>,
    scopes: Vec<HashMap<u64, V>>,
}

impl<V> FixtureStore<V> {
    /// The per-test values.
    pub closed spec fn per_test(self) -> Map<u64, V> {
        self.per_test@
    }

    /// The scope layers, outermost first.
    pub closed spec fn layers(self) -> Seq<Map<u64, V>> {
        self.scopes@.map_values(|l: HashMap<u64, V>| l@)
    }

    /// What a read of key `k` returns: a per-test value first, then the
    /// innermost scope value.
    pub open spec fn lookup(self, k: u64) -> Option<V> {
        match find(self.per_test(), k) {
            Some(v) => Some(v),
            None => find_layers(self.layers(), k),
        }
    }

    /// `self` has as many scope layers as `other`, and all but the innermost
    /// are `other`'s: only the innermost layer (and the per-test values) may
    /// differ, as storing a value changes them.
    pub open spec fn keeps_outer(self, other: Self) -> bool {
        &&& self.layers().len() == other.layers().len()
        &&& other.layers().len() > 0 ==> self.layers().drop_last() == other.layers().drop_last()
    }

    /// An empty store with no scope layer.
    pub fn new() -> (r: Self)
        ensures
            r.per_test() == Map::<u64, V>::empty(),
            r.layers().len() == 0,
    {
        let r = FixtureStore { per_test: HashMap::new(), scopes: Vec::new() };
        assert(r.layers() =~= Seq::<Map<u64, V>>::empty());
        r
    }

    /// Store a per-test value. A later value under the same key replaces the
    /// earlier one (last-registered-wins).
    pub fn store_setup_value(&mut self, key: u64, val: V)
        ensures
            final(self).per_test() == old(self).per_test().insert(key, val),
            final(self).layers() == old(self).layers(),
    {
        broadcast use vstd::std_specs::hash::group_hash_axioms;
        let _ = self.per_test.insert(key, val);
    }

    /// Push a new empty scope layer (entering a `describe`).
    pub fn push_scope_setup_layer(&mut self)
        ensures
            final(self).per_test() == old(self).per_test(),
            final(self).layers() == old(self).layers().push(Map::<u64, V>::empty()),
    {
        self.scopes.push(HashMap::new());
        assert(self.layers() =~= old(self).layers().push(Map::<u64, V>::empty()));
    }

    /// Store a per-scope value into the innermost layer. Refused when no layer
    /// is active or the innermost layer already holds a value under `key`.
    pub fn store_scope_setup_value(&mut self, key: u64, val: V) -> (r: Result<(), StoreError>)
        ensures
            final(self).per_test() == old(self).per_test(),
            old(self).layers().len() == 0 ==> r == Err::<(), StoreError>(StoreError::NoScope)
                && final(self).layers() == old(self).layers(),
            old(self).layers().len() > 0 && old(self).layers().last().contains_key(key) ==> r
                == Err::<(), StoreError>(StoreError::Collision) && final(self).layers()
                == old(self).layers(),
            old(self).layers().len() > 0 && !old(self).layers().last().contains_key(key) ==> r
                == Ok::<(), StoreError>(()) && final(self).layers() == old(self).layers().update(
                old(self).layers().len() - 1,
                old(self).layers().last().insert(key, val),
            ),
    {
        broadcast use vstd::std_specs::hash::group_hash_axioms;
        let n = self.scopes.len();
        if n == 0 {
            return Err(StoreError::NoScope);
        }
        let ghost old_layers = self.layers();
        assert(old_layers.last() == self.scopes@[n - 1]@);
        if self.scopes[n - 1].contains_key(&key) {
            Err(StoreError::Collision)
        } else {
            let mut top = self.scopes.pop().unwrap();
            let _ = top.insert(key, val);
            self.scopes.push(top);
            assert(self.layers() =~= old_layers.update(n - 1, old_layers.last().insert(key, val)));
            Ok(())
        }
    }

    /// Whether a read of `key` finds a value (see [`Self::with_setup_value`]).
    pub fn has_setup_value(&self, key: u64) -> (r: bool)
        ensures
            r == self.lookup(key) is Some,
    {
        self.find_setup_value(key).is_some()
    }

    /// Borrow the value a read of `key` resolves to: the per-test value first,
    /// then the scope layers from the innermost out. A value must be there:
    /// reading a fixture that no hook provided is a misuse.
    pub fn with_setup_value(&self, key: u64) -> (r: &V)
        requires
            self.lookup(key) is Some,
        ensures
            self.lookup(key) == Some(*r),
    {
        let found = self.find_setup_value(key);
        found.unwrap()
    }

    /// The value a read of `key` resolves to, if any.
    fn find_setup_value(&self, key: u64) -> (r: Option<&V>)
        ensures
            match r {
                Some(v) => self.lookup(key) == Some(*v),
                None => self.lookup(key) is None,
            },
    {
        broadcast use vstd::std_specs::hash::group_hash_axioms;
        match self.per_test.get(&key) {
            Some(v) => {
                return Some(v);
            },
            None => {},
        }
        let ghost ls = self.layers();
        let mut j: usize = self.scopes.len();
        assert(ls.take(j as int) =~= ls);
        while j > 0
            invariant
                j <= self.scopes@.len(),
                find(self.per_test(), key) is None,
                ls == self.layers(),
                find_layers(ls, key) == find_layers(ls.take(j as int), key),
            decreases j,
        {
            let layer = &self.scopes[j - 1];
            assert(ls.take(j as int).last() == layer@);
            assert(ls.take(j as int).drop_last() =~= ls.take(j - 1));
            match layer.get(&key) {
                Some(v) => {
                    return Some(v);
                },
                None => {},
            }
            j = j - 1;
        }
        None
    }

    /// Clear per-test values (between tests).
    pub fn clear_setup_values(&mut self)
        ensures
            final(self).per_test() == Map::<u64, V>::empty(),
            final(self).layers() == old(self).layers(),
    {
        self.per_test = HashMap::new();
    }

    /// Pop the innermost scope layer (leaving a `describe`).
    pub fn pop_scope_setup_layer(&mut self)
        ensures
            final(self).per_test() == old(self).per_test(),
            old(self).layers().len() > 0 ==> final(self).layers() == old(self).layers().drop_last(),
            old(self).layers().len() == 0 ==> final(self).layers() == old(self).layers(),
    {
        if self.scopes.len() > 0 {
            let _ = self.scopes.pop();
            assert(self.layers() =~= old(self).layers().drop_last());
        }
    }

    /// The number of active scope layers.
    pub fn depth(&self) -> (r: usize)
        ensures
            r == self.layers().len(),
    {
        self.scopes.len()
    }
}

/// Which store a returning `before_*` hook writes into.
#[derive(Clone, Copy, Debug, PartialEq, Eq, Structural)]
pub enum FixtureScope {
    /// The per-test store, cleared between specs (`before_each`).
    PerTest,
    /// The innermost scope layer, kept for the group's specs (`before_all`).
    PerScope,
}

impl<V> FixtureStore<V> {
    /// Store the value a returning hook produced, into the store `scope`
    /// selects (see [`Self::store_setup_value`] and
    /// [`Self::store_scope_setup_value`]).
    pub fn store_before_value(&mut self, scope: FixtureScope, key: u64, val: V) -> (r: Result<(), StoreError>)
        ensures
            scope == FixtureScope::PerTest ==> {
                &&& r is Ok
                &&& final(self).per_test() == old(self).per_test().insert(key, val)
                &&& final(self).layers() == old(self).layers()
            },
            scope == FixtureScope::PerScope ==> {
                &&& final(self).per_test() == old(self).per_test()
                &&& old(self).layers().len() == 0 ==> r == Err::<(), StoreError>(StoreError::NoScope)
                    && final(self).layers() == old(self).layers()
                &&& old(self).layers().len() > 0 && old(self).layers().last().contains_key(key) ==> r
                    == Err::<(), StoreError>(StoreError::Collision) && final(self).layers() == old(self).layers()
                &&& old(self).layers().len() > 0 && !old(self).layers().last().contains_key(key) ==> r
                    == Ok::<(), StoreError>(()) && final(self).layers() == old(self).layers().update(
                    old(self).layers().len() - 1,
                    old(self).layers().last().insert(key, val),
                )
            },
    {
        match scope {
            FixtureScope::PerScope => self.store_scope_setup_value(key, val),
            FixtureScope::PerTest => {
                self.store_setup_value(key, val);
                Ok(())
            },
        }
    }
}


/// Inner scopes shadow outer ones, and closing a scope restores the outer
/// value: after a layer is pushed (`s1`) and a value stored under `k` in it
/// (`s2`), a read of `k` gives that value unless a per-test value shadows it;
/// after the layer is popped again (`s3`), a read of `k` gives what it gave
/// before the layer was pushed. The relations between the states are those
/// `push_scope_setup_layer`, a successful `store_scope_setup_value` and
/// `pop_scope_setup_layer` ensure.
pub proof fn law_scope_shadow_and_restore<V>(
    s0: FixtureStore<V>,
    s1: FixtureStore<V>,
    s2: FixtureStore<V>,
    s3: FixtureStore<V>,
    k: u64,
    v: V,
)
    requires
        s1.per_test() == s0.per_test(),
        s1.layers() == s0.layers().push(Map::<u64, V>::empty()),
        s2.per_test() == s1.per_test(),
        s2.layers() == s1.layers().update(s1.layers().len() - 1, s1.layers().last().insert(k, v)),
        s3.per_test() == s2.per_test(),
        s3.layers() == s2.layers().drop_last(),
    ensures
        find(s0.per_test(), k) is None ==> s2.lookup(k) == Some(v),
        s3.lookup(k) == s0.lookup(k),
{
    let top = Map::<u64, V>::empty().insert(k, v);
    assert(s2.layers() =~= s0.layers().push(top));
    assert(s2.layers().drop_last() =~= s0.layers());
    assert(find(top, k) == Some(v));
    assert(s3.layers() =~= s0.layers());
}

/// Per-test values are fresh for every spec: once they are cleared, a read
/// of any key falls through to the scope layers.
pub proof fn law_cleared_reads_scope<V>(before: FixtureStore<V>, after: FixtureStore<V>, k: u64)
    requires
        after.per_test() == Map::<u64, V>::empty(),
        after.layers() == before.layers(),
    ensures
        after.lookup(k) == find_layers(before.layers(), k),
{
}

/// A per-test value shadows every scope value under the same key, and the
/// last one stored under a key is the one read.
pub proof fn law_per_test_value_wins<V>(s: FixtureStore<V>, k: u64, v: V)
    requires
        find(s.per_test(), k) == Some(v),
    ensures
        s.lookup(k) == Some(v),
{
}

} // verus!
