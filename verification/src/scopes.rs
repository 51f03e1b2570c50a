//! Nested scopes of named bindings, innermost last. The type checker binds
//! names to types in them, the interpreter binds names to values.

use vstd::prelude::*;
use vstd::string::StringExecFns;
use crate::strings::str_eq;

verus! {

// ---------------------------------------------------------------------------
// The model

/// The bindings of one scope: a later entry for a name replaces an earlier one.
pub open spec fn scope_map<V>(s: Seq<(String, V)>) -> Map<Seq<char>, V>
    decreases s.len(),
{
    if s.len() == 0 {
        Map::empty()
    } else {
        scope_map(s.drop_last()).insert(s.last().0@, s.last().1)
    }
}

/// The innermost binding of `name`.
pub open spec fn lookup_in<V>(scopes: Seq<Map<Seq<char>, V>>, name: Seq<char>) -> Option<V>
    decreases scopes.len(),
{
    if scopes.len() == 0 {
        None
    } else if scopes.last().contains_key(name) {
        Some(scopes.last()[name])
    } else {
        lookup_in(scopes.drop_last(), name)
    }
}

/// The index of the innermost scope that binds `name`.
pub open spec fn binding_scope<V>(scopes: Seq<Map<Seq<char>, V>>, name: Seq<char>) -> Option<int>
    decreases scopes.len(),
{
    if scopes.len() == 0 {
        None
    } else if scopes.last().contains_key(name) {
        Some(scopes.len() - 1)
    } else {
        binding_scope(scopes.drop_last(), name)
    }
}

/// The scopes after binding `name` to `v` in the innermost one.
pub open spec fn define_in<V>(scopes: Seq<Map<Seq<char>, V>>, name: Seq<char>, v: V) -> Seq<Map<Seq<char>, V>> {
    scopes.update(scopes.len() - 1, scopes.last().insert(name, v))
}

/// The scopes after rebinding `name` to `v` where it is bound innermost, if
/// anywhere.
pub open spec fn assign_in<V>(scopes: Seq<Map<Seq<char>, V>>, name: Seq<char>, v: V) -> Seq<Map<Seq<char>, V>> {
    match binding_scope(scopes, name) {
        Some(k) => scopes.update(k, scopes[k].insert(name, v)),
        None => scopes,
    }
}

proof fn lemma_scope_map_no_later<V>(s: Seq<(String, V)>, i: int, name: Seq<char>)
    requires
        0 <= i <= s.len(),
        forall|k: int| i <= k < s.len() ==> (#[trigger] s[k]).0@ != name,
    ensures
        scope_map(s).contains_key(name) == scope_map(s.take(i)).contains_key(name),
        scope_map(s).contains_key(name) ==> scope_map(s)[name] == scope_map(s.take(i))[name],
    decreases s.len() - i,
{
    if i < s.len() {
        lemma_scope_map_no_later(s, i + 1, name);
        assert(s.take(i + 1).drop_last() =~= s.take(i));
        assert(s.take(i + 1).last() == s[i]);
    } else {
        assert(s.take(i) =~= s);
    }
}

// ---------------------------------------------------------------------------
// Laws

/// A name just defined is found, bound to its value.
pub proof fn lemma_define_then_lookup<V>(scopes: Seq<Map<Seq<char>, V>>, name: Seq<char>, v: V)
    requires
        scopes.len() > 0,
    ensures
        lookup_in(define_in(scopes, name, v), name) == Some(v),
{
}

/// Defining a name leaves the lookup of every other name as it was.
pub proof fn lemma_define_keeps_others<V>(
    scopes: Seq<Map<Seq<char>, V>>,
    name: Seq<char>,
    v: V,
    other: Seq<char>,
)
    requires
        scopes.len() > 0,
        other != name,
    ensures
        lookup_in(define_in(scopes, name, v), other) == lookup_in(scopes, other),
{
    let d = define_in(scopes, name, v);
    assert(d.drop_last() =~= scopes.drop_last());
}

/// Opening a scope hides nothing: every lookup is as before.
pub proof fn lemma_push_keeps_lookup<V>(scopes: Seq<Map<Seq<char>, V>>, name: Seq<char>)
    ensures
        lookup_in(scopes.push(Map::empty()), name) == lookup_in(scopes, name),
{
    assert(scopes.push(Map::empty()).drop_last() =~= scopes);
}

/// Closing a scope just opened gives the scopes back: a binding made inside
/// it, shadowing or not, is gone, and the outer one is seen again.
pub proof fn lemma_push_define_pop<V>(scopes: Seq<Map<Seq<char>, V>>, name: Seq<char>, v: V)
    ensures
        define_in(scopes.push(Map::empty()), name, v).drop_last() == scopes,
{
    assert(define_in(scopes.push(Map::empty()), name, v).drop_last() =~= scopes);
}

/// After an assignment to a bound name, the name is found with the new value.
pub proof fn lemma_assign_then_lookup<V>(scopes: Seq<Map<Seq<char>, V>>, name: Seq<char>, v: V)
    requires
        binding_scope(scopes, name) is Some,
    ensures
        lookup_in(assign_in(scopes, name, v), name) == Some(v),
    decreases scopes.len(),
{
    if !scopes.last().contains_key(name) {
        let a = assign_in(scopes, name, v);
        lemma_assign_then_lookup(scopes.drop_last(), name, v);
        lemma_binding_scope_bounds(scopes.drop_last(), name);
        assert(a.drop_last() =~= assign_in(scopes.drop_last(), name, v));
    }
}

/// An assignment leaves the lookup of every other name as it was.
pub proof fn lemma_assign_keeps_others<V>(
    scopes: Seq<Map<Seq<char>, V>>,
    name: Seq<char>,
    v: V,
    other: Seq<char>,
)
    requires
        other != name,
    ensures
        lookup_in(assign_in(scopes, name, v), other) == lookup_in(scopes, other),
    decreases scopes.len(),
{
    if scopes.len() > 0 {
        let a = assign_in(scopes, name, v);
        lemma_binding_scope_bounds(scopes, name);
        if !scopes.last().contains_key(name) {
            lemma_assign_keeps_others(scopes.drop_last(), name, v, other);
            lemma_binding_scope_bounds(scopes.drop_last(), name);
            assert(a.drop_last() =~= assign_in(scopes.drop_last(), name, v));
        } else {
            assert(a.drop_last() =~= scopes.drop_last());
        }
    }
}

/// The innermost scope binding a name is one of the scopes, binds it, and
/// the name is found there.
pub proof fn lemma_binding_scope_bounds<V>(scopes: Seq<Map<Seq<char>, V>>, name: Seq<char>)
    ensures
        binding_scope(scopes, name) matches Some(k) ==> 0 <= k < scopes.len()
            && scopes[k].contains_key(name) && lookup_in(scopes, name) == Some(scopes[k][name]),
        binding_scope(scopes, name) is None <==> lookup_in(scopes, name) is None,
    decreases scopes.len(),
{
    if scopes.len() > 0 && !scopes.last().contains_key(name) {
        let d = scopes.drop_last();
        lemma_binding_scope_bounds(d, name);
        if let Some(k) = binding_scope(d, name) {
            assert(scopes[k] == d[k]);
        }
    }
}

// ---------------------------------------------------------------------------
// The structure

/// The index of the last entry of `s` named `name`.
fn find_entry<V>(s: &Vec<(String, V)>, name: &str) -> (r: Option<usize>)
    ensures
        match r {
            Some(i) => i < s@.len() && scope_map(s@).contains_key(name@) && scope_map(s@)[name@]
                == s@[i as int].1,
            None => !scope_map(s@).contains_key(name@),
        },
{
    let mut i = s.len();
    while i > 0
        invariant
            i <= s@.len(),
            forall|k: int| i <= k < s@.len() ==> (#[trigger] s@[k]).0@ != name@,
        decreases i,
    {
        if str_eq(s[i - 1].0.as_str(), name) {
            proof {
                lemma_scope_map_no_later(s@, i as int, name@);
                assert(s@.take(i as int).drop_last() =~= s@.take(i - 1));
                assert(s@.take(i as int).last() == s@[i - 1]);
            }
            return Some(i - 1);
        }
        i = i - 1;
    }
    proof {
        lemma_scope_map_no_later(s@, 0, name@);
        assert(s@.take(0).len() == 0);
    }
    None
}

/// Scopes of bindings from names to `V`, innermost last.
pub struct Scopes<V> {
    scopes: Vec<Vec<(String, V)>>,
}

spec fn scopes_view<V>(s: Seq<Vec<(String, V)>>) -> Seq<Map<Seq<char>, V>> {
    s.map_values(|sc: Vec<(String, V)>| scope_map(sc@))
}

impl<V> View for Scopes<V> {
    type V = Seq<Map<Seq<char>, V>>;

    closed spec fn view(&self) -> Seq<Map<Seq<char>, V>> {
        scopes_view(self.scopes@)
    }
}

impl<V> Scopes<V> {
    /// No scope at all.
    pub fn new() -> (s: Self)
        ensures
            s@ == Seq::<Map<Seq<char>, V>>::empty(),
    {
        let s = Scopes { scopes: Vec::new() };
        assert(s@ =~= Seq::<Map<Seq<char>, V>>::empty());
        s
    }

    /// The number of open scopes.
    pub fn depth(&self) -> (n: usize)
        ensures
            n == self@.len(),
    {
        self.scopes.len()
    }

    /// Open an empty innermost scope.
    pub fn push(&mut self)
        ensures
            final(self)@ == old(self)@.push(Map::empty()),
    {
        let v: Vec<(String, V)> = Vec::new();
        self.scopes.push(v);
        assert(scope_map(v@) =~= Map::<Seq<char>, V>::empty());
        assert(self@ =~= old(self)@.push(Map::empty()));
    }

    /// Close the innermost scope, if there is one.
    pub fn pop(&mut self)
        ensures
            final(self)@ == (if old(self)@.len() == 0 {
                old(self)@
            } else {
                old(self)@.drop_last()
            }),
    {
        self.scopes.pop();
        assert(old(self)@.len() > 0 ==> self@ =~= old(self)@.drop_last());
    }

    /// Bind `name` to `v` in the innermost scope, replacing a binding of the
    /// same name there.
    pub fn define(&mut self, name: &str, v: V)
        requires
            old(self)@.len() > 0,
        ensures
            final(self)@ == define_in(old(self)@, name@, v),
    {
        let mut last = self.scopes.pop().unwrap();
        let ghost before = last@;
        last.push((String::from_str(name), v));
        assert(last@.drop_last() =~= before);
        self.scopes.push(last);
        assert(self@ =~= define_in(old(self)@, name@, v));
    }

    /// The innermost binding of `name`.
    pub fn lookup(&self, name: &str) -> (r: Option<&V>)
        ensures
            match lookup_in(self@, name@) {
                Some(v) => r matches Some(x) && *x == v,
                None => r is None,
            },
    {
        let mut j = self.scopes.len();
        proof {
            assert(self@.take(j as int) =~= self@);
        }
        while j > 0
            invariant
                j <= self.scopes@.len(),
                self@.len() == self.scopes@.len(),
                lookup_in(self@, name@) == lookup_in(self@.take(j as int), name@),
            decreases j,
        {
            let sc = &self.scopes[j - 1];
            proof {
                assert(self@.take(j as int).last() == scope_map(sc@));
                assert(self@.take(j as int).drop_last() =~= self@.take(j - 1));
            }
            match find_entry(sc, name) {
                Some(i) => {
                    return Some(&sc[i].1);
                },
                None => {},
            }
            j = j - 1;
        }
        None
    }

    /// Rebind `name` to `v` in the innermost scope that binds it; whether
    /// there was one.
    pub fn assign(&mut self, name: &str, v: V) -> (found: bool)
        ensures
            found == binding_scope(old(self)@, name@) is Some,
            final(self)@ == assign_in(old(self)@, name@, v),
    {
        let mut j = self.scopes.len();
        proof {
            assert(self@.take(j as int) =~= self@);
        }
        while j > 0
            invariant
                j <= self.scopes@.len(),
                self@.len() == self.scopes@.len(),
                self@ == old(self)@,
                binding_scope(self@, name@) == binding_scope(self@.take(j as int), name@),
            decreases j,
        {
            let found_here = find_entry(&self.scopes[j - 1], name).is_some();
            proof {
                assert(self@.take(j as int).last() == scope_map(self.scopes@[j - 1]@));
                assert(self@.take(j as int).drop_last() =~= self@.take(j - 1));
                lemma_binding_scope_bounds(self@.take(j - 1), name@);
            }
            if found_here {
                let ghost k = j - 1;
                let ghost old_view = self@;
                let mut sc = self.scopes.remove(j - 1);
                let ghost before = sc@;
                sc.push((String::from_str(name), v));
                assert(sc@.drop_last() =~= before);
                self.scopes.insert(j - 1, sc);
                assert(self@ =~= old_view.update(k, old_view[k].insert(name@, v)));
                return true;
            }
            j = j - 1;
        }
        false
    }
}

} // verus!
