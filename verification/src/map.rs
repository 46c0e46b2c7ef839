//! Total and partial overlay maps: a finite mapping simulated by a chain of
//! overrides over a default value, looked up by walking the chain from the
//! most recent override down.

use vstd::prelude::*;

use std::rc::Rc;

verus! {

/// A total map from `K` to `V`: a default value overlaid by a chain of
/// single-key updates. Every key has a value. Earlier maps are shared through
/// `Rc` by the maps updated from them.
pub enum TotalMap<K, V> {
    /// Maps every key to the default value.
    Empty(V),
    /// The inner map, with one key bound to a new value.
    Update(Rc<TotalMap<K, V>>, K, V),
}

/// A map in which a key may be unbound: a total map into `Option`.
pub type PartialMap<K, V> = TotalMap<K, Option<V>>;

impl<K, V> TotalMap<K, V> {
    /// The value the map holds for `k`: the value of the most recent update
    /// whose key equals `k`, or the default value if there is none.
    pub open spec fn spec_get(self, k: K) -> V
        decreases self,
    {
        match self {
            TotalMap::Empty(d) => d,
            TotalMap::Update(rest, k2, v) => if k == k2 {
                v
            } else {
                (*rest).spec_get(k)
            },
        }
    }
}

/// The empty total map: every key yields `default_v`.
pub fn tm_empty<K: PartialEq, V: Clone>(default_v: V) -> (r: TotalMap<K, V>)
    ensures
        forall|k: K| #[trigger] r.spec_get(k) == default_v,
{
    TotalMap::Empty(default_v)
}

/// `m` with `k` bound to `v`; other keys keep their value in `m`.
pub fn tm_update<K: PartialEq, V: Clone>(m: TotalMap<K, V>, k: K, v: V) -> (r: TotalMap<K, V>)
    ensures
        forall|k2: K| #[trigger] r.spec_get(k2) == if k2 == k {
            v
        } else {
            m.spec_get(k2)
        },
{
    TotalMap::Update(Rc::new(m), k, v)
}

/// Looks `k` up in `m`, cloning the value found.
///
/// The result is pinned down when `K`'s equality agrees with logical
/// equality (`obeys_concrete_eq`), as it does for the integer types; the
/// clone of the found value is exact whenever `V`'s `clone` is.
pub fn tm_get<K: PartialEq, V: Clone>(m: &TotalMap<K, V>, k: K) -> (r: V)
    ensures
        vstd::laws_eq::obeys_concrete_eq::<K>() ==> vstd::pervasive::cloned::<V>(
            m.spec_get(k),
            r,
        ),
    decreases *m,
{
    proof {
        reveal(vstd::laws_eq::obeys_concrete_eq);
    }
    match m {
        TotalMap::Empty(d) => d.clone(),
        TotalMap::Update(rest, k2, v) => if k == *k2 {
            v.clone()
        } else {
            tm_get(&**rest, k)
        },
    }
}

/// The empty partial map: no key is bound.
pub fn pm_empty<K: PartialEq, V: Clone>() -> (r: PartialMap<K, V>)
    ensures
        forall|k: K| #[trigger] r.spec_get(k) == None::<V>,
{
    tm_empty(None)
}

/// `m` with `k` bound to `v`; other keys keep their binding in `m`.
pub fn pm_update<K: PartialEq, V: Clone>(m: PartialMap<K, V>, k: K, v: V) -> (r: PartialMap<K, V>)
    ensures
        forall|k2: K| #[trigger] r.spec_get(k2) == if k2 == k {
            Some(v)
        } else {
            m.spec_get(k2)
        },
{
    tm_update(m, k, Some(v))
}

} // verus!
