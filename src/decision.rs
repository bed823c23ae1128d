//! The decision cache: one compiled, shared model per principal, filled on
//! first use and kept for the lifetime of the cache.
//!
//! The steps that touch the outside world (taking the locks, loading a model)
//! belong to the caller: a decision first asks [`DecisionCache::decide_cached`];
//! on a miss the caller loads the model without holding any lock, and hands the
//! outcome to [`DecisionCache::decide_loaded`] under the write lock.
use vstd::prelude::*;

use std::sync::Arc;

use crate::acm::{decision, Acm};
use crate::error::{PdpError, PipError};
use crate::order::compare_keys;
use crate::pattern::{match_key, Segments};

verus! {

/// What the decisions of a model depend on: its allow rules and its deny
/// rules.
pub type AcmModel = (Set<Segments>, Set<Segments>);

/// The model of `acm`.
pub open spec fn model_of(acm: Acm) -> AcmModel {
    (acm.allow_rules(), acm.deny_rules())
}

/// Whether a model with rules `m` grants `action` on `resource`.
pub open spec fn model_permits(m: AcmModel, action: Seq<char>, resource: Seq<char>) -> bool {
    decision(m.0, m.1, match_key(action, resource))
}

/// The decision the cache `cache` gives without loading anything: the one of
/// the principal's cached model, or `None` when there is none.
pub open spec fn cached_decision(
    cache: Map<Seq<char>, AcmModel>,
    principal: Seq<char>,
    action: Seq<char>,
    resource: Seq<char>,
) -> Option<bool> {
    if cache.contains_key(principal) {
        Some(model_permits(cache[principal], action, resource))
    } else {
        None
    }
}

/// Models by principal identifier, as a vector of pairs whose identifiers are
/// distinct (the type invariant); its view is the map from identifier to
/// model. A vector keeps the lookups provable: vstd's `HashMap` specification
/// says nothing useful for `String` keys.
pub struct DecisionCache {
    entries: Vec<(String, Arc<Acm>)>,
}

impl View for DecisionCache {
    type V = Map<Seq<char>, AcmModel>;

    closed spec fn view(&self) -> Map<Seq<char>, AcmModel> {
        Map::new(
            |k: Seq<char>| exists|i: int| 0 <= i < self.entries@.len() && #[trigger] self.entries@[i].0@ == k,
            |k: Seq<char>|
                {
                    let i = choose|i: int|
                        0 <= i < self.entries@.len() && #[trigger] self.entries@[i].0@ == k;
                    model_of(*self.entries@[i].1)
                },
        )
    }
}

/// No two entries are for the same principal.
spec fn distinct_principals(entries: Seq<(String, Arc<Acm>)>) -> bool {
    forall|i: int, j: int|
        0 <= i < entries.len() && 0 <= j < entries.len() && i != j ==> #[trigger] entries[i].0@
            != #[trigger] entries[j].0@
}

/// Relies on `Arc::clone`: another handle to the same model.
#[verifier::external_body]
fn share(acm: &Arc<Acm>) -> (r: Arc<Acm>)
    ensures
        *r == **acm,
{
    Arc::clone(acm)
}

impl DecisionCache {
    #[verifier::type_invariant]
    spec fn inv(self) -> bool {
        distinct_principals(self.entries@)
    }

    /// The entry of `entries` for `k`, when there is one, is the one at `i`.
    proof fn lemma_entry(entries: Seq<(String, Arc<Acm>)>, i: int)
        requires
            distinct_principals(entries),
            0 <= i < entries.len(),
        ensures
            forall|j: int| 0 <= j < entries.len() && #[trigger] entries[j].0@ == entries[i].0@ ==> j == i,
    {
    }

    /// An empty cache.
    pub fn new() -> (r: DecisionCache)
        ensures
            r@ == Map::<Seq<char>, AcmModel>::empty(),
    {
        let r = DecisionCache { entries: Vec::new() };
        assert(r@ =~= Map::<Seq<char>, AcmModel>::empty());
        r
    }

    /// The index of the entry for `principal`, if any.
    fn find(&self, principal: &str) -> (r: Option<usize>)
        ensures
            r matches Some(i) ==> i < self.entries@.len() && self.entries@[i as int].0@ == principal@,
            r is None ==> forall|i: int| 0 <= i < self.entries@.len() ==> #[trigger] self.entries@[i].0@ != principal@,
    {
        let mut i: usize = 0;
        while i < self.entries.len()
            invariant
                i <= self.entries@.len(),
                forall|k: int| 0 <= k < i ==> #[trigger] self.entries@[k].0@ != principal@,
            decreases self.entries@.len() - i,
        {
            match compare_keys(self.entries[i].0.as_str(), principal) {
                core::cmp::Ordering::Equal => {
                    return Some(i);
                },
                _ => {},
            }
            i = i + 1;
        }
        None
    }

    /// The model cached for `principal`, shared.
    pub fn get(&self, principal: &str) -> (r: Option<Arc<Acm>>)
        ensures
            r is Some <==> self@.contains_key(principal@),
            r matches Some(acm) ==> model_of(*acm) == self@[principal@],
    {
        proof {
            use_type_invariant(self);
        }
        match self.find(principal) {
            Some(i) => {
                proof {
                    Self::lemma_entry(self.entries@, i as int);
                    assert(self@.contains_key(principal@));
                }
                Some(share(&self.entries[i].1))
            },
            None => None,
        }
    }

    /// The decision for `principal` from its cached model, or `None` when no
    /// model is cached for it.
    pub fn decide_cached(&self, principal: &str, action: &str, resource_path: &str) -> (r: Option<
        bool,
    >)
        ensures
            r == cached_decision(self@, principal@, action@, resource_path@),
    {
        proof {
            use_type_invariant(self);
        }
        match self.find(principal) {
            Some(i) => {
                proof {
                    Self::lemma_entry(self.entries@, i as int);
                    assert(self@.contains_key(principal@));
                }
                Some(self.entries[i].1.enforce(action, resource_path))
            },
            None => None,
        }
    }

    /// Caches `acm` for `principal`, in place of any model cached for it.
    pub fn insert(&mut self, principal: &str, acm: Arc<Acm>)
        ensures
            final(self)@ == old(self)@.insert(principal@, model_of(*acm)),
    {
        proof {
            use_type_invariant(&*self);
        }
        let ghost before = self.entries@;
        let found = self.find(principal);
        let mut entries: Vec<(String, Arc<Acm>)> = Vec::new();
        core::mem::swap(&mut self.entries, &mut entries);
        let ghost key = principal@;
        match found {
            Some(i) => {
                let name = principal.to_owned();
                entries.set(i, (name, acm));
            },
            None => {
                let name = principal.to_owned();
                entries.push((name, acm));
            },
        }
        proof {
            assert(distinct_principals(entries@)) by {
                assert forall|a: int, b: int|
                    0 <= a < entries@.len() && 0 <= b < entries@.len() && a != b implies #[trigger] entries@[a].0@
                        != #[trigger] entries@[b].0@ by {
                    if a < before.len() && b < before.len() {
                        if !(found matches Some(i) && (a == i || b == i)) {
                            assert(entries@[a] == before[a]);
                            assert(entries@[b] == before[b]);
                        }
                    }
                }
            }
        }
        self.entries = entries;
        proof {
            let new_map = self@;
            let old_map = Map::new(
                |k: Seq<char>| exists|i: int| 0 <= i < before.len() && #[trigger] before[i].0@ == k,
                |k: Seq<char>|
                    {
                        let i = choose|i: int| 0 <= i < before.len() && #[trigger] before[i].0@ == k;
                        model_of(*before[i].1)
                    },
            );
            assert forall|k: Seq<char>| #[trigger] new_map.contains_key(k) <==> old_map.insert(key, model_of(*acm)).contains_key(k) by {
                if old_map.contains_key(k) {
                    let i = choose|i: int| 0 <= i < before.len() && #[trigger] before[i].0@ == k;
                    if k != key {
                        assert(self.entries@[i] == before[i]);
                    }
                }
                if new_map.contains_key(k) && k != key {
                    let i = choose|i: int| 0 <= i < self.entries@.len() && #[trigger] self.entries@[i].0@ == k;
                    assert(self.entries@[i] == before[i]);
                }
                if k == key {
                    match found {
                        Some(i) => assert(self.entries@[i as int].0@ == k),
                        None => assert(self.entries@[before.len() as int].0@ == k),
                    }
                }
            }
            assert forall|k: Seq<char>| #[trigger] new_map.contains_key(k) implies new_map[k] == old_map.insert(
                key,
                model_of(*acm),
            )[k] by {
                let i = choose|i: int| 0 <= i < self.entries@.len() && #[trigger] self.entries@[i].0@ == k;
                Self::lemma_entry(self.entries@, i);
                if k != key {
                    assert(self.entries@[i] == before[i]);
                    let j = choose|j: int| 0 <= j < before.len() && #[trigger] before[j].0@ == k;
                    Self::lemma_entry(before, j);
                    assert(self.entries@[j] == before[j]);
                } else {
                    match found {
                        Some(f) => assert(self.entries@[f as int].0@ == k),
                        None => assert(self.entries@[before.len() as int].0@ == k),
                    }
                }
            }
            assert(new_map =~= old_map.insert(key, model_of(*acm)));
        }
    }

    /// Completes a decision for `principal` after a miss, with the outcome of
    /// loading its model: a loaded model is cached and decides; a failed load
    /// leaves the cache as it was, so that a later decision loads again.
    pub fn decide_loaded(
        &mut self,
        principal: &str,
        loaded: Result<Acm, PipError>,
        action: &str,
        resource_path: &str,
    ) -> (r: Result<bool, PdpError>)
        ensures
            match loaded {
                Ok(acm) => final(self)@ == old(self)@.insert(principal@, model_of(acm)) && r == Ok::<
                    bool,
                    PdpError,
                >(acm.permits(action@, resource_path@)),
                Err(e) => final(self)@ == old(self)@ && r == Err::<bool, PdpError>(PdpError::Pip(e)),
            },
    {
        match loaded {
            Ok(acm) => {
                let granted = acm.enforce(action, resource_path);
                self.insert(principal, Arc::new(acm));
                Ok(granted)
            },
            Err(e) => Err(PdpError::Pip(e)),
        }
    }
}

} // verus!
