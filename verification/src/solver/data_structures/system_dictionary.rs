use std::collections::HashMap;
use vstd::prelude::*;

use crate::game_elements::glass::Glass;
use crate::game_elements::glass_system::{fingerprint, lemma_fingerprint_reordered, same_system, GlassSystem};
use crate::solver::SystemId;

verus! {

broadcast use vstd::std_specs::hash::group_hash_axioms;

/// Maps between systems and their IDs. Used to avoid too much cloning of entire states, as well as
/// checking if a given system is already found or not.
pub struct SystemDictionary {
    /// Id -> System
    systems: Vec<GlassSystem>,
    /// Fingerprint -> the ids of the systems with that fingerprint, in increasing order.
    index: HashMap<u64, Vec<SystemId>>,
}

impl View for SystemDictionary {
    type V = Seq<Seq<Glass>>;

    /// The registered systems, indexed by their id.
    closed spec fn view(&self) -> Seq<Seq<Glass>> {
        self.systems@.map_values(|s: GlassSystem| s@)
    }
}

/// What registering gives back: the system registered last is the one under its id, and
/// looking it up finds that id.
pub proof fn lemma_register_then_find(dict: Seq<Seq<Glass>>, sys: Seq<Glass>)
    ensures
        dict.push(sys)[dict.len() as int] == sys,
        registered(dict.push(sys), sys),
        found_id(dict.push(sys), sys, dict.len() as int),
{
    assert(same_system(dict.push(sys)[dict.len() as int], sys));
}

impl SystemDictionary {
    /// Every registered system is listed under its fingerprint, and only there.
    #[verifier::type_invariant]
    spec fn indexed(self) -> bool {
        &&& self.systems@.len() <= u32::MAX
        &&& forall|f: u64| #[trigger] self.index@.contains_key(f) ==> {
            let b = self.index@[f]@;
            &&& forall|t: int| 0 <= t < b.len() ==> (#[trigger] b[t]) < self.systems@.len() && fingerprint(self.systems@[b[t] as int]@) == f
            &&& forall|t: int, u: int| 0 <= t < u < b.len() ==> (#[trigger] b[t]) < (#[trigger] b[u])
        }
        &&& forall|id: int| 0 <= id < self.systems@.len() ==> {
            let f = fingerprint((#[trigger] self.systems@[id])@);
            &&& self.index@.contains_key(f)
            &&& self.index@[f]@.contains(id as SystemId)
        }
    }
}

/// The id under which `dict` finds a system: the latest registered system that is the same.
pub open spec fn found_id(dict: Seq<Seq<Glass>>, sys: Seq<Glass>, id: int) -> bool {
    &&& 0 <= id < dict.len()
    &&& same_system(dict[id], sys)
    &&& forall|j: int| id < j < dict.len() ==> !same_system(#[trigger] dict[j], sys)
}

/// Some registered system is the same as `sys`.
pub open spec fn registered(dict: Seq<Seq<Glass>>, sys: Seq<Glass>) -> bool {
    exists|j: int| 0 <= j < dict.len() && same_system(#[trigger] dict[j], sys)
}

impl SystemDictionary {
    pub fn new() -> (d: Self)
        ensures
            d@ == Seq::<Seq<Glass>>::empty(),
    {
        let d = SystemDictionary { systems: Vec::new(), index: HashMap::new() };
        assert(d@ =~= Seq::<Seq<Glass>>::empty());
        d
    }

    /// Registers a system under the next free id and returns that id.
    pub fn add_system(&mut self, system: GlassSystem) -> (id: SystemId)
        requires
            old(self)@.len() < u32::MAX,
        ensures
            id == old(self)@.len(),
            final(self)@ == old(self)@.push(system@),
    {
        let ghost s = system@;
        let ghost before = self@;
        let mut taken = SystemDictionary::new();
        std::mem::swap(self, &mut taken);
        proof {
            use_type_invariant(&taken);
        }
        let SystemDictionary { mut systems, mut index } = taken;
        let ghost sys0 = systems@;
        let ghost idx0 = index@;
        let f = system.fingerprint();
        let id = systems.len() as SystemId;
        let mut bucket = match index.remove(&f) {
            Some(b) => b,
            None => Vec::new(),
        };
        let ghost b0 = bucket@;
        bucket.push(id);
        index.insert(f, bucket);
        systems.push(system);
        proof {
            assert(idx0.contains_key(f) ==> b0 == idx0[f]@);
            assert(!idx0.contains_key(f) ==> b0.len() == 0);
            assert forall|g: u64| #[trigger] index@.contains_key(g) implies {
                let b = index@[g]@;
                &&& forall|t: int| 0 <= t < b.len() ==> (#[trigger] b[t]) < systems@.len() && fingerprint(systems@[b[t] as int]@) == g
                &&& forall|t: int, u: int| 0 <= t < u < b.len() ==> (#[trigger] b[t]) < (#[trigger] b[u])
            } by {
                if g != f {
                    assert(index@[g] == idx0[g]);
                    let b = index@[g]@;
                    assert forall|t: int| 0 <= t < b.len() implies (#[trigger] b[t]) < systems@.len() && fingerprint(systems@[b[t] as int]@) == g by {
                        assert(systems@[b[t] as int] == sys0[b[t] as int]);
                    }
                } else {
                    let b = index@[g]@;
                    assert(b == b0.push(id));
                    assert forall|t: int| 0 <= t < b.len() implies (#[trigger] b[t]) < systems@.len() && fingerprint(systems@[b[t] as int]@) == g by {
                        if t < b0.len() {
                            assert(b[t] == b0[t]);
                            assert(systems@[b[t] as int] == sys0[b[t] as int]);
                        }
                    }
                }
            }
            assert forall|i: int| 0 <= i < systems@.len() implies {
                let g = fingerprint((#[trigger] systems@[i])@);
                &&& index@.contains_key(g)
                &&& index@[g]@.contains(i as SystemId)
            } by {
                let g = fingerprint(systems@[i]@);
                if i < sys0.len() {
                    assert(systems@[i] == sys0[i]);
                    assert(idx0.contains_key(g));
                    let t = choose|t: int| 0 <= t < idx0[g]@.len() && idx0[g]@[t] == i as SystemId;
                    if g == f {
                        assert(index@[g]@[t] == i as SystemId);
                    } else {
                        assert(index@[g] == idx0[g]);
                    }
                } else {
                    assert(g == f);
                    assert(index@[g]@[b0.len() as int] == i as SystemId);
                }
            }
        }
        *self = SystemDictionary { systems, index };
        assert(self@ =~= before.push(s));
        id
    }

    /// The system registered under `id`.
    pub fn get_system(&self, id: &SystemId) -> (r: Option<&GlassSystem>)
        ensures
            r is Some <==> *id < self@.len(),
            r matches Some(s) ==> s@ == self@[*id as int],
    {
        let i = *id as usize;
        if i < self.systems.len() {
            Some(&self.systems[i])
        } else {
            None
        }
    }

    /// The id of the latest registered system that is the same as `system`.
    pub fn get_id(&self, system: &GlassSystem) -> (r: Option<&SystemId>)
        ensures
            r is None <==> !registered(self@, system@),
            r matches Some(id) ==> found_id(self@, system@, *id as int),
    {
        proof {
            use_type_invariant(self);
        }
        let f = system.fingerprint();
        let bucket = match self.index.get(&f) {
            Some(b) => b,
            None => {
                proof {
                    assert forall|j: int| 0 <= j < self@.len() implies !same_system(#[trigger] self@[j], system@) by {
                        if same_system(self@[j], system@) {
                            lemma_fingerprint_reordered(self@[j], system@);
                            assert(self.systems@[j]@ == self@[j]);
                        }
                    }
                }
                return None;
            },
        };
        let ghost b = bucket@;
        let mut t = bucket.len();
        while t > 0
            invariant
                t <= b.len(),
                bucket@ == b,
                self.index@.contains_key(f),
                b == self.index@[f]@,
                f == fingerprint(system@),
                forall|u: int| t <= u < b.len() ==> !same_system(#[trigger] self@[b[u] as int], system@),
                forall|u: int| 0 <= u < b.len() ==> (#[trigger] b[u]) < self.systems@.len() && fingerprint(self.systems@[b[u] as int]@) == f,
                forall|u: int, v: int| 0 <= u < v < b.len() ==> (#[trigger] b[u]) < (#[trigger] b[v]),
                self.systems@.len() <= u32::MAX,
                forall|id: int| 0 <= id < self.systems@.len() ==> {
                    let g = fingerprint((#[trigger] self.systems@[id])@);
                    &&& self.index@.contains_key(g)
                    &&& self.index@[g]@.contains(id as SystemId)
                },
            decreases t,
        {
            t = t - 1;
            let id = bucket[t];
            if self.systems[id as usize] == *system {
                proof {
                    assert(self@[id as int] == self.systems@[id as int]@);
                    assert forall|j: int| id < j < self@.len() implies !same_system(#[trigger] self@[j], system@) by {
                        if same_system(self@[j], system@) {
                            lemma_fingerprint_reordered(self@[j], system@);
                            assert(self.systems@[j]@ == self@[j]);
                            let g = fingerprint(self.systems@[j]@);
                            assert(self.index@[g]@.contains(j as SystemId));
                            let u = choose|u: int| 0 <= u < b.len() && b[u] == j as SystemId;
                            assert(b[u] as int == j);
                            if u > t {
                                assert(!same_system(self@[b[u] as int], system@));
                            } else if u < t {
                                assert(b[u] < b[t as int]);
                            }
                        }
                    }
                }
                return Some(&bucket[t]);
            }
            proof {
                assert(self@[id as int] == self.systems@[id as int]@);
            }
        }
        proof {
            assert forall|j: int| 0 <= j < self@.len() implies !same_system(#[trigger] self@[j], system@) by {
                if same_system(self@[j], system@) {
                    lemma_fingerprint_reordered(self@[j], system@);
                    assert(self.systems@[j]@ == self@[j]);
                    let g = fingerprint(self.systems@[j]@);
                    assert(self.index@[g]@.contains(j as SystemId));
                    let u = choose|u: int| 0 <= u < b.len() && b[u] == j as SystemId;
                }
            }
        }
        None
    }

    /// Number of registered systems.
    pub fn len(&self) -> (r: usize)
        ensures
            r == self@.len(),
    {
        self.systems.len()
    }
}

impl Default for SystemDictionary {
    fn default() -> (d: Self)
        ensures
            d@ == Seq::<Seq<Glass>>::empty(),
    {
        Self::new()
    }
}

} // verus!
