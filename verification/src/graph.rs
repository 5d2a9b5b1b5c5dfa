//! The heap graph: objects by address, the root sets of the threads, and the mathematical
//! model that the contracts of this crate speak of.
use crate::hashing::{lemma_address_map_finite, lemma_address_set_finite};
use fnv::{FnvHashMap, FnvHashSet};
use vstd::prelude::*;

verus! {

/// One object of the snapshot.
///
/// An address in `referents` or in `inbound_references` need not be that of an object of
/// the snapshot.
pub struct HeapObject {
    /// The object's own size in bytes.
    pub size: u32,
    /// The addresses that the object refers to.
    pub referents: FnvHashSet<u64>,
    /// The addresses that refer to the object.
    pub inbound_references: FnvHashSet<u64>,
}

/// What a `HeapObject` stands for.
pub struct ObjectModel {
    pub size: nat,
    pub referents: Set<u64>,
    pub inbound_references: Set<u64>,
}

impl View for HeapObject {
    type V = ObjectModel;

    open spec fn view(&self) -> ObjectModel {
        ObjectModel {
            size: self.size as nat,
            referents: self.referents@,
            inbound_references: self.inbound_references@,
        }
    }
}

/// The addresses that one thread reaches directly, under the thread's name.
pub struct ThreadRootSet {
    pub name: String,
    pub roots: FnvHashSet<u64>,
}

/// The graph that a map of objects stands for: each address with the model of its object.
pub open spec fn heap_model(objects: Map<u64, HeapObject>) -> Map<u64, ObjectModel> {
    Map::new(|a: u64| objects.contains_key(a), |a: u64| objects[a]@)
}

/// The root sets that a list of threads stands for, in the order of the list.
pub open spec fn thread_model(threads: Seq<ThreadRootSet>) -> Seq<Set<u64>> {
    Seq::new(threads.len(), |i: int| threads[i].roots@)
}

/// The threads as pairs of a name and a root set.
pub open spec fn named_threads(threads: Seq<ThreadRootSet>) -> Seq<(Seq<char>, Set<u64>)> {
    Seq::new(threads.len(), |i: int| (threads[i].name@, threads[i].roots@))
}

/// No two threads have the same name.
pub open spec fn distinct_names(threads: Seq<(Seq<char>, Set<u64>)>) -> bool {
    forall|i: int, j: int| 0 <= i < j < threads.len() ==> threads[i].0 != threads[j].0
}

/// A graph of finitely many objects, each with finitely many references and a size of 32
/// bits. Every graph that is held in memory is of this kind.
pub open spec fn heap_wf(g: Map<u64, ObjectModel>) -> bool {
    &&& g.dom().finite()
    &&& forall|a: u64| #[trigger]
        g.contains_key(a) ==> g[a].referents.finite() && g[a].inbound_references.finite()
            && g[a].size <= u32::MAX
}

/// The number of references into `r` that the graph records: the size of the inbound set
/// of the object at `r`, and none where no object is at `r`.
pub open spec fn inbound_count(g: Map<u64, ObjectModel>, r: u64) -> int {
    if g.contains_key(r) {
        g[r].inbound_references.len() as int
    } else {
        0
    }
}

/// The addresses that the objects at `keys` refer to.
pub open spec fn referenced_by(g: Map<u64, ObjectModel>, keys: Set<u64>) -> Set<u64> {
    Set::new(
        |r: u64|
            exists|p: u64|
                keys.contains(p) && g.contains_key(p) && #[trigger] g[p].referents.contains(r),
    )
}

/// The graph of a map of objects that is held in memory is well formed.
pub proof fn lemma_heap_model_wf(objects: &FnvHashMap<u64, HeapObject>)
    ensures
        heap_wf(heap_model(objects@)),
{
    let g = heap_model(objects@);
    lemma_address_map_finite(objects);
    assert(g.dom() =~= objects@.dom());
    assert forall|a: u64| #[trigger] g.contains_key(a) implies g[a].referents.finite()
        && g[a].inbound_references.finite() && g[a].size <= u32::MAX by {
        lemma_address_set_finite(&objects@[a].referents);
        lemma_address_set_finite(&objects@[a].inbound_references);
    }
}

/// Finitely many objects refer to finitely many addresses.
pub proof fn lemma_referenced_finite(g: Map<u64, ObjectModel>, keys: Set<u64>)
    requires
        heap_wf(g),
        keys.finite(),
    ensures
        referenced_by(g, keys).finite(),
    decreases keys.len(),
{
    if keys.is_empty() {
        assert(referenced_by(g, keys) =~= Set::<u64>::empty());
    } else {
        let a = keys.choose();
        let rest = keys.remove(a);
        lemma_referenced_finite(g, rest);
        let own = if g.contains_key(a) {
            g[a].referents
        } else {
            Set::<u64>::empty()
        };
        assert(referenced_by(g, keys) =~= referenced_by(g, rest).union(own)) by {
            assert forall|r: u64| referenced_by(g, keys).contains(r) implies referenced_by(
                g,
                rest,
            ).union(own).contains(r) by {
                let p = choose|p: u64|
                    keys.contains(p) && g.contains_key(p) && #[trigger] g[p].referents.contains(r);
                if p != a {
                    assert(rest.contains(p));
                }
            }
            assert forall|r: u64| referenced_by(g, rest).union(own).contains(r) implies referenced_by(
                g,
                keys,
            ).contains(r) by {
                if own.contains(r) {
                    assert(keys.contains(a) && g[a].referents.contains(r));
                } else {
                    let p = choose|p: u64|
                        rest.contains(p) && g.contains_key(p) && #[trigger] g[p].referents.contains(
                            r,
                        );
                    assert(keys.contains(p));
                }
            }
        }
    }
}

} // verus!
