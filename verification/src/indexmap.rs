//! An open-addressing hash table over byte-string keys with a pluggable
//! probe sequence, load-factor-triggered rehash, a configurable growth
//! policy, and tombstone-marked removal.
//!
//! The table is specified against a mathematical model: a sequence of slot
//! models (vacant, a tombstone, or filled with the views of a key and a
//! value), whose abstraction to a `Map<Seq<u8>, (u32, Seq<u8>)>` is what
//! the public contracts speak of.

pub mod hash;

use vstd::prelude::*;

use crate::indexmap::hash::{fnv1, make_hash, IndexHasherBuilder};
use vstd::pervasive::VecAdditionalExecFns;

verus! {

/// A stored value: the memcached `flags` word and the payload bytes.
#[derive(Debug)]
pub struct IndexValue {
    pub flags: u32,
    pub data: Vec<u8>,
}

impl View for IndexValue {
    type V = (u32, Seq<u8>);

    open spec fn view(&self) -> (u32, Seq<u8>) {
        (self.flags, self.data@)
    }
}

impl IndexValue {
    /// A copy of the payload bytes.
    pub fn dup_data(&self) -> (r: Vec<u8>)
        ensures
            r@ == self.data@,
    {
        clone_bytes(&self.data)
    }
}

/// The probe sequence: which slot the `i`-th step of a walk examines.
#[derive(Clone, Copy, Debug, PartialEq, Eq)]
pub enum Probe {
    /// `hash + i + i*i`, the default.
    Quadratic,
    /// `hash + i`.
    Linear,
}

/// Table parameters. The maximum load factor and the growth factor are
/// rationals, kept as numerator/denominator pairs.
#[derive(Clone, Copy, Debug)]
pub struct Parameters {
    pub max_load_num: usize,
    pub max_load_den: usize,
    pub growth_num: usize,
    pub growth_den: usize,
    pub probe: Probe,
    pub hasher_builder: IndexHasherBuilder,
}

/// What a failed insert reports.
#[derive(Clone, Copy, Debug, PartialEq, Eq)]
pub enum IndexError {
    /// The grown capacity would not fit in `usize`.
    CapacityOverflow,
    /// A placement walk visited `capacity` slots without finding an
    /// unfilled one: the probe sequence did not cover enough of the
    /// table, a programming error in the chosen probe/capacity
    /// combination.
    ProbeExhausted,
}

/// `max_load` must lie strictly between 0 and 1; `growth` must be at
/// least 1.
pub open spec fn params_valid(p: Parameters) -> bool {
    &&& 0 < p.max_load_num < p.max_load_den
    &&& 1 <= p.growth_den <= p.growth_num
}

/// The offset that probe step `i` adds to the hash.
pub open spec fn probe_offset(p: Probe, i: int) -> int {
    match p {
        Probe::Quadratic => i + i * i,
        Probe::Linear => i,
    }
}

/// The slot index examined at step `i` of the walk for hash `h` in a table
/// of `cap` slots.
pub open spec fn probe_slot(p: Probe, h: u64, i: int, cap: int) -> int
    recommends
        cap >= 1,
{
    (h + probe_offset(p, i)) % cap
}

/// The model of one slot: vacant, filled with the views of a key and a
/// value, or a tombstone left by a removal. A tombstone keeps probe
/// chains intact (walks continue over it) but holds no entry.
pub enum SlotModel {
    Vacant,
    Filled { key: Seq<u8>, flags: u32, data: Seq<u8> },
    Tombstone,
}

/// Slot `j` of `t` is filled and holds key `k`.
pub open spec fn filled_at(t: Seq<SlotModel>, j: int, k: Seq<u8>) -> bool {
    0 <= j < t.len() && t[j] is Filled && t[j]->key == k
}

/// The value held by slot `j`.
pub open spec fn model_val(t: Seq<SlotModel>, j: int) -> (u32, Seq<u8>)
    recommends
        0 <= j < t.len() && t[j] is Filled,
{
    (t[j]->flags, t[j]->data)
}

/// The map a table represents: each filled slot contributes its key and
/// value.
pub open spec fn model_view(t: Seq<SlotModel>) -> Map<Seq<u8>, (u32, Seq<u8>)> {
    Map::new(
        |k: Seq<u8>| exists|j: int| filled_at(t, j, k),
        |k: Seq<u8>| model_val(t, choose|j: int| filled_at(t, j, k)),
    )
}

/// No two filled slots hold equal keys.
pub open spec fn model_unique(t: Seq<SlotModel>) -> bool {
    forall|j1: int, j2: int|
        #![trigger t[j1], t[j2]]
        0 <= j1 < t.len() && 0 <= j2 < t.len() && t[j1] is Filled && t[j2] is Filled
            && t[j1]->key == t[j2]->key ==> j1 == j2
}

/// The first `i` steps of the walk for key `k` land on no vacant slot:
/// a lookup that stops at the first vacancy walks at least this far.
pub open spec fn chain_to(t: Seq<SlotModel>, p: Probe, k: Seq<u8>, i: int) -> bool {
    forall|m: int|
        0 <= m < i ==> !(t[#[trigger] probe_slot(p, fnv1(k), m, t.len() as int)] is Vacant)
}

/// Slot `j` stands at step `i` of its own key's probe walk, with every
/// earlier step filled: a lookup that walks the probe sequence reaches it.
pub open spec fn reach_at(t: Seq<SlotModel>, p: Probe, j: int, i: int) -> bool {
    &&& 0 <= i < t.len()
    &&& probe_slot(p, fnv1(t[j]->key), i, t.len() as int) == j
    &&& chain_to(t, p, t[j]->key, i)
}

/// Every filled slot is reachable along its key's probe walk.
pub open spec fn model_chains(t: Seq<SlotModel>, p: Probe) -> bool {
    forall|j: int|
        0 <= j < t.len() && (#[trigger] t[j]) is Filled ==> exists|i: int| reach_at(t, p, j, i)
}

/// The number of filled slots among the first `n`.
pub open spec fn model_count(t: Seq<SlotModel>, n: int) -> int
    decreases n,
{
    if n <= 0 {
        0
    } else {
        model_count(t, n - 1) + if t[n - 1] is Filled {
            1int
        } else {
            0int
        }
    }
}

/// What one lookup walk for key `k` ends with.
pub enum ScanResult {
    /// Step `i` landed on a filled slot holding `k`.
    Found(int),
    /// Step `i` landed on a vacant slot; no earlier step was vacant or
    /// held `k`.
    Free(int),
    /// The walk took as many steps as the table has slots without
    /// meeting a vacant slot or `k`.
    Exhausted,
}

/// The lookup walk for key `k`, started at step `i`: stops at the first
/// vacant slot or the first slot holding `k`, continues over tombstones
/// and other keys, and gives up after the walk has taken as many steps
/// as the table has slots.
pub open spec fn scan(t: Seq<SlotModel>, p: Probe, k: Seq<u8>, i: int) -> ScanResult
    decreases t.len() - i,
{
    if i < 0 || i >= t.len() {
        ScanResult::Exhausted
    } else {
        let u = probe_slot(p, fnv1(k), i, t.len() as int);
        if t[u] is Vacant {
            ScanResult::Free(i)
        } else if t[u] is Filled && t[u]->key == k {
            ScanResult::Found(i)
        } else {
            scan(t, p, k, i + 1)
        }
    }
}

/// The placement walk for key `k`, started at step `i`: the first step
/// whose slot is not filled (vacant or a tombstone), if the walk reaches
/// one within as many steps as the table has slots.
pub open spec fn scan_free(t: Seq<SlotModel>, p: Probe, k: Seq<u8>, i: int) -> Option<int>
    decreases t.len() - i,
{
    if i < 0 || i >= t.len() {
        None
    } else {
        let u = probe_slot(p, fnv1(k), i, t.len() as int);
        if t[u] is Filled {
            scan_free(t, p, k, i + 1)
        } else {
            Some(i)
        }
    }
}

/// What the walk `scan(t, p, k, 0)` guarantees about the slots it visited:
/// a `Found` or `Free` step lands where it says, and every earlier step
/// landed on a slot filled with some other key.
proof fn lemma_scan_props(t: Seq<SlotModel>, p: Probe, k: Seq<u8>, i: int)
    requires
        0 <= i <= t.len(),
    ensures
        match scan(t, p, k, i) {
            ScanResult::Found(f) => {
                &&& i <= f < t.len()
                &&& t[probe_slot(p, fnv1(k), f, t.len() as int)] is Filled
                &&& t[probe_slot(p, fnv1(k), f, t.len() as int)]->key == k
                &&& forall|m: int|
                    i <= m < f ==> !(t[#[trigger] probe_slot(p, fnv1(k), m, t.len() as int)]
                        is Vacant) && (t[probe_slot(p, fnv1(k), m, t.len() as int)] is Filled
                        ==> t[probe_slot(p, fnv1(k), m, t.len() as int)]->key != k)
            },
            ScanResult::Free(f) => {
                &&& i <= f < t.len()
                &&& t[probe_slot(p, fnv1(k), f, t.len() as int)] is Vacant
                &&& forall|m: int|
                    i <= m < f ==> !(t[#[trigger] probe_slot(p, fnv1(k), m, t.len() as int)]
                        is Vacant) && (t[probe_slot(p, fnv1(k), m, t.len() as int)] is Filled
                        ==> t[probe_slot(p, fnv1(k), m, t.len() as int)]->key != k)
            },
            ScanResult::Exhausted => forall|m: int|
                i <= m < t.len() ==> !(t[#[trigger] probe_slot(p, fnv1(k), m, t.len() as int)]
                    is Vacant) && (t[probe_slot(p, fnv1(k), m, t.len() as int)] is Filled
                    ==> t[probe_slot(p, fnv1(k), m, t.len() as int)]->key != k),
        },
    decreases t.len() - i,
{
    if i < t.len() {
        let u = probe_slot(p, fnv1(k), i, t.len() as int);
        if t[u] is Vacant {
        } else if t[u] is Filled && t[u]->key == k {
        } else {
            lemma_scan_props(t, p, k, i + 1);
        }
    }
}

/// What the placement walk guarantees: a found step lands on an unfilled
/// slot, and every earlier step landed on a filled one.
proof fn lemma_scan_free_props(t: Seq<SlotModel>, p: Probe, k: Seq<u8>, i: int)
    requires
        0 <= i <= t.len(),
    ensures
        match scan_free(t, p, k, i) {
            Some(f) => {
                &&& i <= f < t.len()
                &&& !(t[probe_slot(p, fnv1(k), f, t.len() as int)] is Filled)
                &&& forall|m: int|
                    i <= m < f ==> t[#[trigger] probe_slot(p, fnv1(k), m, t.len() as int)]
                        is Filled
            },
            None => forall|m: int|
                i <= m < t.len() ==> t[#[trigger] probe_slot(p, fnv1(k), m, t.len() as int)]
                    is Filled,
        },
    decreases t.len() - i,
{
    if i < t.len() {
        let u = probe_slot(p, fnv1(k), i, t.len() as int);
        if t[u] is Filled {
            lemma_scan_free_props(t, p, k, i + 1);
        }
    }
}

/// With unique keys, the slot that holds `k` determines the map's value at
/// `k`.
proof fn lemma_filled_value(t: Seq<SlotModel>, j: int, k: Seq<u8>)
    requires
        model_unique(t),
        filled_at(t, j, k),
    ensures
        model_view(t).contains_key(k),
        model_view(t)[k] == model_val(t, j),
{
    let j2 = choose|j2: int| filled_at(t, j2, k);
    assert(filled_at(t, j2, k));
    assert(j2 == j);
}

/// A walk that ends `Found(f)` found the key: the map contains `k`, and
/// its value sits at the slot step `f` examined.
proof fn lemma_scan_found(t: Seq<SlotModel>, p: Probe, k: Seq<u8>, f: int)
    requires
        model_unique(t),
        scan(t, p, k, 0) == ScanResult::Found(f),
    ensures
        model_view(t).contains_key(k),
        model_view(t)[k] == model_val(t, probe_slot(p, fnv1(k), f, t.len() as int)),
        filled_at(t, probe_slot(p, fnv1(k), f, t.len() as int), k),
{
    lemma_scan_props(t, p, k, 0);
    let u = probe_slot(p, fnv1(k), f, t.len() as int);
    assert(filled_at(t, u, k));
    lemma_filled_value(t, u, k);
}

/// A walk that does not end `Found` proves the key absent: every filled
/// slot is reachable along its key's walk, and that walk was examined.
proof fn lemma_scan_absent(t: Seq<SlotModel>, p: Probe, k: Seq<u8>)
    requires
        model_chains(t, p),
        !(scan(t, p, k, 0) is Found),
    ensures
        !model_view(t).contains_key(k),
{
    if model_view(t).contains_key(k) {
        let j = choose|j: int| filled_at(t, j, k);
        assert(filled_at(t, j, k));
        let i = choose|i: int| reach_at(t, p, j, i);
        assert(reach_at(t, p, j, i));
        assert(t[j]->key == k);
        lemma_scan_props(t, p, k, 0);
        match scan(t, p, k, 0) {
            ScanResult::Found(_) => {}
            ScanResult::Free(f) => {
                if f < i {
                    assert(!(t[probe_slot(p, fnv1(k), f, t.len() as int)] is Vacant));
                } else if f > i {
                    assert(t[probe_slot(p, fnv1(k), i, t.len() as int)]->key != k);
                }
                assert(false);
            }
            ScanResult::Exhausted => {
                assert(t[probe_slot(p, fnv1(k), i, t.len() as int)]->key != k);
                assert(false);
            }
        }
    }
}

/// Two tables that agree on their first `n` slots count the same.
proof fn lemma_count_agree(t1: Seq<SlotModel>, t2: Seq<SlotModel>, n: int)
    requires
        forall|m: int| 0 <= m < n ==> ((#[trigger] t1[m]) is Filled <==> t2[m] is Filled),
    ensures
        model_count(t1, n) == model_count(t2, n),
    decreases n,
{
    if n > 0 {
        lemma_count_agree(t1, t2, n - 1);
    }
}

/// Updating one slot changes the count by the difference of the two
/// occupancies.
proof fn lemma_count_update(t: Seq<SlotModel>, j: int, sm: SlotModel, n: int)
    requires
        0 <= j < n,
        n <= t.len(),
    ensures
        model_count(t.update(j, sm), n) == model_count(t, n) - (if t[j] is Filled {
            1int
        } else {
            0int
        }) + (if sm is Filled {
            1int
        } else {
            0int
        }),
    decreases n,
{
    let t2 = t.update(j, sm);
    assert(model_count(t2, n) == model_count(t2, n - 1) + if t2[n - 1] is Filled {
        1int
    } else {
        0int
    });
    if j == n - 1 {
        lemma_count_agree(t, t2, n - 1);
        assert(t2[n - 1] == sm);
    } else {
        lemma_count_update(t, j, sm, n - 1);
        assert(t2[n - 1] == t[n - 1]);
    }
}

/// Placing a new key in the unfilled slot its placement walk ends at
/// keeps the table well-formed, inserts the pair into the map, and
/// raises the count by one.
proof fn lemma_place(t: Seq<SlotModel>, p: Probe, k: Seq<u8>, fl: u32, d: Seq<u8>, f: int)
    requires
        model_unique(t),
        model_chains(t, p),
        !model_view(t).contains_key(k),
        scan_free(t, p, k, 0) == Some(f),
    ensures
        ({
            let u = probe_slot(p, fnv1(k), f, t.len() as int);
            let t2 = t.update(u, SlotModel::Filled { key: k, flags: fl, data: d });
            &&& model_unique(t2)
            &&& model_chains(t2, p)
            &&& model_view(t2) == model_view(t).insert(k, (fl, d))
            &&& model_count(t2, t2.len() as int) == model_count(t, t.len() as int) + 1
        }),
{
    lemma_scan_free_props(t, p, k, 0);
    let u = probe_slot(p, fnv1(k), f, t.len() as int);
    let t2 = t.update(u, SlotModel::Filled { key: k, flags: fl, data: d });

    // No filled slot of t holds k: that would put k in the view.
    assert forall|j: int| 0 <= j < t.len() && t[j] is Filled implies t[j]->key != k by {
        if t[j]->key == k {
            assert(filled_at(t, j, k));
        }
    }

    // Unique keys.
    assert forall|j1: int, j2: int|
        #![trigger t2[j1], t2[j2]]
        0 <= j1 < t2.len() && 0 <= j2 < t2.len() && t2[j1] is Filled && t2[j2] is Filled
            && t2[j1]->key == t2[j2]->key implies j1 == j2 by {
        if j1 != u && j2 != u {
            assert(t2[j1] == t[j1] && t2[j2] == t[j2]);
        } else if j1 == u && j2 != u {
            assert(t[j2]->key != k);
        } else if j1 != u && j2 == u {
            assert(t[j1]->key != k);
        }
    }

    // Filling a slot makes no slot vacant.
    assert forall|x: int| 0 <= x < t.len() && !(t[x] is Vacant) implies !(
    (#[trigger] t2[x]) is Vacant) by {}

    // Chains: the new slot reaches itself at step f (every earlier step
    // of its walk is filled); old slots keep their witnesses.
    assert forall|j: int| 0 <= j < t2.len() && (#[trigger] t2[j]) is Filled implies exists|i: int|
        reach_at(t2, p, j, i) by {
        if j == u {
            assert forall|m: int| 0 <= m < f implies !(t2[#[trigger] probe_slot(
                p,
                fnv1(k),
                m,
                t2.len() as int,
            )] is Vacant) by {
                let w = probe_slot(p, fnv1(k), m, t.len() as int);
                assert(t[w] is Filled);
            }
            assert(reach_at(t2, p, u, f));
        } else {
            assert(t[j] is Filled);
            let i = choose|i: int| reach_at(t, p, j, i);
            assert(reach_at(t, p, j, i));
            let kj = t[j]->key;
            assert forall|m: int| 0 <= m < i implies !(t2[#[trigger] probe_slot(
                p,
                fnv1(kj),
                m,
                t2.len() as int,
            )] is Vacant) by {
                let w = probe_slot(p, fnv1(kj), m, t.len() as int);
                assert(!(t[w] is Vacant));
            }
            assert(t2[j]->key == kj);
            assert(reach_at(t2, p, j, i));
        }
    }

    // The view gains exactly the pair (k, (fl, d)).
    let v1 = model_view(t);
    let v2 = model_view(t2);
    assert(filled_at(t2, u, k));
    lemma_filled_value(t2, u, k);
    assert forall|k2: Seq<u8>| #[trigger] v2.contains_key(k2) implies k2 == k || (
    v1.contains_key(k2) && v2[k2] == v1[k2]) by {
        if k2 != k {
            let j = choose|j: int| filled_at(t2, j, k2);
            assert(filled_at(t2, j, k2));
            assert(j != u);
            assert(filled_at(t, j, k2));
            lemma_filled_value(t, j, k2);
            lemma_filled_value(t2, j, k2);
        }
    }
    assert forall|k2: Seq<u8>| #[trigger] v1.contains_key(k2) implies v2.contains_key(k2) by {
        let j = choose|j: int| filled_at(t, j, k2);
        assert(filled_at(t, j, k2));
        assert(j != u);
        assert(filled_at(t2, j, k2));
    }
    assert(v2 =~= v1.insert(k, (fl, d)));

    // The count rises by one.
    lemma_count_update(t, u, SlotModel::Filled { key: k, flags: fl, data: d }, t.len() as int);
}

/// Overwriting the slot that already holds `k` keeps the table well-formed,
/// replaces the map's value at `k`, and leaves the count unchanged.
proof fn lemma_overwrite(t: Seq<SlotModel>, p: Probe, k: Seq<u8>, fl: u32, d: Seq<u8>, f: int)
    requires
        model_unique(t),
        model_chains(t, p),
        scan(t, p, k, 0) == ScanResult::Found(f),
    ensures
        ({
            let u = probe_slot(p, fnv1(k), f, t.len() as int);
            let t2 = t.update(u, SlotModel::Filled { key: k, flags: fl, data: d });
            &&& model_unique(t2)
            &&& model_chains(t2, p)
            &&& model_view(t2) == model_view(t).insert(k, (fl, d))
            &&& model_count(t2, t2.len() as int) == model_count(t, t.len() as int)
        }),
{
    lemma_scan_props(t, p, k, 0);
    let u = probe_slot(p, fnv1(k), f, t.len() as int);
    let t2 = t.update(u, SlotModel::Filled { key: k, flags: fl, data: d });
    assert(t[u] is Filled && t[u]->key == k);

    // Occupancy and keys are unchanged slot for slot.
    assert forall|j: int| 0 <= j < t.len() implies ((#[trigger] t2[j]) is Filled <==> t[j]
        is Filled) && (t[j] is Filled ==> t2[j]->key == t[j]->key) by {}

    assert forall|j1: int, j2: int|
        #![trigger t2[j1], t2[j2]]
        0 <= j1 < t2.len() && 0 <= j2 < t2.len() && t2[j1] is Filled && t2[j2] is Filled
            && t2[j1]->key == t2[j2]->key implies j1 == j2 by {
        assert(t[j1] is Filled && t[j2] is Filled);
        assert(t[j1]->key == t2[j1]->key && t[j2]->key == t2[j2]->key);
    }

    assert forall|j: int| 0 <= j < t2.len() && (#[trigger] t2[j]) is Filled implies exists|i: int|
        reach_at(t2, p, j, i) by {
        assert(t[j] is Filled);
        let i = choose|i: int| reach_at(t, p, j, i);
        assert(reach_at(t, p, j, i));
        let kj = t[j]->key;
        assert forall|m: int| 0 <= m < i implies !(t2[#[trigger] probe_slot(
            p,
            fnv1(kj),
            m,
            t2.len() as int,
        )] is Vacant) by {
            assert(!(t[probe_slot(p, fnv1(kj), m, t.len() as int)] is Vacant));
        }
        assert(t2[j]->key == kj);
        assert(reach_at(t2, p, j, i));
    }

    // The view changes only at k.
    let v1 = model_view(t);
    let v2 = model_view(t2);
    assert(filled_at(t2, u, k));
    lemma_filled_value(t2, u, k);
    assert forall|k2: Seq<u8>| #[trigger] v2.contains_key(k2) implies k2 == k || (
    v1.contains_key(k2) && v2[k2] == v1[k2]) by {
        if k2 != k {
            let j = choose|j: int| filled_at(t2, j, k2);
            assert(filled_at(t2, j, k2));
            assert(j != u);
            assert(filled_at(t, j, k2));
            lemma_filled_value(t, j, k2);
            lemma_filled_value(t2, j, k2);
        }
    }
    assert forall|k2: Seq<u8>| #[trigger] v1.contains_key(k2) implies v2.contains_key(k2) by {
        let j = choose|j: int| filled_at(t, j, k2);
        assert(filled_at(t, j, k2));
        if j == u {
            assert(k2 == k);
            assert(filled_at(t2, u, k));
        } else {
            assert(filled_at(t2, j, k2));
        }
    }
    assert(v2 =~= v1.insert(k, (fl, d)));

    lemma_count_update(t, u, SlotModel::Filled { key: k, flags: fl, data: d }, t.len() as int);
}

/// Marking the slot that holds `k` as a tombstone keeps the table
/// well-formed (walks still continue over the slot), removes `k` from
/// the map, and lowers the count by one.
proof fn lemma_remove(t: Seq<SlotModel>, p: Probe, k: Seq<u8>, f: int)
    requires
        model_unique(t),
        model_chains(t, p),
        scan(t, p, k, 0) == ScanResult::Found(f),
    ensures
        ({
            let u = probe_slot(p, fnv1(k), f, t.len() as int);
            let t2 = t.update(u, SlotModel::Tombstone);
            &&& model_unique(t2)
            &&& model_chains(t2, p)
            &&& model_view(t2) == model_view(t).remove(k)
            &&& model_count(t2, t2.len() as int) == model_count(t, t.len() as int) - 1
        }),
{
    lemma_scan_props(t, p, k, 0);
    let u = probe_slot(p, fnv1(k), f, t.len() as int);
    let t2 = t.update(u, SlotModel::Tombstone);
    assert(t[u] is Filled && t[u]->key == k);

    // Every slot filled in t2 is filled with the same key in t.
    assert forall|j1: int, j2: int|
        #![trigger t2[j1], t2[j2]]
        0 <= j1 < t2.len() && 0 <= j2 < t2.len() && t2[j1] is Filled && t2[j2] is Filled
            && t2[j1]->key == t2[j2]->key implies j1 == j2 by {
        assert(t2[j1] == t[j1] && t2[j2] == t[j2]);
    }

    // A tombstone is not vacant: no chain is broken.
    assert forall|j: int| 0 <= j < t2.len() && (#[trigger] t2[j]) is Filled implies exists|i: int|
        reach_at(t2, p, j, i) by {
        assert(t[j] is Filled);
        let i = choose|i: int| reach_at(t, p, j, i);
        assert(reach_at(t, p, j, i));
        let kj = t[j]->key;
        assert forall|m: int| 0 <= m < i implies !(t2[#[trigger] probe_slot(
            p,
            fnv1(kj),
            m,
            t2.len() as int,
        )] is Vacant) by {
            assert(!(t[probe_slot(p, fnv1(kj), m, t.len() as int)] is Vacant));
        }
        assert(t2[j]->key == kj);
        assert(reach_at(t2, p, j, i));
    }

    // The view loses exactly k.
    let v1 = model_view(t);
    let v2 = model_view(t2);
    assert forall|k2: Seq<u8>| #[trigger] v2.contains_key(k2) implies k2 != k && v1.contains_key(
        k2,
    ) && v2[k2] == v1[k2] by {
        let j = choose|j: int| filled_at(t2, j, k2);
        assert(filled_at(t2, j, k2));
        assert(j != u);
        assert(filled_at(t, j, k2));
        if k2 == k {
            assert(filled_at(t, u, k));
            assert(false);
        }
        lemma_filled_value(t, j, k2);
        lemma_filled_value(t2, j, k2);
    }
    assert forall|k2: Seq<u8>| #[trigger] v1.contains_key(k2) && k2 != k implies v2.contains_key(
        k2,
    ) by {
        let j = choose|j: int| filled_at(t, j, k2);
        assert(filled_at(t, j, k2));
        assert(j != u);
        assert(filled_at(t2, j, k2));
    }
    assert(v2 =~= v1.remove(k));

    lemma_count_update(t, u, SlotModel::Tombstone, t.len() as int);
}

/// Where a key's placement walk puts it: the slot of its first unfilled
/// step, or nowhere if every step of the walk is filled.
pub open spec fn place_spec(t: Seq<SlotModel>, p: Probe, k: Seq<u8>, fl: u32, d: Seq<u8>) -> Option<
    Seq<SlotModel>,
> {
    match scan_free(t, p, k, 0) {
        Some(f) => Some(
            t.update(
                probe_slot(p, fnv1(k), f, t.len() as int),
                SlotModel::Filled { key: k, flags: fl, data: d },
            ),
        ),
        None => None,
    }
}

/// A table of `n` vacant slots.
pub open spec fn vacant_table(n: int) -> Seq<SlotModel> {
    Seq::new(n as nat, |j: int| SlotModel::Vacant)
}

/// Replaying the first `n` slots of `src` into `dst`, in slot order: the
/// rehash migration, step by step.
pub open spec fn migrate_spec(
    src: Seq<SlotModel>,
    n: int,
    dst: Seq<SlotModel>,
    p: Probe,
) -> Option<Seq<SlotModel>>
    decreases n,
{
    if n <= 0 {
        Some(dst)
    } else {
        match migrate_spec(src, n - 1, dst, p) {
            Some(d) => if src[n - 1] is Filled {
                place_spec(d, p, src[n - 1]->key, src[n - 1]->flags, src[n - 1]->data)
            } else {
                Some(d)
            },
            None => None,
        }
    }
}

/// The table a rehash to `new_cap` slots produces, if every entry finds a
/// free slot along its walk.
pub open spec fn rehash_spec(src: Seq<SlotModel>, p: Probe, new_cap: int) -> Option<Seq<SlotModel>> {
    migrate_spec(src, src.len() as int, vacant_table(new_cap), p)
}

/// `a / b` rounded up.
pub open spec fn spec_ceil_div(a: int, b: int) -> int
    recommends
        b >= 1,
{
    (a + b - 1) / b
}

/// The capacity a rehash grows to: at least `capacity * growth` rounded
/// up, strictly larger than before, and large enough that one more entry
/// keeps the load within `max_load`.
pub open spec fn grown_capacity(cap: int, len: int, pr: Parameters) -> int {
    let by_growth = spec_ceil_div(cap * pr.growth_num as int, pr.growth_den as int);
    let by_load = spec_ceil_div((len + 1) * pr.max_load_den as int, pr.max_load_num as int);
    let a = if by_growth >= cap + 1 {
        by_growth
    } else {
        cap + 1
    };
    if a >= by_load {
        a
    } else {
        by_load
    }
}

/// Rounding up then multiplying back recovers at least the dividend.
proof fn lemma_ceil_div_bound(a: int, b: int)
    requires
        a >= 0,
        b >= 1,
    ensures
        spec_ceil_div(a, b) * b >= a,
        spec_ceil_div(a, b) >= 0,
{
    let q = (a + b - 1) / b;
    let r = (a + b - 1) % b;
    vstd::arithmetic::div_mod::lemma_fundamental_div_mod(a + b - 1, b);
    assert(a + b - 1 == b * q + r);
    assert(q * b >= a) by (nonlinear_arith)
        requires
            a + b - 1 == b * q + r,
            0 <= r < b,
    ;
}

/// The count of filled slots among the first `n` lies between 0 and `n`.
proof fn lemma_count_bound(t: Seq<SlotModel>, n: int)
    requires
        n >= 0,
    ensures
        0 <= model_count(t, n) <= n,
    decreases n,
{
    if n > 0 {
        lemma_count_bound(t, n - 1);
    }
}

/// Key uniqueness restricts to prefixes.
proof fn lemma_prefix_unique(src: Seq<SlotModel>, n: int)
    requires
        model_unique(src),
        0 <= n <= src.len(),
    ensures
        model_unique(src.subrange(0, n)),
{
    let t = src.subrange(0, n);
    assert forall|j1: int, j2: int|
        #![trigger t[j1], t[j2]]
        0 <= j1 < t.len() && 0 <= j2 < t.len() && t[j1] is Filled && t[j2] is Filled
            && t[j1]->key == t[j2]->key implies j1 == j2 by {
        assert(t[j1] == src[j1] && t[j2] == src[j2]);
    }
}

/// With unique keys, the key of slot `j` does not appear among the slots
/// before it.
proof fn lemma_prefix_absent(src: Seq<SlotModel>, j: int)
    requires
        model_unique(src),
        0 <= j < src.len(),
        src[j] is Filled,
    ensures
        !model_view(src.subrange(0, j)).contains_key(src[j]->key),
{
    let t = src.subrange(0, j);
    let k = src[j]->key;
    if model_view(t).contains_key(k) {
        let j2 = choose|j2: int| filled_at(t, j2, k);
        assert(filled_at(t, j2, k));
        assert(t[j2] == src[j2]);
        assert(false);
    }
}

/// Extending the prefix by one slot extends its map by that slot's entry.
proof fn lemma_prefix_view_step(src: Seq<SlotModel>, j: int)
    requires
        model_unique(src),
        0 <= j < src.len(),
    ensures
        src[j] is Filled ==> model_view(src.subrange(0, j + 1)) == model_view(
            src.subrange(0, j),
        ).insert(src[j]->key, (src[j]->flags, src[j]->data)),
        !(src[j] is Filled) ==> model_view(src.subrange(0, j + 1)) == model_view(
            src.subrange(0, j),
        ),
{
    let t1 = src.subrange(0, j);
    let t2 = src.subrange(0, j + 1);
    lemma_prefix_unique(src, j);
    lemma_prefix_unique(src, j + 1);
    assert(forall|m: int| 0 <= m < j ==> t2[m] == src[m] && t1[m] == src[m]);
    assert(t2[j] == src[j]);
    if src[j] is Filled {
        let k = src[j]->key;
        assert(filled_at(t2, j, k));
        lemma_filled_value(t2, j, k);
        assert forall|k2: Seq<u8>| #[trigger] model_view(t2).contains_key(k2) implies k2 == k || (
        model_view(t1).contains_key(k2) && model_view(t2)[k2] == model_view(t1)[k2]) by {
            if k2 != k {
                let m = choose|m: int| filled_at(t2, m, k2);
                assert(filled_at(t2, m, k2));
                assert(m != j);
                assert(filled_at(t1, m, k2));
                lemma_filled_value(t1, m, k2);
                lemma_filled_value(t2, m, k2);
            }
        }
        assert forall|k2: Seq<u8>| #[trigger] model_view(t1).contains_key(k2) implies model_view(
            t2,
        ).contains_key(k2) by {
            let m = choose|m: int| filled_at(t1, m, k2);
            assert(filled_at(t1, m, k2));
            assert(filled_at(t2, m, k2));
        }
        assert(model_view(t2) =~= model_view(t1).insert(k, (src[j]->flags, src[j]->data)));
    } else {
        assert forall|k2: Seq<u8>| #[trigger] model_view(t2).contains_key(k2) implies model_view(
            t1,
        ).contains_key(k2) && model_view(t2)[k2] == model_view(t1)[k2] by {
            let m = choose|m: int| filled_at(t2, m, k2);
            assert(filled_at(t2, m, k2));
            assert(m != j);
            assert(filled_at(t1, m, k2));
            lemma_filled_value(t1, m, k2);
            lemma_filled_value(t2, m, k2);
        }
        assert forall|k2: Seq<u8>| #[trigger] model_view(t1).contains_key(k2) implies model_view(
            t2,
        ).contains_key(k2) by {
            let m = choose|m: int| filled_at(t1, m, k2);
            assert(filled_at(t1, m, k2));
            assert(filled_at(t2, m, k2));
        }
        assert(model_view(t2) =~= model_view(t1));
    }
}

/// A table whose first `n` slots are all filled counts `n`.
proof fn lemma_all_filled_count(t: Seq<SlotModel>, n: int)
    requires
        0 <= n,
        forall|j: int| 0 <= j < n ==> (#[trigger] t[j]) is Filled,
    ensures
        model_count(t, n) == n,
    decreases n,
{
    if n > 0 {
        lemma_all_filled_count(t, n - 1);
    }
}

/// The linear walk reaches slot `x` within `len` steps.
proof fn lemma_linear_step_to(h: u64, x: int, len: int)
    requires
        1 <= len,
        0 <= x < len,
    ensures
        exists|i: int| 0 <= i < len && probe_slot(Probe::Linear, h, i, len) == x,
{
    let hi = h as int;
    vstd::arithmetic::div_mod::lemma_mod_bound(hi, len);
    vstd::arithmetic::div_mod::lemma_fundamental_div_mod(hi, len);
    let hm = hi % len;
    let q = hi / len;
    assert(hi == len * q + hm);
    let i = if x >= hm {
        x - hm
    } else {
        x - hm + len
    };
    assert(0 <= i < len);
    vstd::arithmetic::div_mod::lemma_small_mod(x as nat, len as nat);
    if x >= hm {
        assert(hi + i == len * q + x);
        vstd::arithmetic::div_mod::lemma_mod_multiples_vanish(q, x, len);
        assert(probe_slot(Probe::Linear, h, i, len) == x);
    } else {
        assert(hi + i == len * (q + 1) + x) by (nonlinear_arith)
            requires
                hi == len * q + hm,
                i == x - hm + len,
        ;
        vstd::arithmetic::div_mod::lemma_mod_multiples_vanish(q + 1, x, len);
        assert(probe_slot(Probe::Linear, h, i, len) == x);
    }
}

/// With the linear probe, a placement walk in a table that has an
/// unfilled slot finds one: the walk enumerates every slot.
proof fn lemma_linear_finds_free(t: Seq<SlotModel>, k: Seq<u8>)
    requires
        1 <= t.len(),
        model_count(t, t.len() as int) < t.len() as int,
    ensures
        scan_free(t, Probe::Linear, k, 0) is Some,
{
    if scan_free(t, Probe::Linear, k, 0) is None {
        lemma_scan_free_props(t, Probe::Linear, k, 0);
        assert forall|x: int| 0 <= x < t.len() implies (#[trigger] t[x]) is Filled by {
            lemma_linear_step_to(fnv1(k), x, t.len() as int);
            let i = choose|i: int|
                0 <= i < t.len() && probe_slot(Probe::Linear, fnv1(k), i, t.len() as int) == x;
            assert(t[probe_slot(Probe::Linear, fnv1(k), i, t.len() as int)] is Filled);
        }
        lemma_all_filled_count(t, t.len() as int);
        assert(false);
    }
}

/// A successful placement keeps the table's size and raises its count by
/// one.
proof fn lemma_place_spec_count(t: Seq<SlotModel>, p: Probe, k: Seq<u8>, fl: u32, d: Seq<u8>)
    ensures
        match place_spec(t, p, k, fl, d) {
            Some(t2) => t2.len() == t.len() && model_count(t2, t2.len() as int) == model_count(
                t,
                t.len() as int,
            ) + 1,
            None => true,
        },
{
    match scan_free(t, p, k, 0) {
        Some(f) => {
            lemma_scan_free_props(t, p, k, 0);
            let u = probe_slot(p, fnv1(k), f, t.len() as int);
            lemma_count_update(t, u, SlotModel::Filled { key: k, flags: fl, data: d }, t.len() as int);
        },
        None => {},
    }
}

/// With the linear probe, migrating into a table with room for every
/// entry succeeds and carries the count over.
proof fn lemma_linear_migrate_some(src: Seq<SlotModel>, n: int, dst: Seq<SlotModel>)
    requires
        0 <= n,
        1 <= dst.len(),
        model_count(dst, dst.len() as int) + model_count(src, n) < dst.len() as int,
        model_count(dst, dst.len() as int) >= 0,
    ensures
        match migrate_spec(src, n, dst, Probe::Linear) {
            Some(d2) => d2.len() == dst.len() && model_count(d2, d2.len() as int) == model_count(
                dst,
                dst.len() as int,
            ) + model_count(src, n),
            None => false,
        },
    decreases n,
{
    if n > 0 {
        lemma_count_bound(src, n - 1);
        lemma_linear_migrate_some(src, n - 1, dst);
        match migrate_spec(src, n - 1, dst, Probe::Linear) {
            Some(d) => {
                if src[n - 1] is Filled {
                    lemma_linear_finds_free(d, src[n - 1]->key);
                    lemma_place_spec_count(
                        d,
                        Probe::Linear,
                        src[n - 1]->key,
                        src[n - 1]->flags,
                        src[n - 1]->data,
                    );
                }
            },
            None => {},
        }
    }
}

/// Law: probe termination for the probe that covers the table. The
/// linear walk enumerates a permutation of the slot indices within
/// `capacity` steps, so an insert under it never reports an exhausted
/// walk: within the load factor there is always room to find, in the
/// current table and in any rehash it triggers.
pub proof fn lemma_linear_probe_never_exhausts(idx: Index, k: Seq<u8>, fl: u32, d: Seq<u8>)
    requires
        idx.wf(),
        idx.spec_params().probe == Probe::Linear,
    ensures
        !idx.spec_probe_fails(k, fl, d),
{
    let t = idx.model();
    let cap = idx.spec_cap();
    let len = idx.spec_len();
    lemma_count_bound(t, cap);
    lemma_len_below_cap(
        len,
        cap,
        idx.spec_params().max_load_num as int,
        idx.spec_params().max_load_den as int,
    );
    if !idx.spec_needs_grow() {
        lemma_linear_finds_free(t, k);
    } else if idx.spec_grown_capacity() <= usize::MAX as int {
        let g = idx.spec_grown_capacity();
        assert(g >= cap + 1);
        let vac = vacant_table(g);
        assert(forall|j: int| 0 <= j < vac.len() ==> vac[j] is Vacant);
        lemma_all_vacant_count(vac, g);
        lemma_linear_migrate_some(t, t.len() as int, vac);
        match rehash_spec(t, Probe::Linear, g) {
            Some(t2) => {
                lemma_linear_finds_free(t2, k);
                assert(place_spec(t2, Probe::Linear, k, fl, d) is Some);
            },
            None => {
                assert(false);
            },
        }
    }
}

/// Once the migration fails it stays failed.
proof fn lemma_migrate_none_mono(src: Seq<SlotModel>, n1: int, n2: int, dst: Seq<SlotModel>, p: Probe)
    requires
        0 <= n1 <= n2,
        migrate_spec(src, n1, dst, p) is None,
    ensures
        migrate_spec(src, n2, dst, p) is None,
    decreases n2 - n1,
{
    if n2 > n1 {
        lemma_migrate_none_mono(src, n1, n2 - 1, dst, p);
    }
}

/// One slot of the backing array.
enum Slot {
    Empty,
    Occupied { key: Vec<u8>, value: IndexValue },
    Tombstone,
}

/// The model of one concrete slot.
spec fn slot_model(s: Slot) -> SlotModel {
    match s {
        Slot::Empty => SlotModel::Vacant,
        Slot::Occupied { key, value } => SlotModel::Filled {
            key: key@,
            flags: value.flags,
            data: value.data@,
        },
        Slot::Tombstone => SlotModel::Tombstone,
    }
}

/// The model of the whole backing array.
spec fn table_model(s: Seq<Slot>) -> Seq<SlotModel> {
    Seq::new(s.len(), |j: int| slot_model(s[j]))
}

/// An open-addressing hash table from byte-string keys to
/// `(flags, payload)` values.
pub struct Index {
    slots: Vec<Slot>,
    len: usize,
    params: Parameters,
}

impl View for Index {
    type V = Map<Seq<u8>, (u32, Seq<u8>)>;

    closed spec fn view(&self) -> Map<Seq<u8>, (u32, Seq<u8>)> {
        model_view(table_model(self.slots@))
    }
}

impl Index {
    /// The table's model: one slot model per backing slot.
    pub closed spec fn model(&self) -> Seq<SlotModel> {
        table_model(self.slots@)
    }

    /// The number of filled slots.
    pub closed spec fn spec_len(&self) -> int {
        self.len as int
    }

    /// The number of backing slots.
    pub closed spec fn spec_cap(&self) -> int {
        self.slots@.len() as int
    }

    /// The table's parameters.
    pub closed spec fn spec_params(&self) -> Parameters {
        self.params
    }

    /// The table's invariant: valid parameters, at least one slot, unique
    /// keys, every filled slot reachable along its key's probe walk, `len`
    /// counting the filled slots, and the load factor within `max_load`.
    pub closed spec fn wf(&self) -> bool {
        &&& params_valid(self.params)
        &&& 1 <= self.spec_cap()
        &&& model_unique(self.model())
        &&& model_chains(self.model(), self.params.probe)
        &&& self.spec_len() == model_count(self.model(), self.spec_cap())
        &&& self.spec_len() * self.params.max_load_den as int <= self.spec_cap()
            * self.params.max_load_num as int
    }

    /// How many entries the table holds.
    pub fn len(&self) -> (r: usize)
        ensures
            r as int == self.spec_len(),
    {
        self.len
    }

    /// How many slots the backing array has.
    pub fn capacity(&self) -> (r: usize)
        ensures
            r as int == self.spec_cap(),
    {
        self.slots.len()
    }

    /// An empty table with the default parameters: maximum load factor
    /// 7/10, growth factor 2, quadratic probing, FNV-1 hashing.
    pub fn with_capacity(capacity: usize) -> (r: Index)
        ensures
            r.wf(),
            r@ == Map::<Seq<u8>, (u32, Seq<u8>)>::empty(),
            r.spec_len() == 0,
            r.spec_cap() >= capacity,
            r.spec_cap() >= 1,
            r.spec_params() == default_parameters(),
    {
        Index::with_capacity_and_parameters(capacity, default_parameters_exec())
    }

    /// An empty table with at least `capacity` slots and the given
    /// parameters.
    pub fn with_capacity_and_parameters(capacity: usize, params: Parameters) -> (r: Index)
        requires
            params_valid(params),
        ensures
            r.wf(),
            r@ == Map::<Seq<u8>, (u32, Seq<u8>)>::empty(),
            r.spec_len() == 0,
            r.spec_cap() >= capacity,
            r.spec_cap() >= 1,
            r.spec_params() == params,
    {
        let cap: usize = if capacity == 0 {
            1
        } else {
            capacity
        };
        let slots = empty_slots(cap);
        let r = Index { slots, len: 0, params };
        proof {
            lemma_all_vacant_view(r.model());
            lemma_all_vacant_count(r.model(), r.model().len() as int);
            assert(r@ =~= Map::<Seq<u8>, (u32, Seq<u8>)>::empty());
        }
        r
    }
}

/// Byte-for-byte equality of two byte strings.
fn bytes_eq(a: &[u8], b: &[u8]) -> (r: bool)
    ensures
        r == (a@ == b@),
{
    if a.len() != b.len() {
        return false;
    }
    let n: usize = a.len();
    for i in 0..n
        invariant
            n == a@.len(),
            n == b@.len(),
            forall|j: int| 0 <= j < i ==> a@[j] == b@[j],
    {
        if *vstd::slice::slice_index_get(a, i) != *vstd::slice::slice_index_get(b, i) {
            return false;
        }
    }
    proof {
        assert(a@ =~= b@);
    }
    true
}

/// A copy of a byte string.
fn clone_bytes(v: &Vec<u8>) -> (r: Vec<u8>)
    ensures
        r@ == v@,
{
    let mut r: Vec<u8> = Vec::new();
    let n: usize = v.len();
    for i in 0..n
        invariant
            n == v@.len(),
            r@ =~= v@.subrange(0, i as int),
    {
        r.push(v[i]);
        proof {
            assert(r@ =~= v@.subrange(0, i + 1 as int));
        }
    }
    proof {
        assert(r@ =~= v@);
    }
    r
}

/// The slot index of probe step `i`, computed without overflow in 128-bit
/// arithmetic.
fn probe_index(p: Probe, h: u64, i: usize, cap: usize) -> (r: usize)
    requires
        cap >= 1,
    ensures
        r as int == probe_slot(p, h, i as int, cap as int),
        r < cap,
{
    let hw: u128 = h as u128;
    let iw: u128 = i as u128;
    let off: u128 = match p {
        Probe::Quadratic => {
            proof {
                assert(iw * iw <= 0xffff_ffff_ffff_ffffu128 * 0xffff_ffff_ffff_ffffu128)
                    by (nonlinear_arith)
                    requires
                        iw <= 0xffff_ffff_ffff_ffffu128,
                ;
            }
            iw + iw * iw
        },
        Probe::Linear => iw,
    };
    let r = ((hw + off) % (cap as u128)) as usize;
    proof {
        assert(iw * iw == i as int * i as int) by (nonlinear_arith)
            requires
                iw == i as int,
        ;
    }
    r
}

/// What one executable probe walk reports: the step and slot it stopped
/// at, or exhaustion.
enum ScanOutcome {
    /// `Found(f, u)`: step `f` landed on slot `u`, which holds the key.
    Found(usize, usize),
    /// `Free(f, u)`: step `f` landed on slot `u`, which is vacant.
    Free(usize, usize),
    Exhausted,
}

/// Walk the probe sequence for `key`, stopping at the first vacant slot or
/// the first slot holding `key`; the outcome is exactly what `scan` says
/// of the table's model.
fn probe_scan(slots: &Vec<Slot>, p: Probe, hb: &IndexHasherBuilder, key: &[u8]) -> (r: ScanOutcome)
    requires
        slots@.len() >= 1,
    ensures
        ({
            let t = table_model(slots@);
            match r {
                ScanOutcome::Found(f, u) => scan(t, p, key@, 0) == ScanResult::Found(f as int) && u
                    == probe_slot(p, fnv1(key@), f as int, t.len() as int),
                ScanOutcome::Free(f, u) => scan(t, p, key@, 0) == ScanResult::Free(f as int) && u
                    == probe_slot(p, fnv1(key@), f as int, t.len() as int),
                ScanOutcome::Exhausted => scan(t, p, key@, 0) == ScanResult::Exhausted,
            }
        }),
{
    let ghost t = table_model(slots@);
    let h = make_hash(hb, key);
    let cap: usize = slots.len();
    let mut i: usize = 0;
    while i < cap
        invariant
            0 <= i <= cap,
            cap == slots@.len(),
            t == table_model(slots@),
            t.len() == cap,
            h == fnv1(key@),
            scan(t, p, key@, 0) == scan(t, p, key@, i as int),
        decreases cap - i,
    {
        let u = probe_index(p, h, i, cap);
        proof {
            assert(t[u as int] == slot_model(slots@[u as int]));
        }
        match &slots[u] {
            Slot::Empty => {
                proof {
                    assert(t[u as int] is Vacant);
                    assert(scan(t, p, key@, i as int) == ScanResult::Free(i as int));
                }
                return ScanOutcome::Free(i, u);
            },
            Slot::Occupied { key: stored, value: _ } => {
                if bytes_eq(stored.as_slice(), key) {
                    proof {
                        assert(t[u as int] is Filled && t[u as int]->key == key@);
                        assert(scan(t, p, key@, i as int) == ScanResult::Found(i as int));
                    }
                    return ScanOutcome::Found(i, u);
                }
                proof {
                    assert(t[u as int] is Filled && t[u as int]->key != key@);
                    assert(scan(t, p, key@, i as int) == scan(t, p, key@, i + 1));
                }
            },
            Slot::Tombstone => {
                proof {
                    assert(t[u as int] is Tombstone);
                    assert(scan(t, p, key@, i as int) == scan(t, p, key@, i + 1));
                }
            },
        }
        i = i + 1;
    }
    proof {
        assert(scan(t, p, key@, cap as int) == ScanResult::Exhausted);
    }
    ScanOutcome::Exhausted
}

/// Walk the probe sequence for `key` to the first unfilled slot: the
/// outcome is exactly what `scan_free` says of the table's model.
fn probe_scan_free(slots: &Vec<Slot>, p: Probe, hb: &IndexHasherBuilder, key: &[u8]) -> (r: Option<
    (usize, usize),
>)
    requires
        slots@.len() >= 1,
    ensures
        ({
            let t = table_model(slots@);
            match r {
                Some(fu) => scan_free(t, p, key@, 0) == Some(fu.0 as int) && fu.1 == probe_slot(
                    p,
                    fnv1(key@),
                    fu.0 as int,
                    t.len() as int,
                ),
                None => scan_free(t, p, key@, 0) is None,
            }
        }),
{
    let ghost t = table_model(slots@);
    let h = make_hash(hb, key);
    let cap: usize = slots.len();
    let mut i: usize = 0;
    while i < cap
        invariant
            0 <= i <= cap,
            cap == slots@.len(),
            t == table_model(slots@),
            t.len() == cap,
            h == fnv1(key@),
            scan_free(t, p, key@, 0) == scan_free(t, p, key@, i as int),
        decreases cap - i,
    {
        let u = probe_index(p, h, i, cap);
        proof {
            assert(t[u as int] == slot_model(slots@[u as int]));
        }
        match &slots[u] {
            Slot::Occupied { key: _, value: _ } => {
                proof {
                    assert(t[u as int] is Filled);
                    assert(scan_free(t, p, key@, i as int) == scan_free(t, p, key@, i + 1));
                }
            },
            _ => {
                proof {
                    assert(!(t[u as int] is Filled));
                    assert(scan_free(t, p, key@, i as int) == Some(i as int));
                }
                return Some((i, u));
            },
        }
        i = i + 1;
    }
    proof {
        assert(scan_free(t, p, key@, cap as int) is None);
    }
    None
}

impl Index {
    /// Looks `key` up: a borrow of the stored value on a hit, absence on a
    /// miss. Never mutates the table.
    pub fn get(&self, key: &[u8]) -> (r: Option<&IndexValue>)
        requires
            self.wf(),
        ensures
            match r {
                Some(v) => self@.contains_key(key@) && v@ == self@[key@],
                None => !self@.contains_key(key@),
            },
    {
        let ghost t = self.model();
        match probe_scan(&self.slots, self.params.probe, &self.params.hasher_builder, key) {
            ScanOutcome::Found(f, u) => {
                proof {
                    lemma_scan_found(t, self.params.probe, key@, f as int);
                    assert(t[u as int] == slot_model(self.slots@[u as int]));
                }
                match &self.slots[u] {
                    Slot::Occupied { key: _, value } => {
                        proof {
                            assert(model_val(t, u as int) == value@);
                        }
                        Some(value)
                    },
                    _ => {
                        proof {
                            assert(false);
                        }
                        None
                    },
                }
            },
            ScanOutcome::Free(_, _) => {
                proof {
                    lemma_scan_absent(t, self.params.probe, key@);
                }
                None
            },
            ScanOutcome::Exhausted => {
                proof {
                    lemma_scan_absent(t, self.params.probe, key@);
                }
                None
            },
        }
    }

    /// Whether the table holds `key`.
    pub fn contains_key(&self, key: &[u8]) -> (r: bool)
        requires
            self.wf(),
        ensures
            r == self@.contains_key(key@),
    {
        self.get(key).is_some()
    }
}

/// Updating one backing slot updates the model pointwise.
proof fn lemma_model_update(s: Seq<Slot>, j: int, sl: Slot)
    requires
        0 <= j < s.len(),
    ensures
        table_model(s.update(j, sl)) =~= table_model(s).update(j, slot_model(sl)),
{
    let a = table_model(s.update(j, sl));
    let b = table_model(s).update(j, slot_model(sl));
    assert forall|m: int| 0 <= m < a.len() implies a[m] == b[m] by {
        assert(a[m] == slot_model(s.update(j, sl)[m]));
        assert(table_model(s)[m] == slot_model(s[m]));
    }
}

/// A product of two numbers below 2^64 stays below 2^128.
proof fn lemma_mul_fits_u128(a: int, b: int)
    requires
        0 <= a <= 0x1_0000_0000_0000_0000,
        0 <= b < 0x1_0000_0000_0000_0000,
    ensures
        0 <= a * b <= 0x1_0000_0000_0000_0000 * 0xffff_ffff_ffff_ffff,
{
    assert(0 <= a * b <= 0x1_0000_0000_0000_0000 * 0xffff_ffff_ffff_ffff) by (nonlinear_arith)
        requires
            0 <= a <= 0x1_0000_0000_0000_0000,
            0 <= b <= 0xffff_ffff_ffff_ffff,
    ;
}

/// A table within its load factor has fewer entries than slots.
proof fn lemma_len_below_cap(len: int, cap: int, num: int, den: int)
    requires
        0 <= len,
        1 <= cap,
        0 < num < den,
        len * den <= cap * num,
    ensures
        len < cap,
{
    assert(len < cap) by (nonlinear_arith)
        requires
            0 <= len,
            1 <= cap,
            0 < num < den,
            len * den <= cap * num,
    ;
}

/// Place a key that is absent from `slots` into the first free slot of
/// its probe walk, or report the walk exhausted and leave the table
/// untouched.
fn place_new(
    slots: &mut Vec<Slot>,
    p: Probe,
    hb: &IndexHasherBuilder,
    key: Vec<u8>,
    value: IndexValue,
) -> (r: Result<(), IndexError>)
    requires
        old(slots)@.len() >= 1,
        model_unique(table_model(old(slots)@)),
        model_chains(table_model(old(slots)@), p),
        !model_view(table_model(old(slots)@)).contains_key(key@),
    ensures
        ({
            let t = table_model(old(slots)@);
            let t2 = table_model(final(slots)@);
            match r {
                Ok(()) => {
                    &&& Some(t2) == place_spec(t, p, key@, value.flags, value.data@)
                    &&& model_unique(t2)
                    &&& model_chains(t2, p)
                    &&& t2.len() == t.len()
                    &&& model_view(t2) == model_view(t).insert(key@, value@)
                    &&& model_count(t2, t2.len() as int) == model_count(t, t.len() as int) + 1
                },
                Err(e) => {
                    &&& e == IndexError::ProbeExhausted
                    &&& final(slots)@ == old(slots)@
                    &&& place_spec(t, p, key@, value.flags, value.data@) is None
                },
            }
        }),
{
    let ghost t = table_model(slots@);
    let ghost kv = key@;
    let ghost fl = value.flags;
    let ghost dv = value.data@;
    match probe_scan_free(slots, p, hb, key.as_slice()) {
        Some((f, u)) => {
            proof {
                lemma_place(t, p, kv, fl, dv, f as int);
            }
            let ghost new_slot = Slot::Occupied { key: key, value: value };
            slots.set(u, Slot::Occupied { key, value });
            proof {
                lemma_model_update(old(slots)@, u as int, new_slot);
                assert(slot_model(new_slot) == SlotModel::Filled { key: kv, flags: fl, data: dv });
                assert(table_model(slots@) == t.update(
                    u as int,
                    SlotModel::Filled { key: kv, flags: fl, data: dv },
                ));
            }
            Ok(())
        },
        None => Err(IndexError::ProbeExhausted),
    }
}

impl Index {
    /// One more entry would push the load factor above `max_load`.
    pub open spec fn spec_needs_grow(self) -> bool {
        (self.spec_len() + 1) * self.spec_params().max_load_den as int > self.spec_cap()
            * self.spec_params().max_load_num as int
    }

    /// The capacity the next rehash grows to.
    pub open spec fn spec_grown_capacity(self) -> int {
        grown_capacity(self.spec_cap(), self.spec_len(), self.spec_params())
    }

    /// Exactly when inserting the absent key `k` finds no free slot: the
    /// walk in the current table is exhausted while no rehash is due, or
    /// the rehash migration (or the final placement after it) exhausts a
    /// walk in the grown table.
    pub open spec fn spec_probe_fails(self, k: Seq<u8>, fl: u32, d: Seq<u8>) -> bool {
        let p = self.spec_params().probe;
        if !self.spec_needs_grow() {
            scan_free(self.model(), p, k, 0) is None
        } else if self.spec_grown_capacity() <= usize::MAX as int {
            match rehash_spec(self.model(), p, self.spec_grown_capacity()) {
                Some(t) => place_spec(t, p, k, fl, d) is None,
                None => true,
            }
        } else {
            false
        }
    }

    /// Inserts `key` with `value`. If the key is present its value is
    /// overwritten and the prior value returned; otherwise the pair is
    /// placed along the key's probe walk, after a rehash when one more
    /// entry would exceed the load factor. On failure the table is
    /// unchanged: `CapacityOverflow` exactly when the grown capacity would
    /// not fit in `usize`, `ProbeExhausted` exactly when a probe walk
    /// visits every slot without finding room.
    #[verifier::loop_isolation(false)]
    pub fn insert(&mut self, key: Vec<u8>, value: IndexValue) -> (r: Result<
        Option<IndexValue>,
        IndexError,
    >)
        requires
            old(self).wf(),
        ensures
            final(self).wf(),
            final(self).spec_params() == old(self).spec_params(),
            final(self).spec_cap() >= old(self).spec_cap(),
            match r {
                Ok(prior) => {
                    &&& final(self)@ == old(self)@.insert(key@, value@)
                    &&& match prior {
                        Some(pv) => old(self)@.contains_key(key@) && pv@ == old(self)@[key@]
                            && final(self).spec_len() == old(self).spec_len()
                            && final(self).spec_cap() == old(self).spec_cap(),
                        None => !old(self)@.contains_key(key@)
                            && final(self).spec_len() == old(self).spec_len() + 1,
                    }
                },
                Err(_) => {
                    &&& final(self).model() == old(self).model()
                    &&& final(self)@ == old(self)@
                    &&& final(self).spec_len() == old(self).spec_len()
                    &&& final(self).spec_cap() == old(self).spec_cap()
                    &&& !old(self)@.contains_key(key@)
                },
            },
            (r matches Ok(prior) && prior is None) ==> final(self).spec_cap() == (
            if old(self).spec_needs_grow() {
                old(self).spec_grown_capacity()
            } else {
                old(self).spec_cap()
            }),
            (r matches Err(e) && e == IndexError::CapacityOverflow) <==> (
            !old(self)@.contains_key(key@) && old(self).spec_needs_grow()
                && old(self).spec_grown_capacity() > usize::MAX as int),
            (r matches Err(e) && e == IndexError::ProbeExhausted) <==> (
            !old(self)@.contains_key(key@) && old(self).spec_probe_fails(
                key@,
                value.flags,
                value.data@,
            )),
    {
        let ghost told = self.model();
        let ghost kv = key@;
        let ghost fl = value.flags;
        let ghost dv = value.data@;
        let p = self.params.probe;
        let hb = self.params.hasher_builder;
        let outcome = probe_scan(&self.slots, p, &hb, key.as_slice());
        if let ScanOutcome::Found(f, u) = outcome {
            proof {
                lemma_scan_found(told, p, kv, f as int);
                lemma_overwrite(told, p, kv, fl, dv, f as int);
            }
            let ghost new_slot = Slot::Occupied { key: key, value: value };
            let mut slot = Slot::Occupied { key, value };
            self.slots.set_and_swap(u, &mut slot);
            proof {
                lemma_model_update(old(self).slots@, u as int, new_slot);
                assert(slot_model(new_slot) == SlotModel::Filled { key: kv, flags: fl, data: dv });
                assert(self.model() == told.update(
                    u as int,
                    SlotModel::Filled { key: kv, flags: fl, data: dv },
                ));
            }
            match slot {
                Slot::Occupied { key: _, value: prior } => {
                    proof {
                        assert(told[u as int] == slot_model(old(self).slots@[u as int]));
                        assert(model_val(told, u as int) == prior@);
                    }
                    return Ok(Some(prior));
                },
                _ => {
                    proof {
                        assert(told[u as int] == slot_model(old(self).slots@[u as int]));
                        assert(false);
                    }
                    return Err(IndexError::ProbeExhausted);
                },
            }
        }
        // The key is absent.
        proof {
            lemma_scan_absent(told, p, kv);
        }
        let len = self.len;
        let cap = self.slots.len();
        let prm = self.params;
        proof {
            lemma_mul_fits_u128(len as int + 1, prm.max_load_den as int);
            lemma_mul_fits_u128(cap as int, prm.max_load_num as int);
        }
        let needs: bool = (len as u128 + 1) * (prm.max_load_den as u128) > (cap as u128) * (
        prm.max_load_num as u128);
        if !needs {
            match place_new(&mut self.slots, p, &hb, key, value) {
                Ok(()) => {
                    proof {
                        lemma_len_below_cap(
                            len as int,
                            cap as int,
                            prm.max_load_num as int,
                            prm.max_load_den as int,
                        );
                    }
                    self.len = len + 1;
                    return Ok(None);
                },
                Err(_) => {
                    return Err(IndexError::ProbeExhausted);
                },
            }
        }
        // Grow, then place.
        proof {
            lemma_mul_fits_u128(cap as int, prm.growth_num as int);
        }
        let by_growth: u128 = ((cap as u128) * (prm.growth_num as u128) + (prm.growth_den as u128)
            - 1) / (prm.growth_den as u128);
        let by_load: u128 = ((len as u128 + 1) * (prm.max_load_den as u128) + (
        prm.max_load_num as u128) - 1) / (prm.max_load_num as u128);
        let capw: u128 = cap as u128;
        let mut want: u128 = if by_growth >= capw + 1 {
            by_growth
        } else {
            capw + 1
        };
        if by_load > want {
            want = by_load;
        }
        proof {
            assert(want as int == old(self).spec_grown_capacity());
        }
        if want > (usize::MAX as u128) {
            return Err(IndexError::CapacityOverflow);
        }
        let new_cap: usize = want as usize;
        let mut fresh = empty_slots(new_cap);
        let ghost vac = vacant_table(new_cap as int);
        proof {
            assert(table_model(fresh@) =~= vac);
            lemma_all_vacant_view(vac);
            lemma_all_vacant_count(vac, new_cap as int);
            lemma_all_vacant_view(told.subrange(0, 0));
            assert(model_view(vac) =~= model_view(told.subrange(0, 0)));
        }
        let n = self.slots.len();
        let mut j: usize = 0;
        while j < n
            invariant
                j <= n,
                n == self.slots@.len(),
                1 <= new_cap,
                told == table_model(self.slots@),
                model_unique(told),
                fresh@.len() == new_cap,
                migrate_spec(told, j as int, vac, p) == Some(table_model(fresh@)),
                model_unique(table_model(fresh@)),
                model_chains(table_model(fresh@), p),
                model_view(table_model(fresh@)) == model_view(told.subrange(0, j as int)),
                model_count(table_model(fresh@), new_cap as int) == model_count(told, j as int),
            decreases n - j,
        {
            let ghost dpre = table_model(fresh@);
            match &self.slots[j] {
                Slot::Occupied { key: sk, value: sv } => {
                    let k2 = clone_bytes(sk);
                    let v2 = IndexValue { flags: sv.flags, data: clone_bytes(&sv.data) };
                    proof {
                        assert(told[j as int] == slot_model(self.slots@[j as int]));
                        lemma_prefix_absent(told, j as int);
                    }
                    match place_new(&mut fresh, p, &hb, k2, v2) {
                        Ok(()) => {
                            proof {
                                lemma_prefix_view_step(told, j as int);
                                assert(migrate_spec(told, j as int + 1, vac, p) == place_spec(
                                    dpre,
                                    p,
                                    told[j as int]->key,
                                    told[j as int]->flags,
                                    told[j as int]->data,
                                ));
                            }
                        },
                        Err(_) => {
                            proof {
                                assert(migrate_spec(told, j as int + 1, vac, p) is None);
                                lemma_migrate_none_mono(
                                    told,
                                    j as int + 1,
                                    told.len() as int,
                                    vac,
                                    p,
                                );
                            }
                            return Err(IndexError::ProbeExhausted);
                        },
                    }
                },
                _ => {
                    proof {
                        assert(told[j as int] == slot_model(self.slots@[j as int]));
                        lemma_prefix_view_step(told, j as int);
                        assert(migrate_spec(told, j as int + 1, vac, p) == Some(dpre));
                    }
                },
            }
            j = j + 1;
        }
        proof {
            assert(told.subrange(0, n as int) =~= told);
            assert(model_view(table_model(fresh@)) == model_view(told));
        }
        match place_new(&mut fresh, p, &hb, key, value) {
            Ok(()) => {
                let ghost dmid = table_model(fresh@);
                self.slots = fresh;
                proof {
                    lemma_len_below_cap(
                        len as int,
                        cap as int,
                        prm.max_load_num as int,
                        prm.max_load_den as int,
                    );
                }
                self.len = len + 1;
                proof {
                    lemma_count_bound(told, n as int);
                    lemma_ceil_div_bound(
                        (len as int + 1) * prm.max_load_den as int,
                        prm.max_load_num as int,
                    );
                    assert((len as int + 1) * prm.max_load_den as int <= new_cap as int
                        * prm.max_load_num as int) by (nonlinear_arith)
                        requires
                            new_cap as int >= spec_ceil_div(
                                (len as int + 1) * prm.max_load_den as int,
                                prm.max_load_num as int,
                            ),
                            spec_ceil_div(
                                (len as int + 1) * prm.max_load_den as int,
                                prm.max_load_num as int,
                            ) * prm.max_load_num as int >= (len as int + 1)
                                * prm.max_load_den as int,
                            prm.max_load_num as int >= 1,
                    ;
                }
                Ok(None)
            },
            Err(_) => Err(IndexError::ProbeExhausted),
        }
    }

    /// Removes `key`: the slot that holds it becomes a tombstone, so
    /// other keys' probe chains stay intact, and the stored value is
    /// returned; absence if the key is not present.
    pub fn remove(&mut self, key: &[u8]) -> (r: Option<IndexValue>)
        requires
            old(self).wf(),
        ensures
            final(self).wf(),
            final(self).spec_params() == old(self).spec_params(),
            final(self).spec_cap() == old(self).spec_cap(),
            match r {
                Some(pv) => old(self)@.contains_key(key@) && pv@ == old(self)@[key@]
                    && final(self)@ == old(self)@.remove(key@) && final(self).spec_len() == old(
                    self,
                ).spec_len() - 1,
                None => !old(self)@.contains_key(key@) && final(self).model() == old(self).model()
                    && final(self)@ == old(self)@ && final(self).spec_len() == old(
                    self,
                ).spec_len(),
            },
    {
        let ghost told = self.model();
        let ghost kv = key@;
        let p = self.params.probe;
        let hb = self.params.hasher_builder;
        match probe_scan(&self.slots, p, &hb, key) {
            ScanOutcome::Found(f, u) => {
                proof {
                    lemma_scan_found(told, p, kv, f as int);
                    lemma_remove(told, p, kv, f as int);
                }
                let mut slot = Slot::Tombstone;
                self.slots.set_and_swap(u, &mut slot);
                proof {
                    lemma_model_update(old(self).slots@, u as int, Slot::Tombstone);
                    assert(self.model() == told.update(u as int, SlotModel::Tombstone));
                    lemma_count_bound(self.model(), self.model().len() as int);
                    assert((self.len - 1) as int * self.params.max_load_den as int <= self.len
                        as int * self.params.max_load_den as int) by (nonlinear_arith)
                        requires
                            self.params.max_load_den as int >= 1,
                            self.len as int >= 1,
                    ;
                }
                self.len = self.len - 1;
                match slot {
                    Slot::Occupied { key: _, value: prior } => {
                        proof {
                            assert(told[u as int] == slot_model(old(self).slots@[u as int]));
                            assert(model_val(told, u as int) == prior@);
                        }
                        Some(prior)
                    },
                    _ => {
                        proof {
                            assert(told[u as int] == slot_model(old(self).slots@[u as int]));
                            assert(false);
                        }
                        None
                    },
                }
            },
            _ => {
                proof {
                    lemma_scan_absent(told, p, kv);
                }
                None
            },
        }
    }
}

/// Law: at every quiescent point the load factor stays within
/// `max_load`: `len * max_load_den <= capacity * max_load_num`, that is,
/// `len / capacity <= max_load`.
pub proof fn lemma_load_factor(idx: Index)
    requires
        idx.wf(),
    ensures
        idx.spec_len() * idx.spec_params().max_load_den as int <= idx.spec_cap()
            * idx.spec_params().max_load_num as int,
        params_valid(idx.spec_params()),
        1 <= idx.spec_cap(),
        0 <= idx.spec_len() < idx.spec_cap(),
{
    lemma_len_below_cap(
        idx.spec_len(),
        idx.spec_cap(),
        idx.spec_params().max_load_num as int,
        idx.spec_params().max_load_den as int,
    );
}

/// In a table counting no entry among its first `n` slots, none of them
/// is filled.
proof fn lemma_count_zero_all_unfilled(t: Seq<SlotModel>, n: int)
    requires
        0 <= n,
        model_count(t, n) == 0,
    ensures
        forall|j: int| 0 <= j < n ==> !((#[trigger] t[j]) is Filled),
    decreases n,
{
    if n > 0 {
        lemma_count_bound(t, n - 1);
        lemma_count_zero_all_unfilled(t, n - 1);
    }
}

/// Replaying unfilled slots migrates nothing.
proof fn lemma_migrate_unfilled(src: Seq<SlotModel>, n: int, dst: Seq<SlotModel>, p: Probe)
    requires
        0 <= n,
        forall|j: int| 0 <= j < n ==> !((#[trigger] src[j]) is Filled),
    ensures
        migrate_spec(src, n, dst, p) == Some(dst),
    decreases n,
{
    if n > 0 {
        lemma_migrate_unfilled(src, n - 1, dst, p);
    }
}

/// Law: a table that holds no entry admits any insert. There is nothing
/// to collide with: the placement walk's first step lands on an
/// unfilled slot, in the table itself and in any rehash the load factor
/// asks for.
pub proof fn lemma_empty_table_admits_insert(idx: Index, k: Seq<u8>, fl: u32, d: Seq<u8>)
    requires
        idx.wf(),
        idx.spec_len() == 0,
    ensures
        !idx.spec_probe_fails(k, fl, d),
{
    let t = idx.model();
    let p = idx.spec_params().probe;
    let cap = idx.spec_cap();
    lemma_count_zero_all_unfilled(t, cap);
    assert(t[probe_slot(p, fnv1(k), 0, cap)] is Filled ==> false);
    assert(scan_free(t, p, k, 0) == Some(0int));
    if idx.spec_needs_grow() && idx.spec_grown_capacity() <= usize::MAX as int {
        let g = idx.spec_grown_capacity();
        assert(g >= cap + 1);
        let vac = vacant_table(g);
        lemma_migrate_unfilled(t, cap, vac, p);
        assert(rehash_spec(t, p, g) == Some(vac));
        assert(!(vac[probe_slot(p, fnv1(k), 0, g)] is Filled));
        assert(scan_free(vac, p, k, 0) == Some(0int));
        assert(place_spec(vac, p, k, fl, d) is Some);
    }
}

/// Law: after an insert the key reads back as the inserted value; a
/// re-insert overwrites it and leaves the set of stored keys — and so,
/// with [`Index::insert`]'s contract, the entry count — unchanged.
pub proof fn lemma_insert_get_round_trip(
    m: Map<Seq<u8>, (u32, Seq<u8>)>,
    k: Seq<u8>,
    v: (u32, Seq<u8>),
    v2: (u32, Seq<u8>),
)
    ensures
        m.insert(k, v)[k] == v,
        m.insert(k, v).contains_key(k),
        m.insert(k, v).insert(k, v2)[k] == v2,
        m.insert(k, v).insert(k, v2).dom() == m.insert(k, v).dom(),
{
    assert(m.insert(k, v).insert(k, v2).dom() =~= m.insert(k, v).dom());
}

/// Law: an insert — whether or not it triggers a rehash, since
/// [`Index::insert`] promises the same map either way — leaves every
/// other key's observable value unchanged.
pub proof fn lemma_insert_preserves_others(
    m: Map<Seq<u8>, (u32, Seq<u8>)>,
    k: Seq<u8>,
    v: (u32, Seq<u8>),
    k2: Seq<u8>,
)
    requires
        k2 != k,
    ensures
        m.insert(k, v).contains_key(k2) == m.contains_key(k2),
        m.contains_key(k2) ==> m.insert(k, v)[k2] == m[k2],
{
}

/// One op of a store history.
pub enum IndexOp {
    Insert { key: Seq<u8>, value: (u32, Seq<u8>) },
    Remove { key: Seq<u8> },
}

/// The key an op touches.
pub open spec fn op_key(op: IndexOp) -> Seq<u8> {
    match op {
        IndexOp::Insert { key, .. } => key,
        IndexOp::Remove { key } => key,
    }
}

/// The map a history of inserts and removes leaves behind, first op
/// first.
pub open spec fn apply_ops(
    m: Map<Seq<u8>, (u32, Seq<u8>)>,
    ops: Seq<IndexOp>,
) -> Map<Seq<u8>, (u32, Seq<u8>)>
    decreases ops.len(),
{
    if ops.len() == 0 {
        m
    } else {
        let applied = apply_ops(m, ops.drop_last());
        match ops.last() {
            IndexOp::Insert { key, value } => applied.insert(key, value),
            IndexOp::Remove { key } => applied.remove(key),
        }
    }
}

/// Law: across any history of inserts and removes, a key whose last
/// touching op is the insert at position `i` reads back as that
/// insert's value. With the contracts of [`Index::insert`] and
/// [`Index::remove`] (the table afterwards is the map `insert`,
/// respectively `remove`, of the table before), this carries to any
/// sequence of calls: `get` returns the value of the key's last
/// `insert`, provided the key was not removed since.
pub proof fn lemma_last_insert_wins(m: Map<Seq<u8>, (u32, Seq<u8>)>, ops: Seq<IndexOp>, i: int)
    requires
        0 <= i < ops.len(),
        ops[i] is Insert,
        forall|j: int| i < j < ops.len() ==> op_key(#[trigger] ops[j]) != op_key(ops[i]),
    ensures
        apply_ops(m, ops).contains_key(op_key(ops[i])),
        apply_ops(m, ops)[op_key(ops[i])] == ops[i]->value,
    decreases ops.len(),
{
    if i < ops.len() - 1 {
        let pre = ops.drop_last();
        assert(pre[i] == ops[i]);
        lemma_last_insert_wins(m, pre, i);
        assert(op_key(ops.last()) != op_key(ops[i]));
    }
}

/// Law: a key whose last touching op is the remove at position `i` is
/// absent afterwards.
pub proof fn lemma_removed_key_stays_gone(m: Map<Seq<u8>, (u32, Seq<u8>)>, ops: Seq<IndexOp>, i: int)
    requires
        0 <= i < ops.len(),
        ops[i] is Remove,
        forall|j: int| i < j < ops.len() ==> op_key(#[trigger] ops[j]) != op_key(ops[i]),
    ensures
        !apply_ops(m, ops).contains_key(op_key(ops[i])),
    decreases ops.len(),
{
    if i < ops.len() - 1 {
        let pre = ops.drop_last();
        assert(pre[i] == ops[i]);
        lemma_removed_key_stays_gone(m, pre, i);
        assert(op_key(ops.last()) != op_key(ops[i]));
    }
}

/// The default parameters, as a spec value.
pub open spec fn default_parameters() -> Parameters {
    Parameters {
        max_load_num: 7,
        max_load_den: 10,
        growth_num: 2,
        growth_den: 1,
        probe: Probe::Quadratic,
        hasher_builder: IndexHasherBuilder,
    }
}

/// The default parameters: maximum load factor 7/10, growth factor 2,
/// quadratic probing, FNV-1 hashing.
pub fn default_parameters_exec() -> (r: Parameters)
    ensures
        r == default_parameters(),
{
    Parameters {
        max_load_num: 7,
        max_load_den: 10,
        growth_num: 2,
        growth_den: 1,
        probe: Probe::Quadratic,
        hasher_builder: IndexHasherBuilder,
    }
}

/// A backing array of `cap` empty slots.
fn empty_slots(cap: usize) -> (r: Vec<Slot>)
    ensures
        r@.len() == cap,
        forall|j: int| 0 <= j < cap ==> table_model(r@)[j] is Vacant,
{
    let mut r: Vec<Slot> = Vec::new();
    let mut i: usize = 0;
    while i < cap
        invariant
            i <= cap,
            r@.len() == i,
            forall|j: int| 0 <= j < i ==> (#[trigger] r@[j]) is Empty,
        decreases cap - i,
    {
        r.push(Slot::Empty);
        i = i + 1;
    }
    proof {
        assert forall|j: int| 0 <= j < cap implies table_model(r@)[j] is Vacant by {
            assert(table_model(r@)[j] == slot_model(r@[j]));
            assert(r@[j] is Empty);
        }
    }
    r
}

/// A table with no filled slot represents the empty map.
proof fn lemma_all_vacant_view(t: Seq<SlotModel>)
    requires
        forall|j: int| 0 <= j < t.len() ==> t[j] is Vacant,
    ensures
        model_view(t) =~= Map::<Seq<u8>, (u32, Seq<u8>)>::empty(),
{
    assert forall|k: Seq<u8>| !(#[trigger] model_view(t).contains_key(k)) by {
        if exists|j: int| filled_at(t, j, k) {
            let j = choose|j: int| filled_at(t, j, k);
            assert(t[j] is Vacant);
        }
    }
}

/// A table with no filled slot counts zero entries.
proof fn lemma_all_vacant_count(t: Seq<SlotModel>, n: int)
    requires
        n <= t.len(),
        forall|j: int| 0 <= j < t.len() ==> t[j] is Vacant,
    ensures
        model_count(t, n) == 0,
    decreases n,
{
    if n > 0 {
        lemma_all_vacant_count(t, n - 1);
    }
}

} // verus!
