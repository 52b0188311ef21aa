//! Sampled heap profiling: which stacks allocate, and what is still live.

use std::collections::HashMap;

use vstd::prelude::*;

use crate::frames::same_addresses;
use crate::MAX_DEPTH;

verus! {

broadcast use vstd::std_specs::hash::group_hash_axioms;

/// The default sampling interval in bytes.
pub const DEFAULT_SAMPLE_RATE: usize = 512 * 1024;

/// The number of parts that the live allocations are kept in.
pub const NUM_SHARDS: usize = 32;

/// The counters of one callsite. They wrap around.
#[derive(Clone, Copy, Debug, PartialEq, Eq, Structural)]
pub struct AllocCounts {
    pub alloc_objects: u64,
    pub alloc_bytes: u64,
    pub inuse_objects: i64,
    pub inuse_bytes: i64,
}

/// The counters of a callsite that was never sampled.
pub open spec fn no_counts() -> AllocCounts {
    AllocCounts { alloc_objects: 0, alloc_bytes: 0, inuse_objects: 0, inuse_bytes: 0 }
}

impl AllocCounts {
    /// The counters after one more allocation of `size` bytes.
    pub open spec fn after_alloc(self, size: usize) -> AllocCounts {
        AllocCounts {
            alloc_objects: self.alloc_objects.wrapping_add(1),
            alloc_bytes: self.alloc_bytes.wrapping_add(size as u64),
            inuse_objects: self.inuse_objects.wrapping_add(1),
            inuse_bytes: self.inuse_bytes.wrapping_add(size as i64),
        }
    }

    /// The counters after an allocation of `size` bytes has been freed.
    pub open spec fn after_free(self, size: usize) -> AllocCounts {
        AllocCounts {
            inuse_objects: self.inuse_objects.wrapping_sub(1),
            inuse_bytes: self.inuse_bytes.wrapping_sub(size as i64),
            ..self
        }
    }
}

/// One part of the live allocations: by address, the callsite and the size.
struct Shard {
    live: HashMap<usize, (u64, usize)>,
}

impl Shard {
    fn new() -> (r: Self)
        ensures
            r.live@ == Map::<usize, (u64, usize)>::empty(),
    {
        Shard { live: HashMap::new() }
    }
}

/// The part that an address belongs to.
pub open spec fn shard_of(ptr: usize) -> int {
    ((ptr >> 4) % NUM_SHARDS) as int
}

fn shard_index(ptr: usize) -> (r: usize)
    ensures
        r == shard_of(ptr),
        r < NUM_SHARDS,
{
    (ptr >> 4) % NUM_SHARDS
}

/// A stack that allocates, with its counters.
struct CallsiteData {
    ips: Vec<usize>,
    counts: AllocCounts,
}

/// The contents of a callsite.
#[verifier::ext_equal]
pub struct SiteView {
    pub ips: Seq<usize>,
    pub counts: AllocCounts,
}

/// What a heap profile holds: the live allocations that were sampled, each with the
/// id of its callsite and its size, and the callsites, of which the one at place `i`
/// has the id `i + 1`.
#[verifier::ext_equal]
pub struct HeapView {
    pub live: Map<usize, (nat, usize)>,
    pub sites: Seq<SiteView>,
}

/// A heap profile.
pub struct HeapState {
    shards: Vec<Shard>,
    callsites: Vec<CallsiteData>,
}

/// A heap profile in which nothing was recorded.
pub open spec fn empty_heap() -> HeapView {
    HeapView { live: Map::empty(), sites: Seq::empty() }
}

impl HeapView {
    /// Whether the callsite at `i` is that of the stack.
    pub open spec fn is_site(self, ips: Seq<usize>, i: int) -> bool {
        0 <= i < self.sites.len() && self.sites[i].ips == ips
    }

    /// Whether the stack has a callsite.
    pub open spec fn has_site(self, ips: Seq<usize>) -> bool {
        exists|i: int| self.is_site(ips, i)
    }

    /// The place of the callsite of the stack; at the end for a new one.
    pub open spec fn site_index(self, ips: Seq<usize>) -> int {
        if self.has_site(ips) {
            choose|i: int| self.is_site(ips, i)
        } else {
            self.sites.len() as int
        }
    }

    /// The callsites after one more sample of the stack.
    pub open spec fn sites_after(self, ips: Seq<usize>, size: usize) -> Seq<SiteView> {
        let i = self.site_index(ips);
        if self.has_site(ips) {
            self.sites.update(
                i,
                SiteView { ips: self.sites[i].ips, counts: self.sites[i].counts.after_alloc(size) },
            )
        } else {
            self.sites.push(SiteView { ips, counts: no_counts().after_alloc(size) })
        }
    }

    /// The profile after an allocation at `ptr` was sampled.
    pub open spec fn sampled(self, ips: Seq<usize>, ptr: usize, size: usize) -> HeapView {
        HeapView {
            live: self.live.insert(ptr, ((self.site_index(ips) + 1) as nat, size)),
            sites: self.sites_after(ips, size),
        }
    }

    /// The profile after the allocation at `ptr` was freed.
    pub open spec fn freed(self, ptr: usize) -> HeapView {
        if self.live.contains_key(ptr) {
            let (id, size) = self.live[ptr];
            let site = self.sites[id - 1];
            HeapView {
                live: self.live.remove(ptr),
                sites: self.sites.update(
                    id - 1,
                    SiteView { ips: site.ips, counts: site.counts.after_free(size) },
                ),
            }
        } else {
            self
        }
    }

    /// The counters of all callsites.
    pub open spec fn counts(self) -> Seq<AllocCounts> {
        Seq::new(self.sites.len(), |i: int| self.sites[i].counts)
    }

    /// Callsites are distinct stacks, none too deep, and every live allocation has one.
    pub open spec fn wf(self) -> bool {
        &&& self.live.dom().finite()
        &&& forall|i: int|
            0 <= i < self.sites.len() ==> (#[trigger] self.sites[i]).ips.len() <= MAX_DEPTH
        &&& forall|i: int, j: int|
            #![trigger self.sites[i], self.sites[j]]
            0 <= i < j < self.sites.len() ==> self.sites[i].ips != self.sites[j].ips
        &&& forall|ptr: usize| #[trigger]
            self.live.contains_key(ptr) ==> 1 <= self.live[ptr].0 <= self.sites.len()
    }
}

/// Sampling keeps a profile well-formed.
pub proof fn law_sampled_wf(h: HeapView, ips: Seq<usize>, ptr: usize, size: usize)
    requires
        h.wf(),
        ips.len() <= MAX_DEPTH,
    ensures
        h.sampled(ips, ptr, size).wf(),
{
    let after = h.sampled(ips, ptr, size);
    let p = h.site_index(ips);
    if h.has_site(ips) {
        assert(h.is_site(ips, p));
        assert forall|i: int| 0 <= i < h.sites.len() implies (#[trigger] after.sites[i]).ips
            == h.sites[i].ips by {}
    }
    assert forall|i: int| 0 <= i < after.sites.len() implies (#[trigger] after.sites[i]).ips.len()
        <= MAX_DEPTH by {
        if i < h.sites.len() {
            assert(h.sites[i].ips.len() <= MAX_DEPTH);
        }
    }
    assert forall|i: int, j: int|
        #![trigger after.sites[i], after.sites[j]]
        0 <= i < j < after.sites.len() implies after.sites[i].ips != after.sites[j].ips by {
        if j < h.sites.len() {
            assert(h.sites[i].ips != h.sites[j].ips);
        } else {
            assert(!h.is_site(ips, i));
        }
    }
    assert forall|q: usize| #[trigger] after.live.contains_key(q) implies 1 <= after.live[q].0
        <= after.sites.len() by {
        if q != ptr {
            assert(h.live.contains_key(q));
        }
    }
}

/// Freeing keeps a profile well-formed.
pub proof fn law_freed_wf(h: HeapView, ptr: usize)
    requires
        h.wf(),
    ensures
        h.freed(ptr).wf(),
{
    if h.live.contains_key(ptr) {
        let after = h.freed(ptr);
        assert forall|i: int| 0 <= i < after.sites.len() implies (
        #[trigger] after.sites[i]).ips.len() <= MAX_DEPTH by {
            assert(h.sites[i].ips.len() <= MAX_DEPTH);
        }
        assert forall|i: int, j: int|
            #![trigger after.sites[i], after.sites[j]]
            0 <= i < j < after.sites.len() implies after.sites[i].ips != after.sites[j].ips by {
            assert(h.sites[i].ips != h.sites[j].ips);
        }
        assert forall|q: usize| #[trigger] after.live.contains_key(q) implies 1 <= after.live[q].0
            <= after.sites.len() by {
            assert(h.live.contains_key(q));
        }
    }
}

impl View for HeapState {
    type V = HeapView;

    closed spec fn view(&self) -> HeapView {
        HeapView {
            live: Map::new(
                |ptr: usize| self.shards@[shard_of(ptr)].live@.contains_key(ptr),
                |ptr: usize|
                    (
                        self.shards@[shard_of(ptr)].live@[ptr].0 as nat,
                        self.shards@[shard_of(ptr)].live@[ptr].1,
                    ),
            ),
            sites: Seq::new(
                self.callsites@.len(),
                |i: int|
                    SiteView { ips: self.callsites@[i].ips@, counts: self.callsites@[i].counts },
            ),
        }
    }
}

impl HeapState {
    /// The live allocations are kept in the fixed number of parts.
    pub closed spec fn sharded(&self) -> bool {
        self.shards@.len() == NUM_SHARDS
    }

    pub open spec fn wf(&self) -> bool {
        self.sharded() && self@.wf()
    }

    /// A profile in which nothing was recorded.
    pub fn new() -> (r: Self)
        ensures
            r.wf(),
            r@ == empty_heap(),
    {
        let mut shards: Vec<Shard> = Vec::new();
        let mut i: usize = 0;
        while i < NUM_SHARDS
            invariant
                i <= NUM_SHARDS,
                shards@.len() == i,
                forall|k: int|
                    0 <= k < i ==> (#[trigger] shards@[k]).live@ == Map::<
                        usize,
                        (u64, usize),
                    >::empty(),
            decreases NUM_SHARDS - i,
        {
            shards.push(Shard::new());
            i += 1;
        }
        let r = HeapState { shards, callsites: Vec::new() };
        assert(r@.live =~= Map::empty());
        assert(r@ =~= empty_heap());
        r
    }

    /// Forgets everything that was recorded.
    pub fn reset(&mut self)
        requires
            old(self).wf(),
        ensures
            final(self).wf(),
            final(self)@ == empty_heap(),
    {
        let mut i: usize = 0;
        while i < self.shards.len()
            invariant
                self.shards@.len() == NUM_SHARDS,
                i <= NUM_SHARDS,
                forall|k: int|
                    0 <= k < i ==> (#[trigger] self.shards@[k]).live@ == Map::<
                        usize,
                        (u64, usize),
                    >::empty(),
            decreases NUM_SHARDS - i,
        {
            self.shards[i].live.clear();
            i += 1;
        }
        self.callsites.clear();
        assert(self@.live =~= Map::empty());
        assert(self@ =~= empty_heap());
    }

    /// The number of callsites.
    pub fn site_count(&self) -> (r: usize)
        ensures
            r == self@.sites.len(),
    {
        self.callsites.len()
    }

    /// The addresses of the callsite at place `i`.
    pub fn site_ips(&self, i: usize) -> (r: &Vec<usize>)
        requires
            i < self@.sites.len(),
        ensures
            r@ == self@.sites[i as int].ips,
    {
        &self.callsites[i].ips
    }

    /// The counters of the callsite at place `i`.
    pub fn site_counts(&self, i: usize) -> (r: AllocCounts)
        requires
            i < self@.sites.len(),
        ensures
            r == self@.sites[i as int].counts,
    {
        self.callsites[i].counts
    }

    /// The place of the callsite of the stack.
    fn find_site(&self, ips: &Vec<usize>) -> (r: Option<usize>)
        requires
            self.wf(),
        ensures
            r is Some <==> self@.has_site(ips@),
            r matches Some(i) ==> i < self.callsites@.len() && i == self@.site_index(ips@),
    {
        let mut i: usize = 0;
        while i < self.callsites.len()
            invariant
                self.wf(),
                i <= self.callsites@.len(),
                forall|k: int| 0 <= k < i ==> !#[trigger] self@.is_site(ips@, k),
            decreases self.callsites@.len() - i,
        {
            if same_addresses(&self.callsites[i].ips, ips) {
                proof {
                    assert(self@.is_site(ips@, i as int));
                    let p = self@.site_index(ips@);
                    assert(self@.is_site(ips@, p));
                    if p < i {
                        assert(self@.sites[p].ips != self@.sites[i as int].ips);
                    } else if i < p {
                        assert(self@.sites[i as int].ips != self@.sites[p].ips);
                    }
                }
                return Some(i);
            }
            assert(!self@.is_site(ips@, i as int));
            i += 1;
        }
        None
    }

    /// Records a sampled allocation at `ptr`, made by the stack `ips`.
    pub fn record_sample_of(&mut self, ips: Vec<usize>, ptr: usize, size: usize)
        requires
            old(self).wf(),
            ips@.len() <= MAX_DEPTH,
        ensures
            final(self).wf(),
            final(self)@ == old(self)@.sampled(ips@, ptr, size),
    {
        let ghost before = self@;
        let place: usize = match self.find_site(&ips) {
            Some(i) => i,
            None => {
                self.callsites.push(
                    CallsiteData {
                        ips,
                        counts: AllocCounts {
                            alloc_objects: 0,
                            alloc_bytes: 0,
                            inuse_objects: 0,
                            inuse_bytes: 0,
                        },
                    },
                );
                self.callsites.len() - 1
            },
        };
        let counts: AllocCounts = self.callsites[place].counts;
        self.callsites[place].counts = AllocCounts {
            alloc_objects: counts.alloc_objects.wrapping_add(1),
            alloc_bytes: counts.alloc_bytes.wrapping_add(size as u64),
            inuse_objects: counts.inuse_objects.wrapping_add(1),
            inuse_bytes: counts.inuse_bytes.wrapping_add(size as i64),
        };
        let shard: usize = shard_index(ptr);
        assert(place < self.callsites.len());
        self.shards[shard].live.insert(ptr, (place as u64 + 1, size));
        proof {
            assert(self@ =~= before.sampled(ips@, ptr, size));
            law_sampled_wf(before, ips@, ptr, size);
        }
    }

    /// Records that the allocation at `ptr` is freed, if it was sampled.
    pub fn record_dealloc(&mut self, ptr: usize)
        requires
            old(self).wf(),
        ensures
            final(self).wf(),
            final(self)@ == old(self)@.freed(ptr),
    {
        let ghost before = self@;
        let shard: usize = shard_index(ptr);
        let removed = self.shards[shard].live.remove(&ptr);
        match removed {
            Some((id, size)) => {
                assert(before.live.contains_key(ptr));
                assert(self.callsites.len() == before.sites.len());
                let place: usize = (id - 1) as usize;
                let counts: AllocCounts = self.callsites[place].counts;
                self.callsites[place].counts = AllocCounts {
                    alloc_objects: counts.alloc_objects,
                    alloc_bytes: counts.alloc_bytes,
                    inuse_objects: counts.inuse_objects.wrapping_sub(1),
                    inuse_bytes: counts.inuse_bytes.wrapping_sub(size as i64),
                };
                assert(before.live[ptr] == (id as nat, size));
                assert(self@.live =~= before.live.remove(ptr));
                assert(self@.sites =~= before.freed(ptr).sites);
            },
            None => {
                assert(!before.live.contains_key(ptr));
                assert(self@.live =~= before.live);
                assert(self@.sites =~= before.sites);
            },
        }
        proof {
            assert(self@ =~= before.freed(ptr));
            law_freed_wf(before, ptr);
        }
    }
}

} // verus!
