use vstd::prelude::*;
use crate::address::{
    level0_index, level1_index, level2_index, lemma_indices, vpn_key, PhysicalPageNumber,
    VirtualPageNumber, ENTRIES_PER_TABLE, PPN_LIMIT, VPN_SPAN, in_window, lemma_window,
};
use crate::segment::{MapType, Range, Segment};
use crate::entry::{lemma_entry_fields, with_valid, Flags, PageTableEntry, VALID};
use crate::frame::{FrameAllocator, FrameTracker, MemoryError};

verus! {

/// Ownership of one frame used as a page-table node, with the node's place
/// in the tree: its level (0 for the root) and the virtual-page-number prefix
/// that it translates.
pub struct PageTableTracker {
    frame: FrameTracker,
    level: u64,
    prefix: u64,
}

/// The page tables of one address space.
///
/// The nodes' contents live in `entries`: node `i` of `page_tables` owns
/// `entries[512 * i .. 512 * i + 512]`.
pub struct Mapping {
    page_tables: Vec<PageTableTracker>,
    entries: Vec<PageTableEntry>,
    root_ppn: PhysicalPageNumber,
}

/// Every stored entry is well formed, and either the zero word or valid.
pub open spec fn entry_ok(e: PageTableEntry) -> bool {
    e.wf() && (e.bits == 0 || e.spec_is_valid())
}

/// What `find_entry` guarantees, from the mapping and allocator before the
/// call to those after it.
pub open spec fn walked(
    m0: Mapping,
    a0: FrameAllocator,
    m1: Mapping,
    a1: FrameAllocator,
    vpn: nat,
    r: Result<usize, MemoryError>,
) -> bool {
    &&& m1.wf()
    &&& a1.wf()
    &&& m1.owns_none_of(a1)
    &&& m0.kept_in(m1)
    &&& m0.same_translation(m1)
    &&& a1.spec_start() == a0.spec_start()
    &&& a1.spec_end() == a0.spec_end()
    &&& a1.free_set().subset_of(a0.free_set())
    &&& m0.fresh_in(m1, a0)
    &&& r is Ok <==> a0.free_count() >= m0.missing_tables(vpn)
    &&& m0.has_leaf(vpn) ==> m1 == m0 && a1 == a0
    &&& r matches Ok(pos) ==> {
        &&& m1.has_leaf(vpn)
        &&& pos == m1.leaf_position(vpn)
        &&& 0 <= pos < m1.arena_len()
        &&& m1.spec_entry_at(pos as int) == m1.entry_of(vpn)
        &&& a1.free_count() + m0.missing_tables(vpn) == a0.free_count()
        &&& m1.len() == m0.len() + m0.missing_tables(vpn)
    }
}

/// `m1` translates the page of `vpn` by `e` and every other page as `m0`.
pub open spec fn rewritten(m0: Mapping, m1: Mapping, vpn: nat, e: PageTableEntry) -> bool {
    forall|v: nat| #[trigger] m1.entry_of(v) == (if vpn_key(v) == vpn_key(vpn) { e } else { m0.entry_of(v) })
}

/// What `map_one` and `swap_in` guarantee when they install `e` for `vpn`.
pub open spec fn installed(
    m0: Mapping,
    a0: FrameAllocator,
    m1: Mapping,
    a1: FrameAllocator,
    vpn: nat,
    e: PageTableEntry,
    r: Result<(), MemoryError>,
) -> bool {
    &&& m1.wf()
    &&& a1.wf()
    &&& m1.owns_none_of(a1)
    &&& m0.kept_in(m1)
    &&& a1.spec_start() == a0.spec_start()
    &&& a1.spec_end() == a0.spec_end()
    &&& a1.free_set().subset_of(a0.free_set())
    &&& m0.fresh_in(m1, a0)
    &&& r is Ok <==> a0.free_count() >= m0.missing_tables(vpn)
    &&& r is Ok ==> rewritten(m0, m1, vpn, e) && a1.free_count() + m0.missing_tables(vpn) == a0.free_count()
    &&& r is Err ==> m0.same_translation(m1)
}

/// How many frames `map` hands out for `segment` with budget `limit`.
pub open spec fn frames_wanted(segment: Segment, limit: nat) -> nat {
    match segment.map_type {
        MapType::Linear => 0,
        MapType::Framed => if segment.page_range.spec_len() <= limit { segment.page_range.spec_len() } else { limit },
    }
}

/// A page of `segment` after `map` gave up: still empty, or mapped as the
/// segment asks.
pub open spec fn partly_mapped(segment: Segment, m: Mapping, v: nat) -> bool {
    ||| m.entry_of(v) == empty_entry()
    ||| (segment.map_type == MapType::Linear && m.entry_of(v) == PageTableEntry::spec_new(v, with_valid(segment.flags.0)))
    ||| (segment.map_type == MapType::Framed && m.entry_of(v).spec_is_valid())
}

/// Outside a window, outside every smaller one.
proof fn lemma_window_grow(start: nat, i: nat, n: nat, v: nat)
    requires
        i <= n,
        !in_window(start, n, v),
    ensures
        !in_window(start, i, v),
{
}

/// Freeing fewer frames keeps a mapping's nodes out of the free set.
proof fn lemma_owns_shrink(m: Mapping, a: FrameAllocator, b: FrameAllocator)
    requires
        m.owns_none_of(a),
        b.free_set().subset_of(a.free_set()),
        b.spec_start() == a.spec_start(),
        b.spec_end() == a.spec_end(),
    ensures
        m.owns_none_of(b),
{
    assert forall|i: int| 0 <= i < m.len() implies {
        &&& !b.free_set().contains(#[trigger] m.tppn(i))
        &&& b.spec_start() <= m.tppn(i) < b.spec_end()
    } by {
        assert(!a.free_set().contains(m.tppn(i)));
    }
}

/// The empty sentinel entry.
pub open spec fn empty_entry() -> PageTableEntry {
    PageTableEntry { bits: 0 }
}

/// Keeping nodes in place is transitive.
proof fn lemma_kept_trans(a: Mapping, b: Mapping, c: Mapping)
    requires
        a.kept_in(b),
        b.kept_in(c),
    ensures
        a.kept_in(c),
{
    assert forall|i: int| 0 <= i < a.len() implies {
        &&& #[trigger] c.tppn(i) == a.tppn(i)
        &&& c.lvl(i) == a.lvl(i)
        &&& c.pfx(i) == a.pfx(i)
    } by {
        assert(b.tppn(i) == a.tppn(i));
        assert(c.tppn(i) == b.tppn(i));
    }
}

/// Fresh nodes of two steps came from frames free before the first.
proof fn lemma_fresh_trans(a: Mapping, b: Mapping, c: Mapping, fa: FrameAllocator, fb: FrameAllocator)
    requires
        a.kept_in(b),
        b.kept_in(c),
        a.fresh_in(b, fa),
        b.fresh_in(c, fb),
        fb.free_set().subset_of(fa.free_set()),
    ensures
        a.fresh_in(c, fa),
{
    assert forall|i: int| a.len() <= i < c.len() implies fa.free_set().contains(#[trigger] c.tppn(i)) by {
        if i < b.len() {
            assert(c.tppn(i) == b.tppn(i));
        } else {
            assert(fb.free_set().contains(c.tppn(i)));
        }
    }
}

impl Mapping {
    pub closed spec fn len(self) -> int {
        self.page_tables@.len() as int
    }

    pub closed spec fn tppn(self, i: int) -> nat {
        self.page_tables@[i].frame.spec_ppn()
    }

    pub closed spec fn lvl(self, i: int) -> nat {
        self.page_tables@[i].level as nat
    }

    pub closed spec fn pfx(self, i: int) -> nat {
        self.page_tables@[i].prefix as nat
    }

    pub closed spec fn slot(self, i: int, k: int) -> PageTableEntry {
        self.entries@[512 * i + k]
    }

    /// Some node sits at level `l` with prefix `p`.
    pub closed spec fn has_table(self, l: nat, p: nat) -> bool {
        exists|j: int| 0 <= j < self.len() && self.lvl(j) == l && self.pfx(j) == p
    }

    /// The node at level `l` with prefix `p`.
    pub closed spec fn table_index(self, l: nat, p: nat) -> int {
        choose|j: int| 0 <= j < self.len() && self.lvl(j) == l && self.pfx(j) == p
    }

    /// The physical page number of the root table.
    pub closed spec fn spec_root(self) -> nat {
        self.root_ppn@
    }

    /// The physical pages that hold this mapping's nodes.
    pub closed spec fn table_frames(self) -> Set<nat> {
        Set::new(|p: nat| exists|i: int| 0 <= i < self.len() && self.tppn(i) == p)
    }

    /// Node `i` is placed consistently in the tree.
    pub closed spec fn table_ok(self, i: int) -> bool {
        &&& self.lvl(i) <= 2
        &&& self.lvl(i) == 0 ==> self.pfx(i) == 0
        &&& self.lvl(i) == 1 ==> self.pfx(i) < 512
        &&& self.lvl(i) == 2 ==> self.pfx(i) < 0x40000
        &&& self.tppn(i) < PPN_LIMIT
        &&& self.lvl(i) >= 1 ==> self.has_table((self.lvl(i) - 1) as nat, self.pfx(i) / 512)
    }

    /// Entry `k` of interior node `i` is empty exactly when no child exists
    /// for it, and otherwise points to that child.
    pub closed spec fn link_ok(self, i: int, k: int) -> bool {
        let l = (self.lvl(i) + 1) as nat;
        let p = self.pfx(i) * 512 + k;
        &&& !self.slot(i, k).spec_is_empty() <==> self.has_table(l, p as nat)
        &&& !self.slot(i, k).spec_is_empty() ==> {
            &&& self.slot(i, k).spec_is_valid()
            &&& self.slot(i, k).spec_ppn() == self.tppn(self.table_index(l, p as nat))
        }
    }

    /// The mapping's invariant.
    pub closed spec fn wf(self) -> bool {
        &&& self.len() >= 1
        &&& self.entries@.len() == 512 * self.len()
        &&& self.tppn(0) == self.root_ppn@
        &&& self.lvl(0) == 0
        &&& forall|i: int| 0 <= i < self.len() ==> #[trigger] self.table_ok(i)
        &&& forall|i: int, j: int|
            0 <= i < self.len() && 0 <= j < self.len() && i != j ==> {
                &&& #[trigger] self.tppn(i) != #[trigger] self.tppn(j)
                &&& (self.lvl(i) != self.lvl(j) || self.pfx(i) != self.pfx(j))
            }
        &&& forall|q: int| 0 <= q < self.entries@.len() ==> #[trigger] entry_ok(self.entries@[q])
        &&& forall|i: int, k: int|
            0 <= i < self.len() && 0 <= k < 512 && self.lvl(i) < 2 ==> #[trigger] self.link_ok(i, k)
    }

    /// Every node of this mapping lies in `alloc`'s range and is not free there.
    pub closed spec fn owns_none_of(self, alloc: FrameAllocator) -> bool {
        forall|i: int| 0 <= i < self.len() ==> {
            &&& !alloc.free_set().contains(#[trigger] self.tppn(i))
            &&& alloc.spec_start() <= self.tppn(i) < alloc.spec_end()
        }
    }

    /// `later` keeps every node of `self`, in place.
    pub closed spec fn kept_in(self, later: Mapping) -> bool {
        &&& self.len() <= later.len()
        &&& self.root_ppn == later.root_ppn
        &&& forall|i: int| 0 <= i < self.len() ==> {
            &&& #[trigger] later.tppn(i) == self.tppn(i)
            &&& later.lvl(i) == self.lvl(i)
            &&& later.pfx(i) == self.pfx(i)
        }
    }

    /// The nodes that `later` has beyond those of `self` came from frames
    /// that were free in `alloc`.
    pub closed spec fn fresh_in(self, later: Mapping, alloc: FrameAllocator) -> bool {
        forall|i: int| self.len() <= i < later.len() ==> alloc.free_set().contains(#[trigger] later.tppn(i))
    }

    /// The physical pages of the nodes from position `lo` on.
    pub closed spec fn frames_from(self, lo: int) -> Set<nat> {
        Set::new(|p: nat| exists|i: int| lo <= i < self.len() && self.tppn(i) == p)
    }

    /// The leaf table for `vpn` exists.
    pub closed spec fn has_leaf(self, vpn: nat) -> bool {
        self.has_table(2, vpn_key(vpn) / 512)
    }

    /// Where the leaf entry for `vpn` sits in the node arena.
    pub closed spec fn leaf_position(self, vpn: nat) -> int {
        512 * self.table_index(2, vpn_key(vpn) / 512) + level2_index(vpn)
    }

    /// The translation of `vpn`: its leaf entry, or the empty entry where the
    /// walk stops before the leaf level.
    pub closed spec fn entry_of(self, vpn: nat) -> PageTableEntry {
        if self.has_leaf(vpn) {
            self.entries@[self.leaf_position(vpn)]
        } else {
            empty_entry()
        }
    }

    /// How many nodes a walk for `vpn` would still have to create.
    pub closed spec fn missing_tables(self, vpn: nat) -> nat {
        if self.has_leaf(vpn) {
            0
        } else if self.has_table(1, level0_index(vpn)) {
            1
        } else {
            2
        }
    }

    /// Same translation for every virtual page.
    pub open spec fn same_translation(self, other: Mapping) -> bool {
        forall|v: nat| #[trigger] other.entry_of(v) == self.entry_of(v)
    }

    proof fn lemma_index(self, l: nat, p: nat)
        requires
            self.has_table(l, p),
        ensures
            0 <= self.table_index(l, p) < self.len(),
            self.lvl(self.table_index(l, p)) == l,
            self.pfx(self.table_index(l, p)) == p,
    {
    }

    /// An empty mapping with just a root table.
    pub fn new(alloc: &mut FrameAllocator) -> (r: Result<Mapping, MemoryError>)
        requires
            old(alloc).wf(),
        ensures
            final(alloc).wf(),
            final(alloc).spec_start() == old(alloc).spec_start(),
            final(alloc).spec_end() == old(alloc).spec_end(),
            final(alloc).free_set().subset_of(old(alloc).free_set()),
            r is Err <==> old(alloc).free_count() == 0,
            r is Err ==> *final(alloc) == *old(alloc),
            r matches Ok(m) ==> {
                &&& m.wf()
                &&& m.len() == 1
                &&& m.owns_none_of(*final(alloc))
                &&& old(alloc).free_set().contains(m.spec_root())
                &&& final(alloc).free_set() == old(alloc).free_set().remove(m.spec_root())
                &&& final(alloc).free_count() + 1 == old(alloc).free_count()
                &&& forall|v: nat| #[trigger] m.entry_of(v) == empty_entry()
            },
    {
        let frame = match alloc.allocate() {
            Ok(f) => f,
            Err(e) => return Err(e),
        };
        let root_ppn = frame.page_number();
        proof {
            old(alloc).lemma_free_in_range(root_ppn@);
        }
        let mut entries: Vec<PageTableEntry> = Vec::new();
        let mut i: usize = 0;
        while i < ENTRIES_PER_TABLE
            invariant
                i <= 512,
                entries@.len() == i,
                forall|q: int| 0 <= q < i ==> #[trigger] entries@[q] == empty_entry(),
            decreases 512 - i,
        {
            entries.push(PageTableEntry::empty());
            i = i + 1;
        }
        let mut page_tables: Vec<PageTableTracker> = Vec::new();
        page_tables.push(PageTableTracker { frame, level: 0, prefix: 0 });
        let m = Mapping { page_tables, entries, root_ppn };
        proof {
            assert forall|i: int, k: int|
                0 <= i < m.len() && 0 <= k < 512 && m.lvl(i) < 2 implies #[trigger] m.link_ok(i, k) by {
                assert(m.slot(i, k) == empty_entry());
                if m.has_table((m.lvl(i) + 1) as nat, (m.pfx(i) * 512 + k) as nat) {
                    let j = m.table_index((m.lvl(i) + 1) as nat, (m.pfx(i) * 512 + k) as nat);
                    assert(j == 0);
                }
            }
            assert forall|i: int| 0 <= i < m.len() implies #[trigger] m.table_ok(i) by {
                lemma_entry_fields(0, 0);
            }
            assert forall|q: int| 0 <= q < m.entries@.len() implies #[trigger] entry_ok(m.entries@[q]) by {
                lemma_entry_fields(0, 0);
                assert(m.entries@[q] == PageTableEntry::spec_new(0, 0));
            }
            assert forall|v: nat| #[trigger] m.entry_of(v) == empty_entry() by {
                if m.has_leaf(v) {
                    let j = m.table_index(2, vpn_key(v) / 512);
                    assert(j == 0);
                }
            }
        }
        Ok(m)
    }

    /// The node that lives in physical page `ppn`.
    fn find_table(&self, ppn: PhysicalPageNumber) -> (r: usize)
        requires
            self.wf(),
            exists|i: int| 0 <= i < self.len() && self.tppn(i) == ppn@,
        ensures
            r < self.len(),
            self.tppn(r as int) == ppn@,
    {
        let mut i: usize = 0;
        while i < self.page_tables.len()
            invariant
                self.wf(),
                exists|j: int| i <= j < self.len() && self.tppn(j) == ppn@,
            decreases self.page_tables.len() - i,
        {
            if self.page_tables[i].frame.page_number().0 == ppn.0 {
                return i;
            }
            i = i + 1;
        }
        proof {
            let j = choose|j: int| i <= j < self.len() && self.tppn(j) == ppn@;
        }
        0
    }

    /// The child of node `parent` under its entry `k`, created when absent.
    fn child(&mut self, alloc: &mut FrameAllocator, parent: usize, k: usize) -> (r: Result<usize, MemoryError>)
        requires
            old(self).wf(),
            old(alloc).wf(),
            old(self).owns_none_of(*old(alloc)),
            parent < old(self).len(),
            old(self).lvl(parent as int) < 2,
            k < 512,
        ensures
            final(self).wf(),
            final(alloc).wf(),
            final(self).owns_none_of(*final(alloc)),
            old(self).kept_in(*final(self)),
            old(self).same_translation(*final(self)),
            final(alloc).spec_start() == old(alloc).spec_start(),
            final(alloc).spec_end() == old(alloc).spec_end(),
            final(alloc).free_set().subset_of(old(alloc).free_set()),
            old(self).fresh_in(*final(self), *old(alloc)),
            ({
                let l = (old(self).lvl(parent as int) + 1) as nat;
                let p = (old(self).pfx(parent as int) * 512 + k) as nat;
                &&& old(self).has_table(l, p) ==> *final(self) == *old(self) && *final(alloc) == *old(alloc) && r is Ok
                &&& !old(self).has_table(l, p) ==> (r is Ok <==> old(alloc).free_count() > 0)
                &&& !old(self).has_table(l, p) && r is Ok ==> final(alloc).free_count() + 1 == old(alloc).free_count()
                    && final(self).len() == old(self).len() + 1
                &&& r is Err ==> *final(self) == *old(self) && *final(alloc) == *old(alloc)
                &&& r matches Ok(c) ==> final(self).has_table(l, p) && c == final(self).table_index(l, p)
                &&& forall|l2: nat, p2: nat| #[trigger] final(self).has_table(l2, p2) ==
                    (old(self).has_table(l2, p2) || (r is Ok && l2 == l && p2 == p))
            }),
    {
        let ghost s0 = *self;
        let ghost l = (s0.lvl(parent as int) + 1) as nat;
        let ghost p = (s0.pfx(parent as int) * 512 + k) as nat;
        let total = self.entries.len();
        assert(512 * parent + k < total) by (nonlinear_arith)
            requires parent < s0.len(), k < 512, total == 512 * s0.len();
        let pos = ENTRIES_PER_TABLE * parent + k;
        assert(s0.link_ok(parent as int, k as int));
        assert(s0.table_ok(parent as int));
        let e = self.entries[pos];
        if !e.is_empty() {
            proof {
                s0.lemma_index(l, p);
            }
            let c = self.find_table(e.page_number());
            proof {
                let t = s0.table_index(l, p);
                if c as int != t {
                    assert(s0.tppn(c as int) != s0.tppn(t));
                }
            }
            return Ok(c);
        }
        let frame = match alloc.allocate() {
            Ok(f) => f,
            Err(e) => return Err(e),
        };
        let ppn = frame.page_number();
        let level = self.page_tables[parent].level + 1;
        let prefix = self.page_tables[parent].prefix * 512 + k as u64;
        let n = self.page_tables.len();
        self.page_tables.push(PageTableTracker { frame, level, prefix });
        let ghost pt = self.page_tables@;
        let mut i: usize = 0;
        while i < ENTRIES_PER_TABLE
            invariant
                i <= 512,
                self.page_tables@ == pt,
                self.root_ppn == s0.root_ppn,
                self.entries@.len() == 512 * n + i,
                forall|q: int| 0 <= q < 512 * n ==> #[trigger] self.entries@[q] == s0.entries@[q],
                forall|q: int| 512 * n <= q < 512 * n + i ==> #[trigger] self.entries@[q] == empty_entry(),
            decreases 512 - i,
        {
            self.entries.push(PageTableEntry::empty());
            i = i + 1;
        }
        self.entries.set(pos, PageTableEntry::new(ppn, Flags(VALID)));
        proof {
            self.lemma_grown(s0, *old(alloc), *alloc, parent as int, k as int);
        }
        Ok(n)
    }

    /// The state after `child` appended a node under entry `k` of `parent`
    /// keeps the invariant and every translation.
    #[verifier::spinoff_prover]
    #[verifier::rlimit(40)]
    proof fn lemma_grown(self, s0: Mapping, a0: FrameAllocator, a1: FrameAllocator, parent: int, k: int)
        requires
            s0.wf(),
            a0.wf(),
            s0.owns_none_of(a0),
            0 <= parent < s0.len(),
            s0.lvl(parent) < 2,
            0 <= k < 512,
            s0.slot(parent, k).spec_is_empty(),
            self.len() == s0.len() + 1,
            self.root_ppn == s0.root_ppn,
            forall|i: int| 0 <= i < s0.len() ==> #[trigger] self.page_tables@[i] == s0.page_tables@[i],
            self.lvl(s0.len()) == s0.lvl(parent) + 1,
            self.pfx(s0.len()) == s0.pfx(parent) * 512 + k,
            a0.free_set().contains(self.tppn(s0.len())),
            a1.free_set() == a0.free_set().remove(self.tppn(s0.len())),
            a1.spec_start() == a0.spec_start(),
            a1.spec_end() == a0.spec_end(),
            self.tppn(s0.len()) < PPN_LIMIT,
            self.entries@.len() == 512 * self.len(),
            forall|q: int| 0 <= q < 512 * s0.len() && q != 512 * parent + k ==> #[trigger] self.entries@[q] == s0.entries@[q],
            forall|q: int| 512 * s0.len() <= q < 512 * self.len() ==> #[trigger] self.entries@[q] == empty_entry(),
            self.entries@[512 * parent + k] == PageTableEntry::spec_new(self.tppn(s0.len()), VALID),
        ensures
            self.wf(),
            self.owns_none_of(a1),
            s0.kept_in(self),
            s0.same_translation(self),
            self.has_table(self.lvl(s0.len()), self.pfx(s0.len())),
            self.table_index(self.lvl(s0.len()), self.pfx(s0.len())) == s0.len(),
            forall|l2: nat, p2: nat| #[trigger] self.has_table(l2, p2) ==
                (s0.has_table(l2, p2) || (l2 == self.lvl(s0.len()) && p2 == self.pfx(s0.len()))),
    {
        let n = s0.len();
        let l = self.lvl(n);
        let p = self.pfx(n);
        lemma_entry_fields(self.tppn(n), VALID);
        lemma_entry_fields(0, 0);
        assert(s0.link_ok(parent, k));
        assert(s0.table_ok(parent));
        assert(!s0.has_table(l, p));
        // Old nodes keep their fields.
        assert forall|i: int| 0 <= i < n implies #[trigger] self.tppn(i) == s0.tppn(i) && self.lvl(i) == s0.lvl(i) && self.pfx(i) == s0.pfx(i) by {
            assert(self.page_tables@[i] == s0.page_tables@[i]);
        }
        // Presence of nodes: only (l, p) is new.
        assert forall|l2: nat, p2: nat| #[trigger] self.has_table(l2, p2) == (s0.has_table(l2, p2) || (l2 == l && p2 == p)) by {
            if s0.has_table(l2, p2) {
                let j = s0.table_index(l2, p2);
                assert(self.lvl(j) == l2 && self.pfx(j) == p2);
            }
            if self.has_table(l2, p2) && !(l2 == l && p2 == p) {
                let j = self.table_index(l2, p2);
                assert(j != n);
                assert(s0.lvl(j) == l2 && s0.pfx(j) == p2);
            }
        }
        // Distinct frames and places.
        assert forall|i: int, j: int| 0 <= i < self.len() && 0 <= j < self.len() && i != j implies {
            &&& #[trigger] self.tppn(i) != #[trigger] self.tppn(j)
            &&& (self.lvl(i) != self.lvl(j) || self.pfx(i) != self.pfx(j))
        } by {
            if i == n {
                assert(!a0.free_set().contains(s0.tppn(j)));
                if self.lvl(j) == l && self.pfx(j) == p {
                    assert(s0.has_table(l, p));
                }
            } else if j == n {
                assert(!a0.free_set().contains(s0.tppn(i)));
                if self.lvl(i) == l && self.pfx(i) == p {
                    assert(s0.has_table(l, p));
                }
            } else {
                assert(s0.tppn(i) != s0.tppn(j));
            }
        }
        // Where an old node was the one chosen for a place, it still is.
        assert forall|l2: nat, p2: nat| s0.has_table(l2, p2) implies #[trigger] self.table_index(l2, p2) == s0.table_index(l2, p2) by {
            let j = s0.table_index(l2, p2);
            let t = self.table_index(l2, p2);
            assert(self.lvl(j) == l2 && self.pfx(j) == p2);
            if t != j {
                assert(self.tppn(t) != self.tppn(j));
            }
        }
        assert(self.table_index(l, p) == n) by {
            let t = self.table_index(l, p);
            assert(self.has_table(l, p));
            if t != n {
                assert(self.tppn(t) != self.tppn(n));
            }
        }
        assert forall|i: int| 0 <= i < self.len() implies #[trigger] self.table_ok(i) by {
            if i == n {
                assert(s0.table_ok(parent));
                assert(self.lvl(parent) == s0.lvl(parent) && self.pfx(parent) == s0.pfx(parent));
                assert(p / 512 == s0.pfx(parent)) by (nonlinear_arith)
                    requires p == s0.pfx(parent) * 512 + k, 0 <= k < 512;
                assert(s0.has_table(s0.lvl(parent), s0.pfx(parent))) by {
                    assert(s0.lvl(parent) == s0.lvl(parent));
                }
            } else {
                assert(s0.table_ok(i));
            }
        }
        assert forall|q: int| 0 <= q < self.entries@.len() implies #[trigger] entry_ok(self.entries@[q]) by {
            if q < 512 * n && q != 512 * parent + k {
                assert(self.entries@[q] == s0.entries@[q]);
                assert(entry_ok(s0.entries@[q]));
            } else if q == 512 * parent + k {
                assert(self.entries@[q].spec_is_valid());
            } else {
                assert(self.entries@[q] == empty_entry());
            }
        }
        assert forall|i: int, k2: int| 0 <= i < self.len() && 0 <= k2 < 512 && self.lvl(i) < 2 implies #[trigger] self.link_ok(i, k2) by {
            let l2 = (self.lvl(i) + 1) as nat;
            let p2 = (self.pfx(i) * 512 + k2) as nat;
            if i == n {
                assert(self.slot(i, k2) == empty_entry());
                if self.has_table(l2, p2) {
                    let j = self.table_index(l2, p2);
                    assert(j != n);
                    assert(s0.table_ok(j));
                    assert(p2 / 512 == p) by (nonlinear_arith)
                        requires p2 == p * 512 + k2, 0 <= k2 < 512;
                    assert(s0.lvl(j) == l2 && s0.pfx(j) == p2);
                    assert(s0.has_table(l, p));
                }
            } else if i == parent && k2 == k {
            } else {
                assert(s0.link_ok(i, k2));
                assert(512 * i + k2 != 512 * parent + k);
                assert(self.slot(i, k2) == s0.slot(i, k2));
                if l2 == l && p2 == p {
                    assert(self.pfx(i) == s0.pfx(parent) && k2 == k) by (nonlinear_arith)
                        requires self.pfx(i) * 512 + k2 == s0.pfx(parent) * 512 + k, 0 <= k < 512, 0 <= k2 < 512;
                    assert(s0.tppn(i) != s0.tppn(parent));
                }
            }
        }
        assert forall|v: nat| #[trigger] self.entry_of(v) == s0.entry_of(v) by {
            let q = vpn_key(v) / 512;
            lemma_indices(v);
            if s0.has_leaf(v) {
                let t = s0.table_index(2, q);
                assert(s0.lvl(t) == 2);
                assert(512 * t + level2_index(v) != 512 * parent + k);
                assert(self.entries@[512 * t + level2_index(v)] == s0.entries@[512 * t + level2_index(v)]);
            } else if self.has_leaf(v) {
                assert(self.table_index(2, q) == n);
            }
        }
        assert(self.owns_none_of(a1)) by {
            a0.lemma_free_in_range(self.tppn(n));
            assert forall|i: int| 0 <= i < self.len() implies {
                &&& !a1.free_set().contains(#[trigger] self.tppn(i))
                &&& a1.spec_start() <= self.tppn(i) < a1.spec_end()
            } by {
                if i < n {
                    assert(!a0.free_set().contains(s0.tppn(i)));
                }
            }
        }
    }

    /// The entry at `pos` of the node arena.
    pub closed spec fn spec_entry_at(self, pos: int) -> PageTableEntry {
        self.entries@[pos]
    }

    /// The number of entries in the node arena.
    pub closed spec fn arena_len(self) -> int {
        self.entries@.len() as int
    }

    /// The entry at `pos`, as returned by `find_entry`.
    pub fn entry_at(&self, pos: usize) -> (r: PageTableEntry)
        requires
            pos < self.arena_len(),
        ensures
            r == self.spec_entry_at(pos as int),
    {
        self.entries[pos]
    }

    /// How many page-table nodes the mapping owns, the root included.
    pub fn table_count(&self) -> (r: usize)
        ensures
            r == self.len(),
    {
        self.page_tables.len()
    }

    /// The physical page number of the root table.
    pub fn root_page_number(&self) -> (r: PhysicalPageNumber)
        ensures
            r@ == self.spec_root(),
    {
        self.root_ppn
    }

    /// The word that selects this mapping in the address-translation
    /// register: the root page number with the Sv39 mode tag 8 in bits 60..64.
    pub fn satp(&self) -> (r: u64)
        requires
            self.wf(),
        ensures
            r == self.spec_root() + 8 * 0x1000_0000_0000_0000,
    {
        assert(self.table_ok(0));
        self.root_ppn.0 + 0x8000_0000_0000_0000
    }

    /// The translation of `vpn`, read without changing anything: the leaf
    /// entry, or the empty entry where the walk stops early.
    pub fn lookup(&self, vpn: VirtualPageNumber) -> (r: PageTableEntry)
        requires
            self.wf(),
        ensures
            r == self.entry_of(vpn.0 as nat),
    {
        let (i0, i1, i2) = vpn.levels();
        let v = Ghost(vpn.0 as nat);
        proof {
            lemma_indices(v@);
            assert(self.link_ok(0, i0 as int));
            assert(self.table_ok(0));
        }
        let e0 = self.entries[i0];
        if e0.is_empty() {
            proof {
                if self.has_leaf(v@) {
                    let t = self.table_index(2, vpn_key(v@) / 512);
                    assert(self.table_ok(t));
                }
            }
            return PageTableEntry::empty();
        }
        proof {
            self.lemma_index(1, i0 as nat);
        }
        let t1 = self.find_table(e0.page_number());
        proof {
            let t = self.table_index(1, i0 as nat);
            if t1 as int != t {
                assert(self.tppn(t1 as int) != self.tppn(t));
            }
            assert(self.table_ok(t1 as int));
            assert(self.link_ok(t1 as int, i1 as int));
        }
        assert(512 * t1 + i1 < self.entries.len()) by (nonlinear_arith)
            requires t1 < self.len(), i1 < 512, self.entries@.len() == 512 * self.len();
        let e1 = self.entries[512 * t1 + i1];
        if e1.is_empty() {
            return PageTableEntry::empty();
        }
        proof {
            self.lemma_index(2, vpn_key(v@) / 512);
        }
        let t2 = self.find_table(e1.page_number());
        proof {
            let t = self.table_index(2, vpn_key(v@) / 512);
            if t2 as int != t {
                assert(self.tppn(t2 as int) != self.tppn(t));
            }
        }
        assert(512 * t2 + i2 < self.entries.len()) by (nonlinear_arith)
            requires t2 < self.len(), i2 < 512, self.entries@.len() == 512 * self.len();
        self.entries[512 * t2 + i2]
    }

    /// Finds the leaf entry for `vpn`, creating the missing nodes on the way,
    /// and returns its position in the node arena (see `entry_at`).
    pub fn find_entry(&mut self, alloc: &mut FrameAllocator, vpn: VirtualPageNumber) -> (r: Result<usize, MemoryError>)
        requires
            old(self).wf(),
            old(alloc).wf(),
            old(self).owns_none_of(*old(alloc)),
        ensures
            walked(*old(self), *old(alloc), *final(self), *final(alloc), vpn.0 as nat, r),
    {
        let (i0, i1, i2) = vpn.levels();
        let ghost v = vpn.0 as nat;
        proof {
            lemma_indices(v);
            assert(self.table_ok(0));
        }
        let ghost s0 = *self;
        let ghost a0 = *alloc;
        let t1 = match self.child(alloc, 0, i0) {
            Ok(t) => t,
            Err(e) => {
                proof {
                    if s0.has_leaf(v) {
                        let t = s0.table_index(2, vpn_key(v) / 512);
                        assert(s0.table_ok(t));
                    }
                    assert(s0.missing_tables(v) == 2);
                }
                return Err(e);
            },
        };
        let ghost s1 = *self;
        let ghost a1 = *alloc;
        proof {
            self.lemma_index(1, i0 as nat);
            assert(self.table_ok(t1 as int));
        }
        let t2 = match self.child(alloc, t1, i1) {
            Ok(t) => t,
            Err(e) => {
                proof {
                    lemma_kept_trans(s0, s1, *self);
                    lemma_fresh_trans(s0, s1, *self, a0, a1);
                    assert(!s1.has_table(2, vpn_key(v) / 512));
                    if s0.has_table(1, i0 as nat) {
                        assert(s0.missing_tables(v) == 1);
                    } else {
                        if s0.has_leaf(v) {
                            let t = s0.table_index(2, vpn_key(v) / 512);
                            assert(s0.table_ok(t));
                        }
                        assert(s0.missing_tables(v) == 2);
                    }
                }
                return Err(e);
            },
        };
        proof {
            self.lemma_index(2, vpn_key(v) / 512);
            lemma_kept_trans(s0, s1, *self);
            lemma_fresh_trans(s0, s1, *self, a0, a1);
            if s0.has_leaf(v) {
                let t = s0.table_index(2, vpn_key(v) / 512);
                assert(s0.table_ok(t));
                assert(s0.missing_tables(v) == 0);
            } else if s0.has_table(1, i0 as nat) {
                assert(s0.missing_tables(v) == 1);
            } else {
                assert(!s1.has_table(2, vpn_key(v) / 512));
                assert(s0.missing_tables(v) == 2);
            }
        }
        assert(512 * t2 + i2 < self.entries.len()) by (nonlinear_arith)
            requires t2 < self.len(), i2 < 512, self.entries@.len() == 512 * self.len();
        Ok(512 * t2 + i2)
    }

    /// Writing the leaf entry of `vpn` changes the translation of `vpn`'s
    /// page and of no other.
    proof fn lemma_leaf_write(self, s0: Mapping, vpn: nat, e: PageTableEntry)
        requires
            s0.wf(),
            s0.has_leaf(vpn),
            entry_ok(e),
            self.page_tables == s0.page_tables,
            self.root_ppn == s0.root_ppn,
            self.entries@ == s0.entries@.update(s0.leaf_position(vpn), e),
        ensures
            self.wf(),
            s0.kept_in(self),
            rewritten(s0, self, vpn, e),
            forall|a: FrameAllocator| s0.owns_none_of(a) ==> #[trigger] self.owns_none_of(a),
    {
        let q = vpn_key(vpn) / 512;
        let t = s0.table_index(2, q);
        lemma_indices(vpn);
        assert(s0.table_ok(t));
        assert(0 <= s0.leaf_position(vpn) < s0.entries@.len()) by (nonlinear_arith)
            requires s0.leaf_position(vpn) == 512 * t + level2_index(vpn), 0 <= t < s0.len(),
                level2_index(vpn) < 512, s0.entries@.len() == 512 * s0.len();
        assert forall|l: nat, p: nat| #[trigger] self.has_table(l, p) == s0.has_table(l, p) && (s0.has_table(l, p) ==> self.table_index(l, p) == s0.table_index(l, p)) by {
            if s0.has_table(l, p) {
                let j = s0.table_index(l, p);
                assert(self.lvl(j) == l && self.pfx(j) == p);
                let j2 = self.table_index(l, p);
                if j2 != j {
                    assert(s0.tppn(j2) != s0.tppn(j));
                }
            }
            if self.has_table(l, p) {
                let j = self.table_index(l, p);
                assert(s0.lvl(j) == l && s0.pfx(j) == p);
            }
        }
        assert forall|i: int, k: int| 0 <= i < self.len() && 0 <= k < 512 && self.lvl(i) < 2 implies #[trigger] self.link_ok(i, k) by {
            assert(s0.link_ok(i, k));
            assert(512 * i + k != 512 * t + level2_index(vpn));
            assert(self.slot(i, k) == s0.slot(i, k));
        }
        assert forall|i: int| 0 <= i < self.len() implies #[trigger] self.table_ok(i) by {
            assert(s0.table_ok(i));
        }
        assert forall|i: int, j: int| 0 <= i < self.len() && 0 <= j < self.len() && i != j implies {
            &&& #[trigger] self.tppn(i) != #[trigger] self.tppn(j)
            &&& (self.lvl(i) != self.lvl(j) || self.pfx(i) != self.pfx(j))
        } by {
            assert(s0.tppn(i) != s0.tppn(j));
        }
        assert forall|a: FrameAllocator| s0.owns_none_of(a) implies #[trigger] self.owns_none_of(a) by {
            assert forall|i: int| 0 <= i < self.len() implies {
                &&& !a.free_set().contains(#[trigger] self.tppn(i))
                &&& a.spec_start() <= self.tppn(i) < a.spec_end()
            } by {
                assert(!a.free_set().contains(s0.tppn(i)));
            }
        }
        assert forall|q2: int| 0 <= q2 < self.entries@.len() implies #[trigger] entry_ok(self.entries@[q2]) by {
            if q2 != s0.leaf_position(vpn) {
                assert(entry_ok(s0.entries@[q2]));
            }
        }
        assert forall|v: nat| #[trigger] self.entry_of(v) == (if vpn_key(v) == vpn_key(vpn) { e } else { s0.entry_of(v) }) by {
            lemma_indices(v);
            if vpn_key(v) == vpn_key(vpn) {
            } else if s0.has_leaf(v) {
                let t2 = s0.table_index(2, vpn_key(v) / 512);
                assert(s0.table_ok(t2));
                if t2 == t {
                    assert(vpn_key(v) / 512 == q);
                    assert(level2_index(v) != level2_index(vpn));
                } else {
                    assert(512 * t2 + level2_index(v) != 512 * t + level2_index(vpn));
                }
            }
        }
    }

    /// Installs `vpn -> ppn` with `flags` plus VALID in an empty leaf entry,
    /// creating the missing nodes.
    pub fn map_one(
        &mut self,
        alloc: &mut FrameAllocator,
        vpn: VirtualPageNumber,
        ppn: PhysicalPageNumber,
        flags: Flags,
    ) -> (r: Result<(), MemoryError>)
        requires
            old(self).wf(),
            old(alloc).wf(),
            old(self).owns_none_of(*old(alloc)),
            old(self).entry_of(vpn.0 as nat).spec_is_empty(),
            ppn.0 < PPN_LIMIT,
        ensures
            installed(*old(self), *old(alloc), *final(self), *final(alloc), vpn.0 as nat,
                PageTableEntry::spec_new(ppn@, with_valid(flags.0)), r),
    {
        self.install(alloc, vpn, ppn, flags)
    }

    /// Writes a fresh leaf entry for `vpn` where the present one is empty.
    fn install(
        &mut self,
        alloc: &mut FrameAllocator,
        vpn: VirtualPageNumber,
        ppn: PhysicalPageNumber,
        flags: Flags,
    ) -> (r: Result<(), MemoryError>)
        requires
            old(self).wf(),
            old(alloc).wf(),
            old(self).owns_none_of(*old(alloc)),
            old(self).entry_of(vpn.0 as nat).spec_is_empty(),
            ppn.0 < PPN_LIMIT,
        ensures
            installed(*old(self), *old(alloc), *final(self), *final(alloc), vpn.0 as nat,
                PageTableEntry::spec_new(ppn@, with_valid(flags.0)), r),
    {
        let ghost s0 = *self;
        let pos = match self.find_entry(alloc, vpn) {
            Ok(p) => p,
            Err(e) => return Err(e),
        };
        let ghost s1 = *self;
        let e = PageTableEntry::new(ppn, flags.valid());
        self.entries.set(pos, e);
        proof {
            self.lemma_leaf_write(s1, vpn.0 as nat, e);
            lemma_kept_trans(s0, s1, *self);
            assert(s0.fresh_in(*self, *old(alloc))) by {
                assert forall|i: int| s0.len() <= i < self.len() implies old(alloc).free_set().contains(#[trigger] self.tppn(i)) by {
                    assert(old(alloc).free_set().contains(s1.tppn(i)));
                }
            }
            assert forall|v: nat| #[trigger] self.entry_of(v) == (if vpn_key(v) == vpn_key(vpn.0 as nat) { e } else { s0.entry_of(v) }) by {
                assert(s1.entry_of(v) == s0.entry_of(v));
            }
        }
        Ok(())
    }

    /// Puts `vpn` back in place after a page fault: `vpn -> ppn` with `flags`
    /// plus VALID, where the leaf entry is not valid.
    pub fn swap_in(
        &mut self,
        alloc: &mut FrameAllocator,
        vpn: VirtualPageNumber,
        ppn: PhysicalPageNumber,
        flags: Flags,
    ) -> (r: Result<(), MemoryError>)
        requires
            old(self).wf(),
            old(alloc).wf(),
            old(self).owns_none_of(*old(alloc)),
            !old(self).entry_of(vpn.0 as nat).spec_is_valid(),
            ppn.0 < PPN_LIMIT,
        ensures
            installed(*old(self), *old(alloc), *final(self), *final(alloc), vpn.0 as nat,
                PageTableEntry::spec_new(ppn@, with_valid(flags.0)), r),
    {
        proof {
            self.lemma_entry_of_ok(vpn.0 as nat);
        }
        self.install(alloc, vpn, ppn, flags)
    }

    /// Takes `vpn` out of the translation: its valid leaf entry becomes the
    /// empty entry. The frame it pointed to is left to the caller.
    pub fn swap_out(&mut self, alloc: &mut FrameAllocator, vpn: VirtualPageNumber) -> (r: Result<(), MemoryError>)
        requires
            old(self).wf(),
            old(alloc).wf(),
            old(self).owns_none_of(*old(alloc)),
            old(self).entry_of(vpn.0 as nat).spec_is_valid(),
        ensures
            r is Ok,
            *final(alloc) == *old(alloc),
            final(self).wf(),
            final(self).owns_none_of(*final(alloc)),
            old(self).kept_in(*final(self)),
            final(self).len() == old(self).len(),
            rewritten(*old(self), *final(self), vpn.0 as nat, empty_entry()),
    {
        let ghost s0 = *self;
        let pos = match self.find_entry(alloc, vpn) {
            Ok(p) => p,
            Err(e) => return Err(e),
        };
        let e = PageTableEntry::empty();
        self.entries.set(pos, e);
        proof {
            lemma_entry_fields(0, 0);
            self.lemma_leaf_write(s0, vpn.0 as nat, e);
        }
        Ok(())
    }

    /// The translation of any page is a stored entry, or the empty entry.
    proof fn lemma_entry_of_ok(self, vpn: nat)
        requires
            self.wf(),
        ensures
            entry_ok(self.entry_of(vpn)),
    {
        lemma_entry_fields(0, 0);
        if self.has_leaf(vpn) {
            let t = self.table_index(2, vpn_key(vpn) / 512);
            lemma_indices(vpn);
            assert(0 <= self.leaf_position(vpn) < self.entries@.len()) by (nonlinear_arith)
                requires self.leaf_position(vpn) == 512 * t + level2_index(vpn), 0 <= t < self.len(),
                    level2_index(vpn) < 512, self.entries@.len() == 512 * self.len();
        }
    }

    /// Where `map` stops after `i` pages, with `done` of them given frames,
    /// each page of the segment is empty or mapped as asked.
    proof fn lemma_partial(self, s0: Mapping, segment: Segment, i: nat, done: nat)
        requires
            s0.wf(),
            i <= segment.page_range.spec_len() <= VPN_SPAN,
            done <= i,
            forall|v: nat| segment.page_range.covers(v) ==> #[trigger] s0.entry_of(v).spec_is_empty(),
            forall|v: nat| !in_window(segment.page_range.start.0 as nat, i, v) ==> #[trigger] self.entry_of(v) == s0.entry_of(v),
            segment.map_type == MapType::Linear ==> forall|v: nat| segment.page_range.start.0 <= v < segment.page_range.start.0 + i
                ==> #[trigger] self.entry_of(v) == PageTableEntry::spec_new(v, with_valid(segment.flags.0)),
            segment.map_type == MapType::Framed ==> forall|v: nat| segment.page_range.start.0 + done <= v < segment.page_range.start.0 + i
                ==> #[trigger] self.entry_of(v) == empty_entry(),
            segment.map_type == MapType::Framed ==> forall|v: nat| segment.page_range.start.0 <= v < segment.page_range.start.0 + done
                ==> #[trigger] self.entry_of(v).spec_is_valid(),
        ensures
            forall|v: nat| segment.page_range.covers(v) ==> partly_mapped(segment, self, v),
    {
        let start = segment.page_range.start.0 as nat;
        assert forall|v: nat| segment.page_range.covers(v) implies partly_mapped(segment, self, v) by {
            if v >= start + i {
                vstd::arithmetic::div_mod::lemma_small_mod((v - start) as nat, VPN_SPAN as nat);
                assert((v - start) % (VPN_SPAN as int) == v - start);
                assert(!in_window(start, i, v));
                s0.lemma_entry_of_ok(v);
                assert(s0.entry_of(v).spec_is_empty());
                assert(s0.entry_of(v).bits == 0);
                assert(self.entry_of(v) == s0.entry_of(v));
                assert(self.entry_of(v) == empty_entry());
            } else {
                match segment.map_type {
                    MapType::Linear => {
                        assert(self.entry_of(v) == PageTableEntry::spec_new(v, with_valid(segment.flags.0)));
                    },
                    MapType::Framed => {
                        if v < start + done {
                            assert(self.entry_of(v).spec_is_valid());
                        } else {
                            assert(self.entry_of(v) == empty_entry());
                        }
                    },
                }
            }
        }
    }

    /// Maps the pages of `segment`. A Linear segment maps each page to the
    /// physical page with the same number. A Framed segment gives each of its
    /// first `frame_limit` pages a fresh frame, in order, and returns those
    /// pages with their frames; the pages beyond stay unmapped, to be filled
    /// in on a fault. On running out of frames the pages done so far stay.
    pub fn map(
        &mut self,
        alloc: &mut FrameAllocator,
        segment: &Segment,
        frame_limit: usize,
        init_data: Option<Range>,
    ) -> (r: Result<Vec<(VirtualPageNumber, FrameTracker)>, MemoryError>)
        requires
            old(self).wf(),
            old(alloc).wf(),
            old(self).owns_none_of(*old(alloc)),
            init_data is None,
            segment.page_range.spec_len() <= VPN_SPAN,
            forall|v: nat| segment.page_range.covers(v) ==> #[trigger] old(self).entry_of(v).spec_is_empty(),
            segment.map_type == MapType::Linear ==> segment.page_range.end.0 <= PPN_LIMIT,
        ensures
            final(self).wf(),
            final(alloc).wf(),
            final(self).owns_none_of(*final(alloc)),
            old(self).kept_in(*final(self)),
            final(alloc).spec_start() == old(alloc).spec_start(),
            final(alloc).spec_end() == old(alloc).spec_end(),
            final(alloc).free_set().subset_of(old(alloc).free_set()),
            old(alloc).free_count() >= frames_wanted(*segment, frame_limit as nat) + 2 * segment.page_range.spec_len() ==> r is Ok,
            forall|v: nat| !in_window(segment.page_range.start.0 as nat, segment.page_range.spec_len(), v)
                ==> #[trigger] final(self).entry_of(v) == old(self).entry_of(v),
            r is Err ==> forall|v: nat| segment.page_range.covers(v) ==> partly_mapped(*segment, *final(self), v),
            r matches Ok(pairs) ==> segment.map_type == MapType::Linear ==> {
                &&& pairs@.len() == 0
                &&& forall|v: nat| segment.page_range.covers(v) ==> #[trigger] final(self).entry_of(v)
                    == PageTableEntry::spec_new(v, with_valid(segment.flags.0))
            },
            r matches Ok(pairs) ==> segment.map_type == MapType::Framed ==> {
                &&& pairs@.len() == frames_wanted(*segment, frame_limit as nat)
                &&& forall|k: int| 0 <= k < pairs@.len() ==> {
                    &&& (#[trigger] pairs@[k]).0.0 == segment.page_range.start.0 + k
                    &&& final(self).entry_of((segment.page_range.start.0 + k) as nat)
                        == PageTableEntry::spec_new(pairs@[k].1.spec_ppn(), with_valid(segment.flags.0))
                    &&& old(alloc).free_set().contains(pairs@[k].1.spec_ppn())
                    &&& !final(alloc).free_set().contains(pairs@[k].1.spec_ppn())
                    &&& !final(self).table_frames().contains(pairs@[k].1.spec_ppn())
                }
                &&& forall|k1: int, k2: int| 0 <= k1 < k2 < pairs@.len()
                    ==> (#[trigger] pairs@[k1]).1.spec_ppn() != (#[trigger] pairs@[k2]).1.spec_ppn()
                &&& forall|v: nat| segment.page_range.covers(v) && v >= segment.page_range.start.0 + pairs@.len()
                    ==> #[trigger] final(self).entry_of(v) == empty_entry()
            },
    {
        let ghost s0 = *self;
        let ghost a0 = *alloc;
        let start = segment.page_range.start.0;
        let end = segment.page_range.end.0;
        let n: u64 = if start <= end { end - start } else { 0 };
        let flags = segment.flags;
        let ghost e_flags = with_valid(flags.0);
        let linear = match segment.map_type {
            MapType::Linear => true,
            MapType::Framed => false,
        };
        let mut budget = frame_limit;
        let mut pairs: Vec<(VirtualPageNumber, FrameTracker)> = Vec::new();
        let mut i: u64 = 0;
        while i < n
            invariant
                n == segment.page_range.spec_len(),
                n <= VPN_SPAN,
                s0 == *old(self),
                a0 == *old(alloc),
                s0.wf(),
                start == segment.page_range.start.0,
                end == segment.page_range.end.0,
                flags == segment.flags,
                e_flags == with_valid(flags.0),
                linear == (segment.map_type == MapType::Linear),
                linear ==> end <= PPN_LIMIT,
                i <= n,
                forall|v: nat| segment.page_range.covers(v) ==> #[trigger] s0.entry_of(v).spec_is_empty(),
                self.wf(),
                alloc.wf(),
                self.owns_none_of(*alloc),
                s0.kept_in(*self),
                alloc.spec_start() == a0.spec_start(),
                alloc.spec_end() == a0.spec_end(),
                alloc.free_set().subset_of(a0.free_set()),
                alloc.free_count() + 2 * i + pairs@.len() >= a0.free_count(),
                forall|v: nat| !in_window(start as nat, i as nat, v) ==> #[trigger] self.entry_of(v) == s0.entry_of(v),
                linear ==> pairs@.len() == 0,
                linear ==> forall|v: nat| start <= v < start + i ==> #[trigger] self.entry_of(v)
                    == PageTableEntry::spec_new(v, e_flags),
                !linear ==> pairs@.len() == if i <= frame_limit { i as nat } else { frame_limit as nat },
                !linear ==> budget + pairs@.len() == frame_limit,
                !linear ==> forall|k: int| 0 <= k < pairs@.len() ==> {
                    &&& (#[trigger] pairs@[k]).0.0 == start + k
                    &&& self.entry_of((start + k) as nat) == PageTableEntry::spec_new(pairs@[k].1.spec_ppn(), e_flags)
                    &&& a0.free_set().contains(pairs@[k].1.spec_ppn())
                    &&& !alloc.free_set().contains(pairs@[k].1.spec_ppn())
                    &&& forall|t: int| 0 <= t < self.len() ==> #[trigger] self.tppn(t) != pairs@[k].1.spec_ppn()
                },
                !linear ==> forall|k1: int, k2: int| 0 <= k1 < k2 < pairs@.len()
                    ==> (#[trigger] pairs@[k1]).1.spec_ppn() != (#[trigger] pairs@[k2]).1.spec_ppn(),
                !linear ==> forall|v: nat| start + pairs@.len() <= v < start + i ==> #[trigger] self.entry_of(v) == empty_entry(),
                !linear ==> forall|v: nat| start <= v < start + pairs@.len() ==> #[trigger] self.entry_of(v).spec_is_valid(),
            decreases n - i,
        {
            let vpn = start + i;
            let ghost sp = *self;
            let ghost ap = *alloc;
            proof {
                vstd::arithmetic::div_mod::lemma_small_mod(i as nat, VPN_SPAN as nat);
                assert(!in_window(start as nat, i as nat, vpn as nat));
                assert(segment.page_range.covers(vpn as nat));
                assert(self.entry_of(vpn as nat).spec_is_empty());
                self.lemma_entry_of_ok(vpn as nat);
                assert(self.entry_of(vpn as nat) == empty_entry());
                assert forall|v: nat| #![trigger self.entry_of(v)] true implies
                    in_window(start as nat, (i + 1) as nat, v) == (in_window(start as nat, i as nat, v) || vpn_key(v) == vpn_key(vpn as nat))
                    && ((vpn_key(v) == vpn_key(vpn as nat)) == ((v - start) % (VPN_SPAN as int) == i)) by {
                    lemma_window(start as nat, i as nat, v);
                }
                assert forall|v: nat| start <= v < start + i implies vpn_key(v) != vpn_key(vpn as nat) by {
                    lemma_window(start as nat, i as nat, v);
                    vstd::arithmetic::div_mod::lemma_small_mod((v - start) as nat, VPN_SPAN as nat);
                }
            }
            if linear {
                match self.map_one(alloc, VirtualPageNumber(vpn), PhysicalPageNumber(vpn), flags) {
                    Ok(()) => {},
                    Err(e) => {
                        proof {
                            lemma_kept_trans(s0, sp, *self);
                            assert forall|v: nat| !in_window(start as nat, n as nat, v) implies #[trigger] self.entry_of(v) == s0.entry_of(v) by {
                                lemma_window(start as nat, i as nat, v);
                                assert(self.entry_of(v) == sp.entry_of(v));
                                lemma_window_grow(start as nat, i as nat, n as nat, v);
                            }
                            sp.lemma_partial(s0, *segment, i as nat, pairs@.len());
                            assert forall|v: nat| segment.page_range.covers(v) implies partly_mapped(*segment, *self, v) by {
                                assert(self.entry_of(v) == sp.entry_of(v));
                            }
                        }
                        return Err(e);
                    },
                }
            } else if budget > 0 {
                let frame = match alloc.allocate() {
                    Ok(f) => f,
                    Err(e) => {
                        proof {
                            assert forall|v: nat| !in_window(start as nat, n as nat, v) implies #[trigger] self.entry_of(v) == s0.entry_of(v) by {
                                lemma_window_grow(start as nat, i as nat, n as nat, v);
                            }
                            self.lemma_partial(s0, *segment, i as nat, pairs@.len());
                        }
                        return Err(e);
                    },
                };
                let ppn = frame.page_number();
                let ghost af = *alloc;
                proof {
                    ap.lemma_free_in_range(ppn@);
                    lemma_owns_shrink(*self, ap, af);
                }
                match self.map_one(alloc, VirtualPageNumber(vpn), ppn, flags) {
                    Ok(()) => {},
                    Err(e) => {
                        proof {
                            assert(!alloc.free_set().contains(ppn@));
                            assert forall|t: int| 0 <= t < self.len() implies #[trigger] self.tppn(t) != ppn@ by {
                                if t < sp.len() {
                                    assert(self.tppn(t) == sp.tppn(t));
                                    assert(!ap.free_set().contains(sp.tppn(t)));
                                } else {
                                    assert(af.free_set().contains(self.tppn(t)));
                                }
                            }
                        }
                        let ghost am = *alloc;
                        alloc.deallocate(frame);
                        proof {
                            assert forall|t: int| 0 <= t < self.len() implies {
                                &&& !alloc.free_set().contains(#[trigger] self.tppn(t))
                                &&& alloc.spec_start() <= self.tppn(t) < alloc.spec_end()
                            } by {
                                assert(!am.free_set().contains(self.tppn(t)));
                            }
                            assert(alloc.free_set().subset_of(a0.free_set()));
                            lemma_kept_trans(s0, sp, *self);
                            assert forall|v: nat| !in_window(start as nat, n as nat, v) implies #[trigger] self.entry_of(v) == s0.entry_of(v) by {
                                lemma_window(start as nat, i as nat, v);
                                assert(self.entry_of(v) == sp.entry_of(v));
                                lemma_window_grow(start as nat, i as nat, n as nat, v);
                            }
                            sp.lemma_partial(s0, *segment, i as nat, pairs@.len());
                            assert forall|v: nat| segment.page_range.covers(v) implies partly_mapped(*segment, *self, v) by {
                                assert(self.entry_of(v) == sp.entry_of(v));
                            }
                        }
                        return Err(e);
                    },
                }
                budget = budget - 1;
                pairs.push((VirtualPageNumber(vpn), frame));
                proof {
                    lemma_entry_fields(ppn@, with_valid(flags.0));
                    assert forall|k: int, t: int| 0 <= k < pairs@.len() && 0 <= t < self.len() implies #[trigger] self.tppn(t) != (#[trigger] pairs@[k]).1.spec_ppn() by {
                        if t < sp.len() {
                            assert(self.tppn(t) == sp.tppn(t));
                            if k == pairs@.len() - 1 {
                                assert(!ap.free_set().contains(sp.tppn(t)));
                            }
                        } else {
                            assert(af.free_set().contains(self.tppn(t)));
                            if k < pairs@.len() - 1 {
                                assert(!ap.free_set().contains(pairs@[k].1.spec_ppn()));
                            }
                        }
                    }
                    assert forall|k: int| 0 <= k < pairs@.len() - 1 implies (#[trigger] pairs@[k]).1.spec_ppn() != ppn@ by {
                        assert(!ap.free_set().contains(pairs@[k].1.spec_ppn()));
                    }
                }
            }
            proof {
                lemma_kept_trans(s0, sp, *self);
            }
            i = i + 1;
        }
        proof {
            assert forall|v: nat| segment.page_range.covers(v) implies start <= v < start + i by {}
            assert forall|k: int| 0 <= k < pairs@.len() && !linear implies !self.table_frames().contains((#[trigger] pairs@[k]).1.spec_ppn()) by {
                if self.table_frames().contains(pairs@[k].1.spec_ppn()) {
                    let t = choose|t: int| 0 <= t < self.len() && self.tppn(t) == pairs@[k].1.spec_ppn();
                }
            }
        }
        Ok(pairs)
    }

    /// Tears the mapping down: every node frame goes back to `alloc`.
    pub fn release(self, alloc: &mut FrameAllocator)
        requires
            self.wf(),
            old(alloc).wf(),
            self.owns_none_of(*old(alloc)),
        ensures
            final(alloc).wf(),
            final(alloc).spec_start() == old(alloc).spec_start(),
            final(alloc).spec_end() == old(alloc).spec_end(),
            final(alloc).free_set() == old(alloc).free_set().union(self.table_frames()),
            final(alloc).free_count() == old(alloc).free_count() + self.len(),
    {
        let ghost all = self;
        let ghost a0 = *alloc;
        let mut tables = self.page_tables;
        while tables.len() > 0
            invariant
                alloc.wf(),
                alloc.spec_start() == a0.spec_start(),
                alloc.spec_end() == a0.spec_end(),
                all.wf(),
                all.owns_none_of(a0),
                tables@.len() <= all.len(),
                forall|i: int| 0 <= i < tables@.len() ==> #[trigger] tables@[i] == all.page_tables@[i],
                alloc.free_set() == a0.free_set().union(all.frames_from(tables@.len() as int)),
                alloc.free_count() == a0.free_count() + (all.len() - tables@.len()),
            decreases tables@.len(),
        {
            let ghost n = tables@.len() - 1;
            let ghost pre = *alloc;
            let t = tables.pop().unwrap();
            proof {
                assert(t == all.page_tables@[n]);
                assert(all.owns_none_of(a0));
                assert(!a0.free_set().contains(all.tppn(n)));
                assert forall|i: int| n < i < all.len() implies #[trigger] all.tppn(i) != all.tppn(n) by {}
                assert(!pre.free_set().contains(all.tppn(n)));
                assert forall|i: int| 0 <= i < tables@.len() implies #[trigger] tables@[i] == all.page_tables@[i] by {}
            }
            alloc.deallocate(t.frame);
            proof {
                assert forall|p: nat| #[trigger] all.frames_from(n).contains(p)
                    == (all.frames_from(n + 1).contains(p) || p == all.tppn(n)) by {
                    if all.frames_from(n).contains(p) && p != all.tppn(n) {
                        let i = choose|i: int| n <= i < all.len() && all.tppn(i) == p;
                        assert(i != n);
                    }
                    if all.frames_from(n + 1).contains(p) {
                        let i = choose|i: int| n + 1 <= i < all.len() && all.tppn(i) == p;
                        assert(n <= i);
                    }
                }
                assert(alloc.free_set() =~= a0.free_set().union(all.frames_from(n)));
            }
        }
        proof {
            assert(all.frames_from(0) =~= all.table_frames());
        }
    }

    /// An entry gets populated once: after `map_one` or `swap_in` installs an
    /// entry for `v1`, that entry is valid and not empty, so a second
    /// `map_one` (which needs it empty) or `swap_in` (which needs it not
    /// valid) for the same page is ruled out, and installing another page
    /// `v2` leaves it as it is.
    pub proof fn lemma_populated_once(
        m0: Mapping,
        a0: FrameAllocator,
        m1: Mapping,
        a1: FrameAllocator,
        m2: Mapping,
        a2: FrameAllocator,
        v1: nat,
        ppn1: nat,
        flags1: u8,
        v2: nat,
        e2: PageTableEntry,
        r2: Result<(), MemoryError>,
    )
        requires
            ppn1 < PPN_LIMIT,
            installed(m0, a0, m1, a1, v1, PageTableEntry::spec_new(ppn1, with_valid(flags1)), Ok(())),
            installed(m1, a1, m2, a2, v2, e2, r2),
            vpn_key(v1) != vpn_key(v2),
        ensures
            m1.entry_of(v1) == PageTableEntry::spec_new(ppn1, with_valid(flags1)),
            m1.entry_of(v1).spec_is_valid(),
            !m1.entry_of(v1).spec_is_empty(),
            m2.entry_of(v1) == m1.entry_of(v1),
    {
        lemma_entry_fields(ppn1, with_valid(flags1));
        assert(m1.entry_of(v1) == PageTableEntry::spec_new(ppn1, with_valid(flags1)));
        assert(m2.entry_of(v1) == m1.entry_of(v1));
    }

    /// Swapping a valid page out and back in with its own page number and
    /// flags gives back the same entry, and the same translation everywhere.
    pub proof fn lemma_swap_round_trip(
        m0: Mapping,
        m1: Mapping,
        a1: FrameAllocator,
        m2: Mapping,
        a2: FrameAllocator,
        vpn: nat,
    )
        requires
            m0.wf(),
            m0.entry_of(vpn).spec_is_valid(),
            rewritten(m0, m1, vpn, empty_entry()),
            installed(m1, a1, m2, a2, vpn,
                PageTableEntry::spec_new(m0.entry_of(vpn).spec_ppn(), with_valid(m0.entry_of(vpn).spec_flags())),
                Ok(())),
        ensures
            m2.entry_of(vpn) == m0.entry_of(vpn),
            m0.same_translation(m2),
    {
        let e = m0.entry_of(vpn);
        m0.lemma_entry_of_ok(vpn);
        crate::entry::lemma_entry_rebuild(e);
        assert(with_valid(e.spec_flags()) == e.spec_flags());
        assert forall|v: nat| #[trigger] m2.entry_of(v) == m0.entry_of(v) by {
            assert(m1.entry_of(v) == (if vpn_key(v) == vpn_key(vpn) { empty_entry() } else { m0.entry_of(v) }));
            if vpn_key(v) == vpn_key(vpn) {
                assert(m0.entry_of(v) == m0.entry_of(vpn)) by {
                    lemma_indices(v);
                    lemma_indices(vpn);
                }
            }
        }
    }

    /// A second `find_entry` for the same page, before any write, creates no
    /// node, takes no frame, and returns the same position.
    pub proof fn lemma_find_entry_idempotent(
        m0: Mapping,
        a0: FrameAllocator,
        m1: Mapping,
        a1: FrameAllocator,
        m2: Mapping,
        a2: FrameAllocator,
        vpn: nat,
        r1: Result<usize, MemoryError>,
        r2: Result<usize, MemoryError>,
    )
        requires
            walked(m0, a0, m1, a1, vpn, r1),
            r1 is Ok,
            walked(m1, a1, m2, a2, vpn, r2),
        ensures
            m2 == m1,
            a2 == a1,
            r2 == r1,
    {
    }
}

} // verus!
