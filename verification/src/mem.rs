//! Address-space model: a set of mapped pages, each page carrying its
//! permission bits, plus the program-break cursor for heap growth.
//!
//! The page table and frame allocator of the machine are a lower layer; this
//! module keeps the bookkeeping that layer is driven by: which virtual page
//! numbers are mapped, and with which permissions. The invariant is that no
//! page is recorded twice, which models the "two regions never overlap" rule.

use vstd::prelude::*;

verus! {

/// Bytes per page of the translation layer.
pub const PAGE_SIZE: usize = 4096;

/// Largest length a single mapping request may ask for (1 GiB).
pub const MAX_MMAP_LEN: usize = 0x40000000;

/// Permission bit: page is readable.
pub const PERM_R: u8 = 1;
/// Permission bit: page is writable.
pub const PERM_W: u8 = 2;
/// Permission bit: page is executable.
pub const PERM_X: u8 = 4;
/// Permission bit: page is reachable from user mode.
pub const PERM_U: u8 = 8;

/// One mapped page: its virtual page number and its permission bits.
#[derive(Clone, Copy, PartialEq, Eq, Structural)]
pub struct PageEntry {
    pub vpn: usize,
    pub perm: u8,
}

/// The memory bookkeeping of one process: the mapped pages and the
/// program-break cursor of the heap.
pub struct AddressSpace {
    pub pages: Vec<PageEntry>,
    pub heap_base: usize,
    pub brk: usize,
}

/// A page with number `vpn` is recorded in `s`.
pub open spec fn mapped(s: Seq<PageEntry>, vpn: usize) -> bool {
    exists|i: int| 0 <= i < s.len() && s[i].vpn == vpn
}

/// No page of `[lo, hi)` is recorded in `s`.
pub open spec fn range_free(s: Seq<PageEntry>, lo: usize, hi: usize) -> bool {
    forall|v: usize| lo <= v < hi ==> !mapped(s, v)
}

/// Every page of `[lo, hi)` is recorded in `s`.
pub open spec fn range_mapped(s: Seq<PageEntry>, lo: usize, hi: usize) -> bool {
    forall|v: usize| lo <= v < hi ==> mapped(s, v)
}

/// No virtual page number occurs twice in `s`.
pub open spec fn distinct_vpns(s: Seq<PageEntry>) -> bool {
    forall|i: int, j: int| 0 <= i < j < s.len() ==> s[i].vpn != s[j].vpn
}

/// The entries that mapping `[lo, hi)` with permission `perm` appends.
pub open spec fn range_entries(lo: usize, hi: usize, perm: u8) -> Seq<PageEntry> {
    Seq::new((hi - lo) as nat, |i: int| PageEntry { vpn: (lo + i) as usize, perm: perm })
}

/// `s` with every entry whose page lies in `[lo, hi)` removed; the order of
/// the remaining entries is kept.
pub open spec fn drop_range(s: Seq<PageEntry>, lo: usize, hi: usize) -> Seq<PageEntry>
    decreases s.len(),
{
    if s.len() == 0 {
        s
    } else {
        let rest = drop_range(s.drop_last(), lo, hi);
        if lo <= s.last().vpn < hi {
            rest
        } else {
            rest.push(s.last())
        }
    }
}

/// A page is recorded after `drop_range` exactly when it was recorded before
/// and does not lie in the dropped range.
pub proof fn lemma_drop_range_mapped(s: Seq<PageEntry>, lo: usize, hi: usize, v: usize)
    ensures
        mapped(drop_range(s, lo, hi), v) <==> (mapped(s, v) && !(lo <= v < hi)),
    decreases s.len(),
{
    if s.len() == 0 {
    } else {
        let d = s.drop_last();
        let rest = drop_range(d, lo, hi);
        lemma_drop_range_mapped(d, lo, hi, v);
        let lastv = s.last().vpn;
        if mapped(d, v) {
            let i = choose|i: int| 0 <= i < d.len() && d[i].vpn == v;
            assert(s[i].vpn == v);
            assert(mapped(s, v));
        }
        if lastv == v {
            assert(s[s.len() - 1].vpn == v);
            assert(mapped(s, v));
        }
        if mapped(s, v) && lastv != v {
            let i = choose|i: int| 0 <= i < s.len() && s[i].vpn == v;
            assert(i < s.len() - 1);
            assert(d[i].vpn == v);
            assert(mapped(d, v));
        }
        if lo <= lastv < hi {
            assert(drop_range(s, lo, hi) == rest);
            if mapped(s, v) && !(lo <= v < hi) {
                assert(lastv != v);
            }
        } else {
            assert(drop_range(s, lo, hi) == rest.push(s.last()));
            if mapped(rest, v) {
                let i = choose|i: int| 0 <= i < rest.len() && rest[i].vpn == v;
                assert(rest.push(s.last())[i].vpn == v);
                assert(mapped(rest.push(s.last()), v));
            }
            if lastv == v {
                assert(rest.push(s.last())[rest.len() as int].vpn == v);
                assert(mapped(rest.push(s.last()), v));
            }
            if mapped(rest.push(s.last()), v) && lastv != v {
                let i = choose|i: int|
                    0 <= i < rest.push(s.last()).len() && rest.push(s.last())[i].vpn == v;
                assert(i < rest.len());
                assert(rest[i].vpn == v);
                assert(mapped(rest, v));
            }
        }
    }
}

/// Dropping a range keeps the no-duplicate invariant.
pub proof fn lemma_drop_range_distinct(s: Seq<PageEntry>, lo: usize, hi: usize)
    requires
        distinct_vpns(s),
    ensures
        distinct_vpns(drop_range(s, lo, hi)),
    decreases s.len(),
{
    if s.len() == 0 {
    } else {
        assert forall|i: int, j: int|
            0 <= i < j < s.drop_last().len() implies s.drop_last()[i].vpn != s.drop_last()[j].vpn by {
            assert(s.drop_last()[i] == s[i]);
            assert(s.drop_last()[j] == s[j]);
        }
        lemma_drop_range_distinct(s.drop_last(), lo, hi);
        let rest = drop_range(s.drop_last(), lo, hi);
        if !(lo <= s.last().vpn < hi) {
            lemma_drop_range_mapped(s.drop_last(), lo, hi, s.last().vpn);
            if mapped(s.drop_last(), s.last().vpn) {
                let i = choose|i: int|
                    0 <= i < s.drop_last().len() && s.drop_last()[i].vpn == s.last().vpn;
                assert(s[i].vpn == s[s.len() - 1].vpn);
                assert(false);
            }
            assert(!mapped(rest, s.last().vpn));
            assert forall|i: int, j: int|
                0 <= i < j < rest.push(s.last()).len() implies rest.push(s.last())[i].vpn
                != rest.push(s.last())[j].vpn by {
                if j < rest.len() {
                } else {
                    if rest[i].vpn == s.last().vpn {
                        assert(mapped(rest, s.last().vpn));
                    }
                }
            }
        }
    }
}

/// Dropping a range from which the record is already free changes nothing.
pub proof fn lemma_drop_range_of_free(s: Seq<PageEntry>, lo: usize, hi: usize)
    requires
        range_free(s, lo, hi),
    ensures
        drop_range(s, lo, hi) == s,
    decreases s.len(),
{
    if s.len() == 0 {
    } else {
        assert forall|v: usize| lo <= v < hi implies !mapped(s.drop_last(), v) by {
            if mapped(s.drop_last(), v) {
                let i = choose|i: int| 0 <= i < s.drop_last().len() && s.drop_last()[i].vpn == v;
                assert(s[i].vpn == v);
                assert(mapped(s, v));
            }
        }
        lemma_drop_range_of_free(s.drop_last(), lo, hi);
        if lo <= s.last().vpn < hi {
            assert(s[s.len() - 1].vpn == s.last().vpn);
            assert(mapped(s, s.last().vpn));
            assert(false);
        }
        assert(drop_range(s, lo, hi) =~= s);
    }
}

/// Dropping a range that covers every entry leaves nothing.
pub proof fn lemma_drop_range_of_covered(s: Seq<PageEntry>, lo: usize, hi: usize)
    requires
        forall|i: int| 0 <= i < s.len() ==> lo <= #[trigger] s[i].vpn < hi,
    ensures
        drop_range(s, lo, hi) == Seq::<PageEntry>::empty(),
    decreases s.len(),
{
    if s.len() == 0 {
        assert(drop_range(s, lo, hi) =~= Seq::<PageEntry>::empty());
    } else {
        assert forall|i: int| 0 <= i < s.drop_last().len() implies lo <= #[trigger] s.drop_last()[i].vpn
            < hi by {
            assert(s.drop_last()[i] == s[i]);
        }
        lemma_drop_range_of_covered(s.drop_last(), lo, hi);
        assert(lo <= s[s.len() - 1].vpn < hi);
    }
}

/// `drop_range` distributes over concatenation.
pub proof fn lemma_drop_range_distributes(
    a: Seq<PageEntry>,
    b: Seq<PageEntry>,
    lo: usize,
    hi: usize,
)
    ensures
        drop_range(a + b, lo, hi) == drop_range(a, lo, hi) + drop_range(b, lo, hi),
    decreases b.len(),
{
    if b.len() == 0 {
        assert(a + b =~= a);
        assert(drop_range(b, lo, hi) =~= Seq::<PageEntry>::empty());
        assert(drop_range(a, lo, hi) + drop_range(b, lo, hi) =~= drop_range(a, lo, hi));
    } else {
        assert((a + b).drop_last() =~= a + b.drop_last());
        assert((a + b).last() == b.last());
        lemma_drop_range_distributes(a, b.drop_last(), lo, hi);
    }
}

/// Round trip: mapping a fresh range `[lo, hi)` and then unmapping the same
/// range restores the page record exactly.
pub proof fn lemma_map_unmap_round_trip(s: Seq<PageEntry>, lo: usize, hi: usize, perm: u8)
    requires
        lo <= hi,
        range_free(s, lo, hi),
    ensures
        drop_range(s + range_entries(lo, hi, perm), lo, hi) == s,
{
    let fresh = range_entries(lo, hi, perm);
    lemma_drop_range_distributes(s, fresh, lo, hi);
    lemma_drop_range_of_free(s, lo, hi);
    assert forall|i: int| 0 <= i < fresh.len() implies lo <= #[trigger] fresh[i].vpn < hi by {
        assert(fresh[i].vpn == (lo + i) as usize);
    }
    lemma_drop_range_of_covered(fresh, lo, hi);
    assert(s + Seq::<PageEntry>::empty() =~= s);
}

impl AddressSpace {
    /// The bookkeeping invariant: no page recorded twice, and the break never
    /// below the heap base.
    pub open spec fn wf(self) -> bool {
        &&& distinct_vpns(self.pages@)
        &&& self.heap_base <= self.brk
    }

    /// A fresh, empty address space with the given heap base.
    pub fn new_empty(heap_base: usize) -> (space: AddressSpace)
        ensures
            space.wf(),
            space.pages@ == Seq::<PageEntry>::empty(),
            space.heap_base == heap_base,
            space.brk == heap_base,
    {
        AddressSpace { pages: Vec::new(), heap_base, brk: heap_base }
    }

    /// Whether page `vpn` is currently mapped.
    pub fn is_mapped_page(&self, vpn: usize) -> (r: bool)
        ensures
            r == mapped(self.pages@, vpn),
    {
        let mut i: usize = 0;
        while i < self.pages.len()
            invariant
                i <= self.pages@.len(),
                forall|k: int| 0 <= k < i ==> self.pages@[k].vpn != vpn,
            decreases self.pages@.len() - i,
        {
            if self.pages[i].vpn == vpn {
                assert(self.pages@[i as int].vpn == vpn);
                return true;
            }
            i += 1;
        }
        false
    }

    /// The permission bits page `vpn` is mapped with, if it is mapped.
    pub fn page_perm(&self, vpn: usize) -> (r: Option<u8>)
        requires
            self.wf(),
        ensures
            r is Some <==> mapped(self.pages@, vpn),
            r matches Some(p) ==> exists|i: int|
                0 <= i < self.pages@.len() && self.pages@[i].vpn == vpn && self.pages@[i].perm
                    == p,
    {
        let mut i: usize = 0;
        while i < self.pages.len()
            invariant
                i <= self.pages@.len(),
                forall|k: int| 0 <= k < i ==> self.pages@[k].vpn != vpn,
            decreases self.pages@.len() - i,
        {
            if self.pages[i].vpn == vpn {
                assert(self.pages@[i as int].vpn == vpn);
                return Some(self.pages[i].perm);
            }
            i += 1;
        }
        None
    }

    /// Whether every page of `[lo, hi)` is free (unmapped).
    pub fn range_is_free(&self, lo: usize, hi: usize) -> (r: bool)
        ensures
            r == range_free(self.pages@, lo, hi),
    {
        let mut v = lo;
        while v < hi
            invariant
                lo <= v,
                forall|w: usize| lo <= w < v ==> !mapped(self.pages@, w),
            decreases hi - v,
        {
            if self.is_mapped_page(v) {
                return false;
            }
            v += 1;
        }
        true
    }

    /// Whether every page of `[lo, hi)` is mapped.
    pub fn range_is_mapped(&self, lo: usize, hi: usize) -> (r: bool)
        ensures
            r == range_mapped(self.pages@, lo, hi),
    {
        let mut v = lo;
        while v < hi
            invariant
                lo <= v,
                forall|w: usize| lo <= w < v ==> mapped(self.pages@, w),
            decreases hi - v,
        {
            if !self.is_mapped_page(v) {
                return false;
            }
            v += 1;
        }
        true
    }

    /// Record every page of the fresh range `[lo, hi)` with permission `perm`.
    /// This models allocating a frame and inserting a page-table entry for
    /// each page of the range.
    pub fn map_range(&mut self, lo: usize, hi: usize, perm: u8)
        requires
            old(self).wf(),
            lo <= hi,
            range_free(old(self).pages@, lo, hi),
        ensures
            final(self).wf(),
            final(self).pages@ == old(self).pages@ + range_entries(lo, hi, perm),
            final(self).heap_base == old(self).heap_base,
            final(self).brk == old(self).brk,
    {
        let mut v = lo;
        while v < hi
            invariant
                lo <= v <= hi,
                self.wf(),
                range_free(old(self).pages@, lo, hi),
                self.pages@ == old(self).pages@ + range_entries(lo, v, perm),
                self.heap_base == old(self).heap_base,
                self.brk == old(self).brk,
            decreases hi - v,
        {
            proof {
                assert forall|k: int| 0 <= k < self.pages@.len() implies self.pages@[k].vpn
                    != v by {
                    if k < old(self).pages@.len() {
                        if self.pages@[k].vpn == v {
                            assert(old(self).pages@[k].vpn == v);
                            assert(mapped(old(self).pages@, v));
                        }
                    } else {
                        assert(self.pages@[k].vpn == (lo + (k - old(self).pages@.len())) as usize);
                    }
                }
            }
            self.pages.push(PageEntry { vpn: v, perm });
            proof {
                assert(self.pages@ =~= old(self).pages@ + range_entries(lo, (v + 1) as usize, perm));
            }
            v += 1;
        }
        proof {
            assert(self.pages@ =~= old(self).pages@ + range_entries(lo, hi, perm));
        }
    }

    /// An explicit deep copy of the space: every recorded page is copied
    /// into the new record, modelling duplication of the backing frames
    /// (no sharing, no copy-on-write).
    pub fn duplicate(&self) -> (r: AddressSpace)
        ensures
            r.pages@ == self.pages@,
            r.heap_base == self.heap_base,
            r.brk == self.brk,
    {
        let mut pages: Vec<PageEntry> = Vec::new();
        let mut i: usize = 0;
        while i < self.pages.len()
            invariant
                i <= self.pages@.len(),
                pages@ == self.pages@.take(i as int),
            decreases self.pages@.len() - i,
        {
            pages.push(self.pages[i]);
            proof {
                assert(pages@ =~= self.pages@.take(i + 1));
            }
            i += 1;
        }
        proof {
            assert(self.pages@.take(self.pages@.len() as int) =~= self.pages@);
        }
        AddressSpace { pages, heap_base: self.heap_base, brk: self.brk }
    }

    /// Remove every recorded page of `[lo, hi)`, keeping the others in order.
    /// This models removing the page-table entries and freeing the frames.
    pub fn unmap_range(&mut self, lo: usize, hi: usize)
        requires
            old(self).wf(),
        ensures
            final(self).wf(),
            final(self).pages@ == drop_range(old(self).pages@, lo, hi),
            final(self).heap_base == old(self).heap_base,
            final(self).brk == old(self).brk,
    {
        let ghost s = self.pages@;
        let mut kept: Vec<PageEntry> = Vec::new();
        let mut i: usize = 0;
        while i < self.pages.len()
            invariant
                i <= self.pages@.len(),
                self.pages@ == s,
                kept@ == drop_range(s.take(i as int), lo, hi),
            decreases self.pages@.len() - i,
        {
            let e = self.pages[i];
            proof {
                assert(s.take(i + 1).drop_last() =~= s.take(i as int));
                assert(s.take(i + 1).last() == s[i as int]);
            }
            if !(lo <= e.vpn && e.vpn < hi) {
                kept.push(e);
            }
            i += 1;
        }
        proof {
            assert(s.take(s.len() as int) =~= s);
            lemma_drop_range_distinct(s, lo, hi);
        }
        self.pages = kept;
    }
}

} // verus!
