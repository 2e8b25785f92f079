//! The physical frame allocator: a bounded list of free regions, kept sorted
//! and merged.

use vstd::prelude::*;

use super::definitions::{
    given_to, is_free_run, taken_from, Frame, FrameAllocError, FrameAllocator, FrameFreeError,
    FrameRegion,
};

verus! {

/// The number of regions that an allocator made by `new` can hold.
pub const DEFAULT_REGION_CAPACITY: usize = 64;

/// Whether `rs` is a list of valid regions in ascending order with at least
/// one frame that is not free between any two of them.
pub open spec fn regions_wf(rs: Seq<FrameRegion>) -> bool {
    &&& forall|i: int| 0 <= i < rs.len() ==> (#[trigger] rs[i]).wf()
    &&& forall|i: int, j: int|
        0 <= i < j < rs.len() ==> (#[trigger] rs[i]).begin@ + rs[i].num < (#[trigger] rs[j]).begin@
}

/// The frames that the regions of `rs` hold.
pub open spec fn frames_of(rs: Seq<FrameRegion>) -> Set<int> {
    Set::new(|f: int| exists|i: int| 0 <= i < rs.len() && (#[trigger] rs[i]).contains(f))
}

/// Whether `k` is the first region of `rs` with at least `count` frames.
pub open spec fn first_fit(rs: Seq<FrameRegion>, count: int, k: int) -> bool {
    &&& 0 <= k < rs.len()
    &&& rs[k].num >= count
    &&& forall|j: int| 0 <= j < k ==> (#[trigger] rs[j]).num < count
}

proof fn lemma_frames_insert(rs: Seq<FrameRegion>, p: int, x: FrameRegion)
    requires
        0 <= p <= rs.len(),
    ensures
        frames_of(rs.insert(p, x)) == frames_of(rs).union(x.frames()),
{
    let after = rs.insert(p, x);
    assert forall|f: int| frames_of(after).contains(f) <==> frames_of(rs).union(
        x.frames(),
    ).contains(f) by {
        if frames_of(after).contains(f) {
            let i = choose|i: int| 0 <= i < after.len() && (#[trigger] after[i]).contains(f);
            if i < p {
                assert(rs[i].contains(f));
            } else if i > p {
                assert(rs[i - 1].contains(f));
            }
        }
        if frames_of(rs).contains(f) {
            let i = choose|i: int| 0 <= i < rs.len() && (#[trigger] rs[i]).contains(f);
            if i < p {
                assert(after[i].contains(f));
            } else {
                assert(after[i + 1].contains(f));
            }
        }
        if x.frames().contains(f) {
            assert(after[p].contains(f));
        }
    }
    assert(frames_of(after) =~= frames_of(rs).union(x.frames()));
}

proof fn lemma_frames_remove(rs: Seq<FrameRegion>, k: int)
    requires
        regions_wf(rs),
        0 <= k < rs.len(),
    ensures
        frames_of(rs.remove(k)) == frames_of(rs).difference(rs[k].frames()),
        regions_wf(rs.remove(k)),
{
    let after = rs.remove(k);
    assert forall|f: int| frames_of(after).contains(f) <==> frames_of(rs).difference(
        rs[k].frames(),
    ).contains(f) by {
        if frames_of(after).contains(f) {
            let i = choose|i: int| 0 <= i < after.len() && (#[trigger] after[i]).contains(f);
            if i < k {
                assert(rs[i].contains(f));
                assert(rs[i].begin@ + rs[i].num < rs[k].begin@);
            } else {
                assert(rs[i + 1].contains(f));
                assert(rs[k].begin@ + rs[k].num < rs[i + 1].begin@);
            }
        }
        if frames_of(rs).contains(f) && !rs[k].contains(f) {
            let i = choose|i: int| 0 <= i < rs.len() && (#[trigger] rs[i]).contains(f);
            if i < k {
                assert(after[i].contains(f));
            } else {
                assert(after[i - 1].contains(f));
            }
        }
    }
    assert(frames_of(after) =~= frames_of(rs).difference(rs[k].frames()));
    assert forall|i: int, j: int| 0 <= i < j < after.len() implies (#[trigger] after[i]).begin@
        + after[i].num < (#[trigger] after[j]).begin@ by {
        let a = if i < k { i } else { i + 1 };
        let b = if j < k { j } else { j + 1 };
        assert(rs[a].begin@ + rs[a].num < rs[b].begin@);
    }
}

/// Replacing region `k` by `x` takes the old region's frames out and puts
/// those of `x` in.
proof fn lemma_frames_update(rs: Seq<FrameRegion>, k: int, x: FrameRegion)
    requires
        regions_wf(rs),
        0 <= k < rs.len(),
    ensures
        frames_of(rs.update(k, x)) == frames_of(rs).difference(rs[k].frames()).union(x.frames()),
{
    lemma_frames_remove(rs, k);
    lemma_frames_insert(rs.remove(k), k, x);
    assert(rs.update(k, x) =~= rs.remove(k).insert(k, x));
}

/// Replacing region `k` by one that still lies strictly between its
/// neighbours keeps the list valid.
proof fn lemma_replace(rs: Seq<FrameRegion>, k: int, x: FrameRegion)
    requires
        regions_wf(rs),
        0 <= k < rs.len(),
        x.wf(),
        k > 0 ==> rs[k - 1].begin@ + rs[k - 1].num < x.begin@,
        k < rs.len() - 1 ==> x.begin@ + x.num < rs[k + 1].begin@,
    ensures
        regions_wf(rs.update(k, x)),
        frames_of(rs.update(k, x)) == frames_of(rs).difference(rs[k].frames()).union(x.frames()),
{
    lemma_frames_update(rs, k, x);
    let after = rs.update(k, x);
    assert forall|i: int, j: int| 0 <= i < j < after.len() implies (#[trigger] after[i]).begin@
        + after[i].num < (#[trigger] after[j]).begin@ by {
        assert(rs[i].begin@ + rs[i].num < rs[j].begin@);
        if i == k && j > k + 1 {
            assert(rs[k + 1].begin@ + rs[k + 1].num < rs[j].begin@);
            assert(rs[k + 1].wf());
        }
        if j == k && i < k - 1 {
            assert(rs[i].begin@ + rs[i].num < rs[k - 1].begin@);
            assert(rs[k - 1].wf());
        }
    }
}

/// Putting a region in strictly between two neighbours keeps the list valid.
proof fn lemma_insert_wf(rs: Seq<FrameRegion>, p: int, x: FrameRegion)
    requires
        regions_wf(rs),
        0 <= p <= rs.len(),
        x.wf(),
        p > 0 ==> rs[p - 1].begin@ + rs[p - 1].num < x.begin@,
        p < rs.len() ==> x.begin@ + x.num < rs[p].begin@,
    ensures
        regions_wf(rs.insert(p, x)),
{
    let after = rs.insert(p, x);
    assert forall|i: int, j: int| 0 <= i < j < after.len() implies (#[trigger] after[i]).begin@
        + after[i].num < (#[trigger] after[j]).begin@ by {
        let a = if i < p { i } else { i - 1 };
        let b = if j < p { j } else { j - 1 };
        if i != p && j != p {
            assert(rs[a].begin@ + rs[a].num < rs[b].begin@);
        } else if i == p {
            if b > p {
                assert(rs[p].begin@ + rs[p].num < rs[b].begin@);
            }
            assert(rs[p].wf());
        } else {
            if a < p - 1 {
                assert(rs[a].begin@ + rs[a].num < rs[p - 1].begin@);
            }
            assert(rs[p - 1].wf());
        }
    }
}

/// A run of free frames lies inside one region, because two regions never
/// touch.
proof fn lemma_run_in_one_region(rs: Seq<FrameRegion>, i: int, start: int, len: int)
    requires
        regions_wf(rs),
        0 <= i < rs.len(),
        len >= 1,
        rs[i].contains(start),
        is_free_run(frames_of(rs), start, len),
    ensures
        rs[i].contains(start + len - 1),
    decreases len,
{
    if len > 1 {
        assert(is_free_run(frames_of(rs), start, len - 1));
        lemma_run_in_one_region(rs, i, start, len - 1);
        let f = start + len - 1;
        assert(frames_of(rs).contains(f));
        let j = choose|j: int| 0 <= j < rs.len() && (#[trigger] rs[j]).contains(f);
        if j < i {
            assert(rs[j].begin@ + rs[j].num < rs[i].begin@);
        } else if j > i {
            assert(rs[i].begin@ + rs[i].num < rs[j].begin@);
        }
    }
}

proof fn lemma_no_fit_no_run(rs: Seq<FrameRegion>, count: int)
    requires
        regions_wf(rs),
        count > 0,
        forall|j: int| 0 <= j < rs.len() ==> (#[trigger] rs[j]).num < count,
    ensures
        forall|s: int| !is_free_run(frames_of(rs), s, count),
{
    assert forall|s: int| !is_free_run(frames_of(rs), s, count) by {
        if is_free_run(frames_of(rs), s, count) {
            assert(frames_of(rs).contains(s));
            let i = choose|i: int| 0 <= i < rs.len() && (#[trigger] rs[i]).contains(s);
            lemma_run_in_one_region(rs, i, s, count);
        }
    }
}

/// A frame of the set lies in a region.
proof fn lemma_in_some_region(rs: Seq<FrameRegion>, f: int) -> (i: int)
    requires
        frames_of(rs).contains(f),
    ensures
        0 <= i < rs.len(),
        rs[i].contains(f),
{
    choose|i: int| 0 <= i < rs.len() && (#[trigger] rs[i]).contains(f)
}

/// Where two lists agree before place `i`, the `i`-th region of the first
/// does not begin below the `i`-th of the second.
proof fn lemma_begin_not_below(r1: Seq<FrameRegion>, r2: Seq<FrameRegion>, i: int)
    requires
        regions_wf(r1),
        regions_wf(r2),
        frames_of(r1) == frames_of(r2),
        0 <= i < r1.len(),
        i < r2.len(),
        forall|j: int| 0 <= j < i ==> r1[j] == r2[j],
    ensures
        r1[i].begin@ >= r2[i].begin@,
{
    let b = r1[i].begin@;
    assert(r1[i].wf());
    assert(r1[i].contains(b));
    assert(frames_of(r1).contains(b));
    let j = lemma_in_some_region(r2, b);
    if j < i {
        assert(r1[j] == r2[j]);
        assert(r1[j].begin@ + r1[j].num < r1[i].begin@);
    } else if j > i {
        assert(r2[i].begin@ + r2[i].num < r2[j].begin@);
        assert(r2[i].wf());
    }
}

/// Where two lists agree before place `i` and their `i`-th regions begin
/// at the same frame, the `i`-th region of the first does not end below the
/// `i`-th of the second.
proof fn lemma_end_not_below(r1: Seq<FrameRegion>, r2: Seq<FrameRegion>, i: int)
    requires
        regions_wf(r1),
        regions_wf(r2),
        frames_of(r1) == frames_of(r2),
        0 <= i < r1.len(),
        i < r2.len(),
        forall|j: int| 0 <= j < i ==> r1[j] == r2[j],
        r1[i].begin@ == r2[i].begin@,
    ensures
        r1[i].num >= r2[i].num,
{
    assert(r1[i].wf());
    assert(r2[i].wf());
    if r1[i].num < r2[i].num {
        let e = r1[i].begin@ + r1[i].num;
        assert(r2[i].contains(e));
        assert(frames_of(r2).contains(e));
        let j = lemma_in_some_region(r1, e);
        if j < i {
            assert(r1[j].begin@ + r1[j].num < r1[i].begin@);
        } else if j > i {
            assert(r1[i].begin@ + r1[i].num < r1[j].begin@);
        }
    }
}

proof fn lemma_same_regions(r1: Seq<FrameRegion>, r2: Seq<FrameRegion>, n: int)
    requires
        regions_wf(r1),
        regions_wf(r2),
        frames_of(r1) == frames_of(r2),
        0 <= n <= r1.len(),
        n <= r2.len(),
    ensures
        forall|i: int| 0 <= i < n ==> r1[i] == r2[i],
    decreases n,
{
    if n > 0 {
        lemma_same_regions(r1, r2, n - 1);
        lemma_begin_not_below(r1, r2, n - 1);
        lemma_begin_not_below(r2, r1, n - 1);
        lemma_end_not_below(r1, r2, n - 1);
        lemma_end_not_below(r2, r1, n - 1);
    }
}

/// A list that agrees with a longer one on all its regions does not hold
/// the same frames.
proof fn lemma_longer_differs(short: Seq<FrameRegion>, long: Seq<FrameRegion>)
    requires
        regions_wf(short),
        regions_wf(long),
        short.len() < long.len(),
        forall|j: int| 0 <= j < short.len() ==> short[j] == long[j],
    ensures
        frames_of(short) != frames_of(long),
{
    let a = long[short.len() as int];
    assert(a.wf());
    assert(a.contains(a.begin@));
    assert(frames_of(long).contains(a.begin@));
    if frames_of(short).contains(a.begin@) {
        let j = lemma_in_some_region(short, a.begin@);
        assert(short[j] == long[j]);
        assert(long[j].begin@ + long[j].num < a.begin@);
    }
}

/// The list of free regions is determined by the free frames: two valid
/// lists that hold the same frames are the same list.
pub proof fn law_regions_determined(r1: Seq<FrameRegion>, r2: Seq<FrameRegion>)
    requires
        regions_wf(r1),
        regions_wf(r2),
        frames_of(r1) == frames_of(r2),
    ensures
        r1 == r2,
{
    let n = if r1.len() <= r2.len() {
        r1.len() as int
    } else {
        r2.len() as int
    };
    lemma_same_regions(r1, r2, n);
    if r1.len() > n {
        lemma_longer_differs(r2, r1);
    }
    if r2.len() > n {
        lemma_longer_differs(r1, r2);
    }
    assert(r1 =~= r2);
}

/// Frames that are given back right after they were taken leave the
/// allocator as it was: the free regions are those of before.
pub proof fn law_allocate_free_round_trip(
    before: &StaticFrameAllocator,
    between: &StaticFrameAllocator,
    after: &StaticFrameAllocator,
    region: FrameRegion,
)
    requires
        before.wf(),
        between.wf(),
        after.wf(),
        taken_from(before.free_frames(), between.free_frames(), region),
        given_to(between.free_frames(), after.free_frames(), region),
    ensures
        after.regions() == before.regions(),
{
    assert(after.free_frames() =~= before.free_frames());
    law_regions_determined(after.regions(), before.regions());
}

/// The number of frames in the regions of `rs`.
pub open spec fn frame_count(rs: Seq<FrameRegion>) -> int
    decreases rs.len(),
{
    if rs.len() == 0 {
        0
    } else {
        frame_count(rs.drop_last()) + rs.last().num
    }
}

/// The frames of a valid list of regions are as many as the regions say,
/// and all of them lie below the end of the last region.
pub proof fn lemma_frame_count(rs: Seq<FrameRegion>)
    requires
        regions_wf(rs),
    ensures
        frames_of(rs).finite(),
        frames_of(rs).len() == frame_count(rs),
        0 <= frame_count(rs),
        rs.len() > 0 ==> frame_count(rs) <= rs.last().begin@ + rs.last().num,
        forall|f: int|
            frames_of(rs).contains(f) ==> rs.len() > 0 && 0 <= f < rs.last().begin@ + rs.last().num,
    decreases rs.len(),
{
    if rs.len() == 0 {
        assert(frames_of(rs) =~= Set::<int>::empty());
    } else {
        let before = rs.drop_last();
        let last = rs.last();
        assert(last == rs[rs.len() - 1]);
        assert(last.wf());
        assert forall|i: int, j: int| 0 <= i < j < before.len() implies (
        #[trigger] before[i]).begin@ + before[i].num < (#[trigger] before[j]).begin@ by {
            assert(rs[i].begin@ + rs[i].num < rs[j].begin@);
        }
        assert forall|i: int| 0 <= i < before.len() implies (#[trigger] before[i]).wf() by {
            assert(rs[i].wf());
        }
        lemma_frame_count(before);
        let range = vstd::set_lib::set_int_range(last.begin@, last.begin@ + last.num);
        vstd::set_lib::lemma_int_range(last.begin@, last.begin@ + last.num);
        assert(last.frames() =~= range);
        assert(rs =~= before.push(last));
        lemma_frames_insert(before, before.len() as int, last);
        assert(before.insert(before.len() as int, last) =~= rs);
        assert(frames_of(before).disjoint(range)) by {
            assert forall|f: int| frames_of(before).contains(f) implies !range.contains(f) by {
                assert(before.last() == rs[rs.len() - 2]);
                assert(rs[rs.len() - 2].begin@ + rs[rs.len() - 2].num < rs[rs.len() - 1].begin@);
            }
        }
        vstd::set_lib::lemma_set_disjoint_lens(frames_of(before), range);
        assert(frames_of(rs) =~= frames_of(before) + range);
        if before.len() > 0 {
            assert(before.last() == rs[rs.len() - 2]);
            assert(rs[rs.len() - 2].begin@ + rs[rs.len() - 2].num < rs[rs.len() - 1].begin@);
        }
    }
}

/// The free frames of a machine, as a list of free regions of bounded length.
pub struct StaticFrameAllocator {
    blocks: [FrameRegion; 64],
    len: usize,
    limit: usize,
}

impl StaticFrameAllocator {
    /// The free regions, in ascending order.
    pub closed spec fn regions(&self) -> Seq<FrameRegion> {
        self.blocks@.subrange(0, self.len as int)
    }

    /// Whether the list of regions fits its array.
    pub closed spec fn bounded(&self) -> bool {
        self.len <= self.limit <= 64
    }

    /// The number of regions that the allocator can hold.
    pub closed spec fn capacity(&self) -> nat {
        self.limit as nat
    }

    /// An allocator with no free frame and room for 64 regions.
    pub fn new() -> (r: Self)
        ensures
            r.wf(),
            r.regions() == Seq::<FrameRegion>::empty(),
            r.capacity() == DEFAULT_REGION_CAPACITY,
            r.free_frames() == Set::<int>::empty(),
    {
        Self::with_capacity(DEFAULT_REGION_CAPACITY)
    }

    /// An allocator with no free frame and room for `limit` regions, at
    /// most 64.
    pub fn with_capacity(limit: usize) -> (r: Self)
        requires
            limit <= DEFAULT_REGION_CAPACITY,
        ensures
            r.wf(),
            r.regions() == Seq::<FrameRegion>::empty(),
            r.capacity() == limit,
            r.free_frames() == Set::<int>::empty(),
    {
        let r = Self { blocks: [FrameRegion { begin: Frame(0), num: 0 };64], len: 0, limit };
        assert(r.regions() =~= Seq::<FrameRegion>::empty());
        assert(frames_of(r.regions()) =~= Set::<int>::empty());
        r
    }

    /// The number of free regions.
    pub fn region_count(&self) -> (r: usize)
        requires
            self.wf(),
        ensures
            r == self.regions().len(),
    {
        self.len
    }

    /// Puts `x` at place `p` of the list, moving what follows up by one.
    fn insert_at(&mut self, p: usize, x: FrameRegion)
        requires
            old(self).bounded(),
            old(self).len < old(self).limit,
            p <= old(self).len,
        ensures
            final(self).bounded(),
            final(self).limit == old(self).limit,
            final(self).len == old(self).len + 1,
            final(self).regions() == old(self).regions().insert(p as int, x),
    {
        let mut k: usize = self.len;
        while k > p
            invariant
                p <= k <= self.len < 64,
                self.len == old(self).len,
                self.limit == old(self).limit,
                forall|j: int| 0 <= j <= k ==> self.blocks@[j] == old(self).blocks@[j],
                forall|j: int| k < j <= self.len ==> self.blocks@[j] == old(self).blocks@[j - 1],
            decreases k,
        {
            self.blocks[k] = self.blocks[k - 1];
            k -= 1;
        }
        self.blocks[p] = x;
        self.len = self.len + 1;
        assert(self.regions() =~= old(self).regions().insert(p as int, x));
    }

    /// Takes the region at place `p` out of the list, moving what follows
    /// down by one.
    fn remove_at(&mut self, p: usize)
        requires
            old(self).bounded(),
            p < old(self).len,
        ensures
            final(self).bounded(),
            final(self).limit == old(self).limit,
            final(self).len == old(self).len - 1,
            final(self).regions() == old(self).regions().remove(p as int),
    {
        let mut k: usize = p;
        while k + 1 < self.len
            invariant
                p <= k < self.len <= 64,
                self.len == old(self).len,
                self.limit == old(self).limit,
                forall|j: int| 0 <= j < p ==> self.blocks@[j] == old(self).blocks@[j],
                forall|j: int| p <= j < k ==> self.blocks@[j] == old(self).blocks@[j + 1],
                forall|j: int| k <= j < self.len ==> self.blocks@[j] == old(self).blocks@[j],
            decreases self.len - k,
        {
            self.blocks[k] = self.blocks[k + 1];
            k += 1;
        }
        self.blocks[k] = FrameRegion::new(Frame::zero(), 0);
        self.len = self.len - 1;
        assert(self.regions() =~= old(self).regions().remove(p as int));
    }

    /// Replaces the region at place `p` of the list.
    fn set_at(&mut self, p: usize, x: FrameRegion)
        requires
            old(self).bounded(),
            p < old(self).len,
        ensures
            final(self).bounded(),
            final(self).limit == old(self).limit,
            final(self).len == old(self).len,
            final(self).regions() == old(self).regions().update(p as int, x),
    {
        self.blocks[p] = x;
        assert(self.regions() =~= old(self).regions().update(p as int, x));
    }

    /// The `i`-th free region in ascending order, if there are that many.
    pub fn region(&self, i: usize) -> (r: Option<FrameRegion>)
        requires
            self.wf(),
        ensures
            r == if i < self.regions().len() {
                Some(self.regions()[i as int])
            } else {
                None
            },
    {
        if i < self.len && i < 64 {
            Some(self.blocks[i])
        } else {
            None
        }
    }

    /// The number of free frames.
    pub fn free_count(&self) -> (r: u64)
        requires
            self.wf(),
        ensures
            self.free_frames().finite(),
            r == self.free_frames().len(),
    {
        let mut n: u64 = 0;
        let mut i: usize = 0;
        proof {
            assert(self.regions().subrange(0, 0) =~= Seq::<FrameRegion>::empty());
        }
        while i < self.len
            invariant
                self.wf(),
                i <= self.len,
                self.len == self.regions().len(),
                n == frame_count(self.regions().subrange(0, i as int)),
                i > 0 ==> n <= self.regions()[i - 1].begin@ + self.regions()[i - 1].num,
            decreases self.len - i,
        {
            let block = self.blocks[i];
            proof {
                let rs = self.regions();
                let upto = rs.subrange(0, i + 1);
                assert(block == rs[i as int]);
                assert(upto.drop_last() =~= rs.subrange(0, i as int));
                assert(upto.last() == rs[i as int]);
                assert(rs[i as int].wf());
                if i > 0 {
                    assert(rs[i - 1].begin@ + rs[i - 1].num < rs[i as int].begin@);
                }
            }
            n = n + block.num;
            i += 1;
        }
        proof {
            assert(self.regions().subrange(0, self.len as int) =~= self.regions());
            lemma_frame_count(self.regions());
        }
        n
    }

    /// Whether no frame is free.
    pub fn is_exhausted(&self) -> (r: bool)
        requires
            self.wf(),
        ensures
            r == (self.free_frames() == Set::<int>::empty()),
            r == (self.regions().len() == 0),
    {
        proof {
            if self.regions().len() == 0 {
                assert(frames_of(self.regions()) =~= Set::<int>::empty());
            } else {
                assert(self.regions()[0].contains(self.regions()[0].begin@));
                assert(frames_of(self.regions()).contains(self.regions()[0].begin@));
            }
        }
        self.len == 0
    }

    /// Whether frame `frame` is free.
    pub fn is_free(&self, frame: Frame) -> (r: bool)
        requires
            self.wf(),
        ensures
            r == self.free_frames().contains(frame@),
    {
        let mut i: usize = 0;
        while i < self.len
            invariant
                self.bounded(),
                i <= self.regions().len(),
                forall|j: int| 0 <= j < i ==> !(#[trigger] self.regions()[j]).contains(frame@),
            decreases self.regions().len() - i,
        {
            let b = self.blocks[i];
            if b.begin.0 <= frame.0 && frame.0 - b.begin.0 < b.num {
                assert(self.regions()[i as int].contains(frame@));
                return true;
            }
            i += 1;
        }
        false
    }
}

impl FrameAllocator for StaticFrameAllocator {
    open spec fn wf(&self) -> bool {
        self.bounded() && regions_wf(self.regions()) && self.regions().len() <= self.capacity()
    }

    open spec fn free_frames(&self) -> Set<int> {
        frames_of(self.regions())
    }

    /// A release succeeds when the region is valid, none of its frames is
    /// free, and the list of regions is not full.
    open spec fn can_free(&self, region: FrameRegion) -> bool {
        &&& region.wf()
        &&& region.frames().disjoint(self.free_frames())
        &&& self.regions().len() < self.capacity()
    }

    fn is_free_frame(&self, frame: Frame) -> (r: bool) {
        self.is_free(frame)
    }

    /// Takes `count` frames from the high end of the first region that has
    /// that many.
    fn allocate(&mut self, count: u64) -> (r: Result<FrameRegion, FrameAllocError>)
        ensures
            final(self).capacity() == old(self).capacity(),
            match r {
                Ok(region) => exists|k: int|
                    {
                        &&& first_fit(old(self).regions(), count as int, k)
                        &&& region.begin@ == old(self).regions()[k].begin@ + old(self).regions()[k].num - count
                    },
                Err(e) => {
                    &&& final(self).regions() == old(self).regions()
                    &&& e == if count == 0 {
                        FrameAllocError::Unknown
                    } else {
                        FrameAllocError::OutOfMemory
                    }
                    &&& count > 0 ==> forall|j: int|
                        0 <= j < old(self).regions().len() ==> (#[trigger] old(self).regions()[j]).num < count
                },
            },
    {
        if count == 0 {
            return Err(FrameAllocError::Unknown);
        }
        let mut k: usize = 0;
        while k < self.len && self.blocks[k].num < count
            invariant
                self.bounded(),
                k <= self.regions().len(),
                forall|j: int| 0 <= j < k ==> (#[trigger] self.regions()[j]).num < count,
            decreases self.regions().len() - k,
        {
            k += 1;
        }
        if k == self.len {
            proof {
                lemma_no_fit_no_run(self.regions(), count as int);
            }
            return Err(FrameAllocError::OutOfMemory);
        }
        let ghost before = self.regions();
        let block = self.blocks[k];
        assert(block == before[k as int]);
        let rest: u64 = block.num - count;
        let region = FrameRegion::new(Frame::new(block.begin.0 + rest), count);
        assert(first_fit(before, count as int, k as int));
        if rest == 0 {
            self.remove_at(k);
            proof {
                lemma_frames_remove(before, k as int);
            }
        } else {
            let shrunk = FrameRegion::new(block.begin, rest);
            self.set_at(k, shrunk);
            proof {
                lemma_frames_update(before, k as int, shrunk);
                assert(frames_of(self.regions()) =~= frames_of(before).difference(region.frames()));
            }
        }
        proof {
            assert forall|f: int| region.frames().contains(f) implies frames_of(before).contains(
                f,
            ) by {
                assert(before[k as int].contains(f));
            }
        }
        Ok(region)
    }

    /// Puts `region` back. Fails, and changes nothing, exactly when the
    /// region is not valid, holds a frame that is free already, or the list
    /// of regions is full.
    fn free(&mut self, region: &FrameRegion) -> (r: Result<(), FrameFreeError>)
        ensures
            final(self).capacity() == old(self).capacity(),
            r is Err ==> final(self).regions() == old(self).regions(),
    {
        let ghost before = self.regions();
        let n = self.len;
        if region.num == 0 || region.begin.0 > u64::MAX - region.num {
            return Err(FrameFreeError::Unknown);
        }
        let begin: u64 = region.begin.0;
        let end: u64 = region.begin.0 + region.num;
        assert(region.contains(begin as int));
        if n >= self.limit {
            return Err(FrameFreeError::Unknown);
        }
        // The place of the region in ascending order.
        let mut p: usize = 0;
        while p < n && self.blocks[p].begin.0 <= begin
            invariant
                self.bounded(),
                n == self.len,
                n == self.regions().len(),
                before == self.regions(),
                p <= n,
                forall|j: int| 0 <= j < p ==> (#[trigger] before[j]).begin@ <= begin,
            decreases n - p,
        {
            p += 1;
        }
        let touches_prev: bool;
        let touches_next: bool;
        if p > 0 {
            let prev = self.blocks[p - 1];
            assert(prev == before[p - 1]);
            if prev.begin.0 + prev.num > begin {
                proof {
                    assert(prev.contains(begin as int));
                    assert(frames_of(before).contains(begin as int));
                }
                return Err(FrameFreeError::Unknown);
            }
            touches_prev = prev.begin.0 + prev.num == begin;
        } else {
            touches_prev = false;
        }
        if p < n {
            let next = self.blocks[p];
            assert(next == before[p as int]);
            if end > next.begin.0 {
                proof {
                    assert(next.contains(next.begin@));
                    assert(region.contains(next.begin@));
                    assert(frames_of(before).contains(next.begin@));
                }
                return Err(FrameFreeError::Unknown);
            }
            touches_next = end == next.begin.0;
        } else {
            touches_next = false;
        }
        proof {
            assert forall|f: int| region.frames().contains(f) implies !frames_of(before).contains(
                f,
            ) by {
                if frames_of(before).contains(f) {
                    let i = choose|i: int| 0 <= i < before.len() && (#[trigger] before[i]).contains(
                        f,
                    );
                    if i < p - 1 {
                        assert(before[i].begin@ + before[i].num < before[p - 1].begin@);
                    } else if i > p {
                        assert(before[p as int].begin@ + before[p as int].num < before[i].begin@);
                    }
                }
            }
        }
        if touches_prev && touches_next {
            let prev = self.blocks[p - 1];
            let next = self.blocks[p];
            let merged = FrameRegion::new(prev.begin, prev.num + region.num + next.num);
            self.remove_at(p);
            self.set_at(p - 1, merged);
            proof {
                let mid = before.remove(p as int);
                lemma_frames_remove(before, p as int);
                lemma_replace(mid, p - 1, merged);
                assert(frames_of(self.regions()) =~= frames_of(before).union(region.frames()));
            }
        } else if touches_prev {
            let prev = self.blocks[p - 1];
            let grown = FrameRegion::new(prev.begin, prev.num + region.num);
            self.set_at(p - 1, grown);
            proof {
                lemma_replace(before, p - 1, grown);
                assert(frames_of(self.regions()) =~= frames_of(before).union(region.frames()));
            }
        } else if touches_next {
            let next = self.blocks[p];
            let grown = FrameRegion::new(region.begin, region.num + next.num);
            self.set_at(p, grown);
            proof {
                lemma_replace(before, p as int, grown);
                assert(frames_of(self.regions()) =~= frames_of(before).union(region.frames()));
            }
        } else {
            self.insert_at(p, *region);
            proof {
                lemma_frames_insert(before, p as int, *region);
                lemma_insert_wf(before, p as int, *region);
            }
        }
        Ok(())
    }
}

} // verus!
