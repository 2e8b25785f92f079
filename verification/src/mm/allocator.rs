//! The kernel heap: one contiguous range, handed out downwards from its
//! ceiling, with the holes that releases leave recorded at its floor.

use vstd::prelude::*;

verus! {

/// The bytes that one hole record takes at the floor of the heap.
pub const HOLE_RECORD_SIZE: usize = 16;

/// The size and the alignment of a block of memory.
#[derive(Debug, Clone, Copy, PartialEq, Eq, Structural)]
pub struct Layout {
    pub size: usize,
    pub align: usize,
}

impl Layout {
    pub fn new(size: usize, align: usize) -> (r: Self)
        ensures
            r.size == size,
            r.align == align,
    {
        Self { size, align }
    }

    pub fn size(&self) -> (r: usize)
        ensures
            r == self.size,
    {
        self.size
    }

    pub fn align(&self) -> (r: usize)
        ensures
            r == self.align,
    {
        self.align
    }
}

/// A run of bytes of the heap, by its offset from the heap's base and its
/// length: a hole between blocks that are handed out, or such a block.
#[derive(Debug, Clone, Copy, PartialEq, Eq, Structural)]
pub struct MemoryHole {
    pub base: usize,
    pub size: usize,
}

impl MemoryHole {
    /// The offset of the first byte after the run.
    pub open spec fn end(self) -> int {
        self.base + self.size
    }

    pub open spec fn covers(self, b: int) -> bool {
        self.base <= b < self.base + self.size
    }

    /// Whether the runs share no byte.
    pub open spec fn apart(self, other: MemoryHole) -> bool {
        self.end() <= other.base || other.end() <= self.base
    }

    /// The offsets of the bytes of the run.
    pub open spec fn bytes(self) -> Set<int> {
        Set::new(|b: int| self.covers(b))
    }
}

/// Why the heap refused a request.
#[derive(Debug, Clone, Copy, PartialEq, Eq, Structural)]
pub enum HeapError {
    /// The floor has no room for the record of one more hole.
    NoRoom,
}

/// The sum of the lengths of the runs of `s`.
pub open spec fn total(s: Seq<MemoryHole>) -> int
    decreases s.len(),
{
    if s.len() == 0 {
        0
    } else {
        total(s.drop_last()) + s.last().size
    }
}

/// A run more adds its length to the sum.
pub proof fn lemma_total_push(s: Seq<MemoryHole>, x: MemoryHole)
    ensures
        total(s.push(x)) == total(s) + x.size,
{
    assert(s.push(x).drop_last() =~= s);
}

/// A run more, at any place, adds its length to the sum.
pub proof fn lemma_total_insert(s: Seq<MemoryHole>, p: int, x: MemoryHole)
    requires
        0 <= p <= s.len(),
    ensures
        total(s.insert(p, x)) == total(s) + x.size,
    decreases s.len(),
{
    if p == s.len() {
        assert(s.insert(p, x) =~= s.push(x));
        lemma_total_push(s, x);
    } else {
        assert(s.insert(p, x).drop_last() =~= s.drop_last().insert(p, x));
        assert(s.insert(p, x).last() == s.last());
        lemma_total_insert(s.drop_last(), p, x);
    }
}

/// A run less takes its length off the sum.
pub proof fn lemma_total_remove(s: Seq<MemoryHole>, p: int)
    requires
        0 <= p < s.len(),
    ensures
        total(s.remove(p)) == total(s) - s[p].size,
    decreases s.len(),
{
    if p == s.len() - 1 {
        assert(s.remove(p) =~= s.drop_last());
    } else {
        assert(s.remove(p).drop_last() =~= s.drop_last().remove(p));
        assert(s.remove(p).last() == s.last());
        lemma_total_remove(s.drop_last(), p);
    }
}

/// A run in place of another changes the sum by the difference of their
/// lengths.
pub proof fn lemma_total_update(s: Seq<MemoryHole>, p: int, x: MemoryHole)
    requires
        0 <= p < s.len(),
    ensures
        total(s.update(p, x)) == total(s) - s[p].size + x.size,
{
    lemma_total_remove(s, p);
    lemma_total_insert(s.remove(p), p, x);
    assert(s.update(p, x) =~= s.remove(p).insert(p, x));
}

/// The records at the floor of the heap, as an array of fixed length.
///
/// The kernel implements this over the first bytes of the heap itself;
/// `HoleTable` implements it over a vector. An implementation promises that
/// a record reads back as it was last written and that a write touches no
/// other record. Of an implementation that is not verified this promise is
/// taken on trust; such an implementation leaves `records` as it stands
/// here, where it says nothing.
pub trait HoleStore {
    /// All records, used or not.
    open spec fn records(&self) -> Seq<MemoryHole> {
        arbitrary()
    }

    fn get(&self, i: usize) -> (r: MemoryHole)
        requires
            i < self.records().len(),
        ensures
            r == self.records()[i as int],
    ;

    fn put(&mut self, i: usize, hole: MemoryHole)
        requires
            i < old(self).records().len(),
        ensures
            final(self).records() == old(self).records().update(i as int, hole),
    ;
}

/// Hole records kept in a vector.
pub struct HoleTable {
    slots: Vec<MemoryHole>,
}

impl HoleTable {
    /// A table of `n` records.
    pub fn new(n: usize) -> (r: Self)
        ensures
            r.records().len() == n,
    {
        let mut slots: Vec<MemoryHole> = Vec::new();
        let mut k: usize = 0;
        while k < n
            invariant
                k <= n,
                slots@.len() == k,
            decreases n - k,
        {
            slots.push(MemoryHole { base: 0, size: 0 });
            k += 1;
        }
        Self { slots }
    }
}

impl HoleStore for HoleTable {
    closed spec fn records(&self) -> Seq<MemoryHole> {
        self.slots@
    }

    fn get(&self, i: usize) -> (r: MemoryHole) {
        self.slots[i]
    }

    fn put(&mut self, i: usize, hole: MemoryHole) {
        self.slots.set(i, hole);
    }
}

/// Whether `hs` is a list of holes above `ceiling` and inside the heap, in
/// descending order, with at least one byte that is handed out between any
/// two of them and between the lowest and the ceiling.
pub open spec fn holes_wf(hs: Seq<MemoryHole>, ceiling: int, limit: int) -> bool {
    &&& forall|i: int|
        0 <= i < hs.len() ==> (#[trigger] hs[i]).size > 0 && ceiling < hs[i].base && hs[i].end()
            <= limit
    &&& forall|i: int, j: int|
        0 <= i < j < hs.len() ==> (#[trigger] hs[j]).end() < (#[trigger] hs[i]).base
}

/// Whether the blocks of `live` lie above `ceiling` and inside the heap and
/// share no byte with each other or with a hole.
pub open spec fn live_wf(
    live: Seq<MemoryHole>,
    hs: Seq<MemoryHole>,
    ceiling: int,
    limit: int,
) -> bool {
    &&& forall|k: int|
        0 <= k < live.len() ==> (#[trigger] live[k]).size > 0 && ceiling <= live[k].base
            && live[k].end() <= limit
    &&& forall|k: int, l: int|
        0 <= k < l < live.len() ==> (#[trigger] live[k]).apart(#[trigger] live[l])
    &&& forall|k: int, i: int|
        0 <= k < live.len() && 0 <= i < hs.len() ==> (#[trigger] live[k]).apart(#[trigger] hs[i])
}

/// The bytes that are not handed out: those below `ceiling` and those of the
/// holes.
pub open spec fn unallocated(hs: Seq<MemoryHole>, ceiling: int) -> Set<int> {
    Set::new(
        |b: int|
            0 <= b < ceiling || exists|i: int| 0 <= i < hs.len() && (#[trigger] hs[i]).covers(b),
    )
}

/// What the free space below the ceiling offers for `layout`: the block's
/// offset and the bytes wasted above it for alignment. It offers the block
/// that ends at the ceiling if that is aligned; else the aligned block next
/// below, if the space also takes the record of the wasted bytes.
pub open spec fn ceiling_offer(floor: int, ceiling: int, layout: Layout) -> Option<(int, int)> {
    let rest = ceiling - floor;
    let cand = ceiling - layout.size;
    let waste = cand % (layout.align as int);
    if layout.size == 0 || layout.align == 0 || rest < layout.size {
        None
    } else if waste == 0 {
        Some((cand, 0))
    } else if rest >= layout.size + waste + HOLE_RECORD_SIZE {
        Some((cand - waste, waste))
    } else {
        None
    }
}

/// The bytes to skip at the start of a hole at `base` to reach alignment.
pub open spec fn padding(base: int, align: int) -> int {
    if base % align == 0 {
        0
    } else {
        align - base % align
    }
}

/// The offset of the block that hole `h` offers for `layout`, if it offers
/// one: the hole must hold the block behind the padding, and where it leaves
/// a rest on both sides there must be room for one more record.
pub open spec fn hole_offer(h: MemoryHole, layout: Layout, room: bool) -> Option<int> {
    let pad = padding(h.base as int, layout.align as int);
    if layout.size == 0 || layout.align == 0 || h.size < layout.size + pad {
        None
    } else if pad > 0 && h.size > layout.size + pad && !room {
        None
    } else {
        Some(h.base + pad)
    }
}

/// The first hole of `hs` from place `i` on that offers a block for
/// `layout`, with its place and the offset of the block.
pub open spec fn first_offer(hs: Seq<MemoryHole>, layout: Layout, room: bool, i: int) -> Option<
    (int, int),
>
    decreases hs.len() - i,
{
    if i < 0 || i >= hs.len() {
        None
    } else if let Some(o) = hole_offer(hs[i], layout, room) {
        Some((i, o))
    } else {
        first_offer(hs, layout, room, i + 1)
    }
}

/// The offset of the block that a heap with these cursors and holes hands out
/// for `layout`: what the space below the ceiling offers, or else what the
/// first hole that offers anything does.
pub open spec fn offered(floor: int, ceiling: int, hs: Seq<MemoryHole>, layout: Layout) -> Option<
    int,
> {
    match ceiling_offer(floor, ceiling, layout) {
        Some((o, _)) => Some(o),
        None => match first_offer(hs, layout, ceiling - floor >= HOLE_RECORD_SIZE, 0) {
            Some((_, o)) => Some(o),
            None => None,
        },
    }
}

/// No byte at or below the ceiling is in a hole.
proof fn lemma_not_in_hole(hs: Seq<MemoryHole>, c: int, limit: int, b: int)
    requires
        holes_wf(hs, c, limit),
        b <= c,
    ensures
        !(exists|i: int| 0 <= i < hs.len() && (#[trigger] hs[i]).covers(b)),
{
    if exists|i: int| 0 <= i < hs.len() && (#[trigger] hs[i]).covers(b) {
        let i = choose|i: int| 0 <= i < hs.len() && (#[trigger] hs[i]).covers(b);
        assert(c < hs[i].base);
    }
}

proof fn lemma_unallocated_insert(hs: Seq<MemoryHole>, c: int, p: int, x: MemoryHole)
    requires
        0 <= p <= hs.len(),
    ensures
        unallocated(hs.insert(p, x), c) == unallocated(hs, c).union(x.bytes()),
{
    let after = hs.insert(p, x);
    assert forall|b: int| unallocated(after, c).contains(b) <==> unallocated(hs, c).union(
        x.bytes(),
    ).contains(b) by {
        if exists|i: int| 0 <= i < after.len() && (#[trigger] after[i]).covers(b) {
            let i = choose|i: int| 0 <= i < after.len() && (#[trigger] after[i]).covers(b);
            if i < p {
                assert(hs[i].covers(b));
            } else if i > p {
                assert(hs[i - 1].covers(b));
            }
        }
        if exists|i: int| 0 <= i < hs.len() && (#[trigger] hs[i]).covers(b) {
            let i = choose|i: int| 0 <= i < hs.len() && (#[trigger] hs[i]).covers(b);
            if i < p {
                assert(after[i].covers(b));
            } else {
                assert(after[i + 1].covers(b));
            }
        }
        if x.covers(b) {
            assert(after[p].covers(b));
        }
    }
    assert(unallocated(after, c) =~= unallocated(hs, c).union(x.bytes()));
}

proof fn lemma_unallocated_remove(hs: Seq<MemoryHole>, c: int, limit: int, p: int)
    requires
        holes_wf(hs, c, limit),
        0 <= p < hs.len(),
    ensures
        unallocated(hs.remove(p), c) == unallocated(hs, c).difference(hs[p].bytes()),
        holes_wf(hs.remove(p), c, limit),
{
    let after = hs.remove(p);
    assert forall|b: int| unallocated(after, c).contains(b) <==> unallocated(hs, c).difference(
        hs[p].bytes(),
    ).contains(b) by {
        if exists|i: int| 0 <= i < after.len() && (#[trigger] after[i]).covers(b) {
            let i = choose|i: int| 0 <= i < after.len() && (#[trigger] after[i]).covers(b);
            if i < p {
                assert(hs[i].covers(b));
                assert(hs[p].end() < hs[i].base);
            } else {
                assert(hs[i + 1].covers(b));
                assert(hs[i + 1].end() < hs[p].base);
            }
        }
        if (exists|i: int| 0 <= i < hs.len() && (#[trigger] hs[i]).covers(b)) && !hs[p].covers(b) {
            let i = choose|i: int| 0 <= i < hs.len() && (#[trigger] hs[i]).covers(b);
            if i < p {
                assert(after[i].covers(b));
            } else {
                assert(after[i - 1].covers(b));
            }
        }
        assert(hs[p].size > 0 && c < hs[p].base);
    }
    assert(unallocated(after, c) =~= unallocated(hs, c).difference(hs[p].bytes()));
    assert forall|i: int, j: int| 0 <= i < j < after.len() implies (#[trigger] after[j]).end() < (
    #[trigger] after[i]).base by {
        let a = if i < p { i } else { i + 1 };
        let b = if j < p { j } else { j + 1 };
        assert(hs[b].end() < hs[a].base);
    }
    assert forall|i: int| 0 <= i < after.len() implies (#[trigger] after[i]).size > 0 && c
        < after[i].base && after[i].end() <= limit by {
        let a = if i < p { i } else { i + 1 };
        assert(hs[a].size > 0);
    }
}

/// Replacing hole `p` by one that still lies strictly between its neighbours
/// and above the ceiling keeps the list valid.
proof fn lemma_hole_replace(hs: Seq<MemoryHole>, c: int, limit: int, p: int, x: MemoryHole)
    requires
        holes_wf(hs, c, limit),
        0 <= p < hs.len(),
        x.size > 0,
        c < x.base,
        x.end() <= limit,
        p > 0 ==> x.end() < hs[p - 1].base,
        p < hs.len() - 1 ==> hs[p + 1].end() < x.base,
    ensures
        holes_wf(hs.update(p, x), c, limit),
        unallocated(hs.update(p, x), c) == unallocated(hs, c).difference(hs[p].bytes()).union(
            x.bytes(),
        ),
        total(hs.update(p, x)) == total(hs) - hs[p].size + x.size,
{
    lemma_unallocated_remove(hs, c, limit, p);
    lemma_unallocated_insert(hs.remove(p), c, p, x);
    assert(hs.update(p, x) =~= hs.remove(p).insert(p, x));
    lemma_total_update(hs, p, x);
    let after = hs.update(p, x);
    assert forall|i: int, j: int| 0 <= i < j < after.len() implies (#[trigger] after[j]).end() < (
    #[trigger] after[i]).base by {
        assert(hs[j].end() < hs[i].base);
        if j == p && i < p - 1 {
            assert(hs[p - 1].end() < hs[i].base);
            assert(hs[p - 1].size > 0);
        }
        if i == p && j > p + 1 {
            assert(hs[j].end() < hs[p + 1].base);
            assert(hs[p + 1].size > 0);
        }
    }
    assert forall|i: int| 0 <= i < after.len() implies (#[trigger] after[i]).size > 0 && c
        < after[i].base && after[i].end() <= limit by {
        if i != p {
            assert(hs[i].size > 0);
        }
    }
}

/// Putting a hole in strictly between two neighbours and above the ceiling
/// keeps the list valid.
proof fn lemma_hole_insert(hs: Seq<MemoryHole>, c: int, limit: int, p: int, x: MemoryHole)
    requires
        holes_wf(hs, c, limit),
        0 <= p <= hs.len(),
        x.size > 0,
        c < x.base,
        x.end() <= limit,
        p > 0 ==> x.end() < hs[p - 1].base,
        p < hs.len() ==> hs[p].end() < x.base,
    ensures
        holes_wf(hs.insert(p, x), c, limit),
        unallocated(hs.insert(p, x), c) == unallocated(hs, c).union(x.bytes()),
        total(hs.insert(p, x)) == total(hs) + x.size,
{
    lemma_unallocated_insert(hs, c, p, x);
    lemma_total_insert(hs, p, x);
    let after = hs.insert(p, x);
    assert forall|i: int, j: int| 0 <= i < j < after.len() implies (#[trigger] after[j]).end() < (
    #[trigger] after[i]).base by {
        let a = if i < p { i } else { i - 1 };
        let b = if j < p { j } else { j - 1 };
        if i != p && j != p {
            assert(hs[b].end() < hs[a].base);
        } else if j == p {
            if a < p - 1 {
                assert(hs[p - 1].end() < hs[a].base);
            }
            assert(hs[p - 1].size > 0);
        } else {
            if b > p {
                assert(hs[b].end() < hs[p].base);
            }
            assert(hs[p].size > 0);
        }
    }
    assert forall|i: int| 0 <= i < after.len() implies (#[trigger] after[i]).size > 0 && c
        < after[i].base && after[i].end() <= limit by {
        let a = if i < p { i } else { i - 1 };
        if i != p {
            assert(hs[a].size > 0);
        }
    }
}

/// A block that lies in an old hole is apart from every hole that was cut
/// from that hole or was there before, and so are the blocks that were
/// live before.
proof fn lemma_piece_apart(
    live: Seq<MemoryHole>,
    hs: Seq<MemoryHole>,
    now: Seq<MemoryHole>,
    hole: MemoryHole,
    block: MemoryHole,
    i: int,
    k: int,
    j: int,
)
    requires
        0 <= i < hs.len(),
        hs[i] == hole,
        0 <= k <= live.len(),
        0 <= j < now.len(),
        hole.base <= block.base,
        block.end() <= hole.end(),
        forall|a: int, b: int|
            0 <= a < live.len() && 0 <= b < hs.len() ==> (#[trigger] live[a]).apart(
                #[trigger] hs[b],
            ),
        forall|a: int| 0 <= a < live.len() ==> (#[trigger] live[a]).size > 0,
        forall|a: int, b: int| 0 <= a < b < hs.len() ==> (#[trigger] hs[b]).end() < (
        #[trigger] hs[a]).base,
        forall|b: int|
            0 <= b < now.len() ==> (exists|a: int| 0 <= a < hs.len() && a != i && hs[a] == (
            #[trigger] now[b])) || (hole.base <= now[b].base && now[b].end() <= hole.end()
                && now[b].apart(block)),
    ensures
        live.push(block)[k].apart(now[j]),
{
    if k < live.len() {
        assert(live[k].apart(hs[i]));
        if exists|a: int| 0 <= a < hs.len() && a != i && hs[a] == now[j] {
            let a = choose|a: int| 0 <= a < hs.len() && a != i && hs[a] == now[j];
            assert(live[k].apart(hs[a]));
        }
    } else {
        if exists|a: int| 0 <= a < hs.len() && a != i && hs[a] == now[j] {
            let a = choose|a: int| 0 <= a < hs.len() && a != i && hs[a] == now[j];
            if a < i {
                assert(hs[i].end() < hs[a].base);
            } else {
                assert(hs[a].end() < hs[i].base);
            }
        }
    }
}


/// What cutting `block` out of hole `i` of `hs` leaves, as a list of holes:
/// the hole's rest above the block and its rest below, in that order, where
/// they are not empty.
pub open spec fn cut(hs: Seq<MemoryHole>, i: int, block: MemoryHole) -> Seq<MemoryHole> {
    let hole = hs[i];
    let below = MemoryHole { base: hole.base, size: (block.base - hole.base) as usize };
    let above = MemoryHole {
        base: (block.base + block.size) as usize,
        size: (hole.end() - block.end()) as usize,
    };
    if below.size > 0 && above.size > 0 {
        hs.update(i, above).insert(i + 1, below)
    } else if below.size > 0 {
        hs.update(i, below)
    } else if above.size > 0 {
        hs.update(i, above)
    } else {
        hs.remove(i)
    }
}

/// Every hole left by a cut is an old hole other than the one cut, or a rest
/// of the one cut that is apart from the block.
proof fn lemma_cut_pieces(hs: Seq<MemoryHole>, i: int, block: MemoryHole)
    requires
        0 <= i < hs.len(),
        hs[i].end() <= usize::MAX,
        block.size > 0,
        hs[i].base <= block.base,
        block.end() <= hs[i].end(),
    ensures
        forall|b: int|
            0 <= b < cut(hs, i, block).len() ==> (exists|a: int|
                0 <= a < hs.len() && a != i && hs[a] == (#[trigger] cut(hs, i, block)[b])) || (
            hs[i].base <= cut(hs, i, block)[b].base && cut(hs, i, block)[b].end() <= hs[i].end()
                && cut(hs, i, block)[b].apart(block)),
{
    let now = cut(hs, i, block);
    let hole = hs[i];
    let below_size = block.base - hole.base;
    let above_size = hole.end() - block.end();
    assert forall|b: int| 0 <= b < now.len() implies (exists|a: int|
        0 <= a < hs.len() && a != i && hs[a] == (#[trigger] now[b])) || (hole.base <= now[b].base
        && now[b].end() <= hole.end() && now[b].apart(block)) by {
        if below_size > 0 && above_size > 0 {
            if b < i {
                assert(hs[b] == now[b]);
            } else if b > i + 1 {
                assert(hs[b - 1] == now[b]);
            }
        } else if below_size > 0 || above_size > 0 {
            if b != i {
                assert(hs[b] == now[b]);
            }
        } else {
            if b < i {
                assert(hs[b] == now[b]);
            } else {
                assert(hs[b + 1] == now[b]);
            }
        }
    }
}

/// The two rests of hole `i` of `hs` beside `block`: the one below and the
/// one above.
pub open spec fn rests(hs: Seq<MemoryHole>, i: int, block: MemoryHole) -> (MemoryHole, MemoryHole) {
    (
        MemoryHole { base: hs[i].base, size: (block.base - hs[i].base) as usize },
        MemoryHole {
            base: (block.base + block.size) as usize,
            size: (hs[i].end() - block.end()) as usize,
        },
    )
}

/// What is known of a block in a hole and the hole's two rests beside it.
proof fn lemma_rests(hs: Seq<MemoryHole>, c: int, limit: int, i: int, block: MemoryHole)
    requires
        holes_wf(hs, c, limit),
        limit <= usize::MAX,
        0 <= i < hs.len(),
        block.size > 0,
        hs[i].base <= block.base,
        block.end() <= hs[i].end(),
    ensures
        hs[i].size > 0 && c < hs[i].base && hs[i].end() <= limit,
        hs[i].bytes() == rests(hs, i, block).0.bytes().union(block.bytes()).union(
            rests(hs, i, block).1.bytes(),
        ),
        rests(hs, i, block).0.bytes().disjoint(block.bytes()),
        rests(hs, i, block).1.bytes().disjoint(block.bytes()),
        rests(hs, i, block).0.bytes().disjoint(rests(hs, i, block).1.bytes()),
        hs[i].bytes().subset_of(unallocated(hs, c)),
        block.bytes().subset_of(unallocated(hs, c)),
        rests(hs, i, block).0.size + block.size + rests(hs, i, block).1.size == hs[i].size,
        rests(hs, i, block).0.end() == block.base,
        rests(hs, i, block).1.end() == hs[i].end(),
        i > 0 ==> hs[i].end() < hs[i - 1].base,
        i < hs.len() - 1 ==> hs[i + 1].end() < hs[i].base,
{
    let (below, above) = rests(hs, i, block);
    assert(hs[i].size > 0 && c < hs[i].base && hs[i].end() <= limit);
    assert(hs[i].bytes() =~= below.bytes().union(block.bytes()).union(above.bytes()));
    lemma_hole_bytes(hs, c, i);
}

proof fn lemma_cut_both(hs: Seq<MemoryHole>, c: int, limit: int, i: int, block: MemoryHole)
    requires
        holes_wf(hs, c, limit),
        limit <= usize::MAX,
        0 <= i < hs.len(),
        block.size > 0,
        hs[i].base < block.base,
        block.end() < hs[i].end(),
    ensures
        holes_wf(cut(hs, i, block), c, limit),
        unallocated(cut(hs, i, block), c) == unallocated(hs, c).difference(block.bytes()),
        total(cut(hs, i, block)) == total(hs) - block.size,
{
    let (below, above) = rests(hs, i, block);
    lemma_rests(hs, c, limit, i, block);
    lemma_hole_replace(hs, c, limit, i, above);
    lemma_hole_insert(hs.update(i, above), c, limit, i + 1, below);
    assert(unallocated(cut(hs, i, block), c) =~= unallocated(hs, c).difference(block.bytes()));
}

proof fn lemma_cut_one(hs: Seq<MemoryHole>, c: int, limit: int, i: int, block: MemoryHole)
    requires
        holes_wf(hs, c, limit),
        limit <= usize::MAX,
        0 <= i < hs.len(),
        block.size > 0,
        hs[i].base <= block.base,
        block.end() <= hs[i].end(),
        (hs[i].base == block.base) != (block.end() == hs[i].end()),
    ensures
        holes_wf(cut(hs, i, block), c, limit),
        unallocated(cut(hs, i, block), c) == unallocated(hs, c).difference(block.bytes()),
        total(cut(hs, i, block)) == total(hs) - block.size,
{
    let (below, above) = rests(hs, i, block);
    lemma_rests(hs, c, limit, i, block);
    if below.size > 0 {
        lemma_hole_replace(hs, c, limit, i, below);
    } else {
        lemma_hole_replace(hs, c, limit, i, above);
    }
    assert(unallocated(cut(hs, i, block), c) =~= unallocated(hs, c).difference(block.bytes()));
}

proof fn lemma_cut_all(hs: Seq<MemoryHole>, c: int, limit: int, i: int, block: MemoryHole)
    requires
        holes_wf(hs, c, limit),
        limit <= usize::MAX,
        0 <= i < hs.len(),
        block.size > 0,
        hs[i].base == block.base,
        block.end() == hs[i].end(),
    ensures
        holes_wf(cut(hs, i, block), c, limit),
        unallocated(cut(hs, i, block), c) == unallocated(hs, c).difference(block.bytes()),
        total(cut(hs, i, block)) == total(hs) - block.size,
{
    lemma_rests(hs, c, limit, i, block);
    lemma_unallocated_remove(hs, c, limit, i);
    lemma_total_remove(hs, i);
    assert(hs[i].bytes() =~= block.bytes());
}

/// A cut keeps the list of holes valid, takes the block's bytes and no
/// others out of what is not handed out, and lowers the sum of the holes by
/// the block's size.
proof fn lemma_cut_holes(hs: Seq<MemoryHole>, c: int, limit: int, i: int, block: MemoryHole)
    requires
        holes_wf(hs, c, limit),
        limit <= usize::MAX,
        0 <= i < hs.len(),
        block.size > 0,
        hs[i].base <= block.base,
        block.end() <= hs[i].end(),
    ensures
        holes_wf(cut(hs, i, block), c, limit),
        block.bytes().subset_of(unallocated(hs, c)),
        unallocated(cut(hs, i, block), c) == unallocated(hs, c).difference(block.bytes()),
        total(cut(hs, i, block)) == total(hs) - block.size,
{
    lemma_rests(hs, c, limit, i, block);
    if hs[i].base < block.base && block.end() < hs[i].end() {
        lemma_cut_both(hs, c, limit, i, block);
    } else if hs[i].base == block.base && block.end() == hs[i].end() {
        lemma_cut_all(hs, c, limit, i, block);
    } else {
        lemma_cut_one(hs, c, limit, i, block);
    }
}

/// After a cut the live blocks, the new one among them, are apart from each
/// other and from the holes.
proof fn lemma_carve(
    hs: Seq<MemoryHole>,
    c: int,
    limit: int,
    live: Seq<MemoryHole>,
    i: int,
    block: MemoryHole,
    now: Seq<MemoryHole>,
)
    requires
        holes_wf(hs, c, limit),
        live_wf(live, hs, c, limit),
        limit <= usize::MAX,
        0 <= i < hs.len(),
        block.size > 0,
        hs[i].base <= block.base,
        block.end() <= hs[i].end(),
        now == cut(hs, i, block),
    ensures
        holes_wf(now, c, limit),
        live_wf(live.push(block), now, c, limit),
        block.bytes().subset_of(unallocated(hs, c)),
        unallocated(now, c) == unallocated(hs, c).difference(block.bytes()),
        total(now) == total(hs) - block.size,
        total(live.push(block)) == total(live) + block.size,
{
    lemma_cut_holes(hs, c, limit, i, block);
    lemma_cut_pieces(hs, i, block);
    lemma_total_push(live, block);
    let after = live.push(block);
    assert(hs[i].size > 0 && c < hs[i].base && hs[i].end() <= limit);
    assert forall|k: int, j: int| 0 <= k < after.len() && 0 <= j < now.len() implies (
    #[trigger] after[k]).apart(#[trigger] now[j]) by {
        lemma_piece_apart(live, hs, now, hs[i], block, i, k, j);
    }
    assert forall|k: int, l: int| 0 <= k < l < after.len() implies (#[trigger] after[k]).apart(
        #[trigger] after[l],
    ) by {
        if l == after.len() - 1 {
            assert(live[k].apart(hs[i]));
        }
    }
}

/// Whether `p` is the place of a run at `base` among the holes `hs`: the
/// holes before it lie higher, the others lower.
pub open spec fn place(hs: Seq<MemoryHole>, base: int, p: int) -> bool {
    &&& 0 <= p <= hs.len()
    &&& forall|j: int| 0 <= j < p ==> (#[trigger] hs[j]).base > base
    &&& forall|j: int| p <= j < hs.len() ==> (#[trigger] hs[j]).base < base
}

/// Whether a released block would join the space below the ceiling or a
/// hole, so that it needs no record of its own.
pub open spec fn joins(hs: Seq<MemoryHole>, ceiling: int, block: MemoryHole) -> bool {
    block.base == ceiling || exists|i: int|
        0 <= i < hs.len() && ((#[trigger] hs[i]).base == block.end() || hs[i].end() == block.base)
}

/// The holes and the ceiling after `block`, whose place among the holes is
/// `p`, has been released: the block joins the hole above it, the hole below
/// it and the space below the ceiling where it touches them, and is a hole
/// of its own where it touches nothing.
pub open spec fn join(hs: Seq<MemoryHole>, ceiling: int, p: int, block: MemoryHole) -> (
    Seq<MemoryHole>,
    int,
) {
    let up = p > 0 && hs[p - 1].base == block.end();
    let low = p < hs.len() && hs[p].end() == block.base;
    if block.base == ceiling {
        if up {
            (hs.remove(p - 1), hs[p - 1].end())
        } else {
            (hs, block.end())
        }
    } else if up && low {
        (
            hs.update(
                p - 1,
                MemoryHole {
                    base: hs[p].base,
                    size: (hs[p].size + block.size + hs[p - 1].size) as usize,
                },
            ).remove(p),
            ceiling,
        )
    } else if up {
        (
            hs.update(
                p - 1,
                MemoryHole { base: block.base, size: (block.size + hs[p - 1].size) as usize },
            ),
            ceiling,
        )
    } else if low {
        (
            hs.update(p, MemoryHole { base: hs[p].base, size: (hs[p].size + block.size) as usize }),
            ceiling,
        )
    } else {
        (hs.insert(p, block), ceiling)
    }
}

/// What is known of a live block and its neighbours among the holes: the
/// hole above begins at or after the block's end, the hole below ends at or
/// before its base, and the block touches a hole only at these two.
proof fn lemma_neighbours(
    hs: Seq<MemoryHole>,
    c: int,
    limit: int,
    live: Seq<MemoryHole>,
    k: int,
    p: int,
)
    requires
        holes_wf(hs, c, limit),
        live_wf(live, hs, c, limit),
        0 <= k < live.len(),
        place(hs, live[k].base as int, p),
    ensures
        p > 0 ==> live[k].end() <= hs[p - 1].base,
        p < hs.len() ==> hs[p].end() <= live[k].base,
        live[k].base == c ==> p == hs.len(),
        joins(hs, c, live[k]) <==> live[k].base == c || (p > 0 && hs[p - 1].base == live[k].end())
            || (p < hs.len() && hs[p].end() == live[k].base),
{
    let block = live[k];
    if p > 0 {
        assert(block.apart(hs[p - 1]));
        assert(hs[p - 1].size > 0);
    }
    if p < hs.len() {
        assert(block.apart(hs[p]));
        assert(hs[p].size > 0);
    }
    if exists|i: int|
        0 <= i < hs.len() && ((#[trigger] hs[i]).base == block.end() || hs[i].end() == block.base) {
        let i = choose|i: int|
            0 <= i < hs.len() && ((#[trigger] hs[i]).base == block.end() || hs[i].end()
                == block.base);
        assert(hs[i].size > 0);
        if i < p - 1 {
            assert(hs[p - 1].end() < hs[i].base);
        }
        if i > p {
            assert(hs[i].end() < hs[p].base);
        }
    }
}

/// A release keeps the list of holes valid, gives the block's bytes, and no
/// others, back to what is not handed out, and adds the block's size to the
/// sum of the holes and the ceiling.
proof fn lemma_join_holes(
    hs: Seq<MemoryHole>,
    c: int,
    limit: int,
    live: Seq<MemoryHole>,
    k: int,
    p: int,
)
    requires
        holes_wf(hs, c, limit),
        live_wf(live, hs, c, limit),
        0 <= c <= limit <= usize::MAX,
        0 <= k < live.len(),
        place(hs, live[k].base as int, p),
    ensures
        holes_wf(join(hs, c, p, live[k]).0, join(hs, c, p, live[k]).1, limit),
        c <= join(hs, c, p, live[k]).1 <= limit,
        unallocated(join(hs, c, p, live[k]).0, join(hs, c, p, live[k]).1) == unallocated(
            hs,
            c,
        ).union(live[k].bytes()),
        total(join(hs, c, p, live[k]).0) + join(hs, c, p, live[k]).1 == total(hs) + c
            + live[k].size,
{
    let block = live[k];
    let (now, c2) = join(hs, c, p, block);
    lemma_neighbours(hs, c, limit, live, k, p);
    assert(block.size > 0 && c <= block.base && block.end() <= limit);
    let up = p > 0 && hs[p - 1].base == block.end();
    let low = p < hs.len() && hs[p].end() == block.base;
    if p > 0 {
        assert(hs[p - 1].size > 0 && hs[p - 1].end() <= limit);
    }
    if p < hs.len() {
        assert(hs[p].size > 0 && c < hs[p].base);
    }
    if block.base == c {
        if up {
            lemma_unallocated_remove(hs, c, limit, p - 1);
            lemma_total_remove(hs, p - 1);
            assert forall|i: int| 0 <= i < now.len() implies (#[trigger] now[i]).size > 0 && c2
                < now[i].base && now[i].end() <= limit by {
                assert(now[i] == hs[i]);
                assert(hs[p - 1].end() < hs[i].base);
            }
        } else {
            assert forall|i: int| 0 <= i < now.len() implies (#[trigger] now[i]).size > 0 && c2
                < now[i].base && now[i].end() <= limit by {
                assert(hs[i].size > 0);
                assert(block.apart(hs[i]));
                if i < p - 1 {
                    assert(hs[p - 1].end() < hs[i].base);
                }
            }
        }
        assert forall|b: int|
            unallocated(now, c2).contains(b) <==> unallocated(hs, c).union(block.bytes()).contains(
                b,
            ) by {
            if b < c2 {
                lemma_not_in_hole(now, c2, limit, b);
            }
            if b <= c {
                lemma_not_in_hole(hs, c, limit, b);
            }
            if up {
                assert(unallocated(hs.remove(p - 1), c).contains(b) <==> unallocated(
                    hs,
                    c,
                ).difference(hs[p - 1].bytes()).contains(b));
                if hs[p - 1].covers(b) {
                    assert(unallocated(hs, c).contains(b));
                }
            }
        }
    } else if up && low {
        let merged = MemoryHole {
            base: hs[p].base,
            size: (hs[p].size + block.size + hs[p - 1].size) as usize,
        };
        if p + 1 < hs.len() {
            assert(hs[p + 1].end() < hs[p].base);
        }
        if p - 1 > 0 {
            assert(hs[p - 1].end() < hs[p - 2].base);
        }
        let mid = hs.remove(p);
        lemma_unallocated_remove(hs, c, limit, p);
        lemma_total_remove(hs, p);
        assert(mid[p - 1] == hs[p - 1]);
        if p < mid.len() {
            assert(mid[p] == hs[p + 1]);
        }
        if p - 1 > 0 {
            assert(mid[p - 2] == hs[p - 2]);
        }
        lemma_hole_replace(mid, c, limit, p - 1, merged);
        assert(now =~= mid.update(p - 1, merged));
        assert(merged.bytes() =~= hs[p].bytes().union(block.bytes()).union(hs[p - 1].bytes()));
        lemma_hole_bytes(hs, c, p);
        lemma_hole_bytes(hs, c, p - 1);
    } else if up {
        let grown = MemoryHole { base: block.base, size: (block.size + hs[p - 1].size) as usize };
        if p - 1 > 0 {
            assert(hs[p - 1].end() < hs[p - 2].base);
        }
        lemma_hole_replace(hs, c, limit, p - 1, grown);
        assert(grown.bytes() =~= block.bytes().union(hs[p - 1].bytes()));
        lemma_hole_bytes(hs, c, p - 1);
    } else if low {
        let grown = MemoryHole { base: hs[p].base, size: (hs[p].size + block.size) as usize };
        if p + 1 < hs.len() {
            assert(hs[p + 1].end() < hs[p].base);
        }
        lemma_hole_replace(hs, c, limit, p, grown);
        assert(grown.bytes() =~= block.bytes().union(hs[p].bytes()));
        lemma_hole_bytes(hs, c, p);
    } else {
        lemma_hole_insert(hs, c, limit, p, block);
    }
    assert(unallocated(now, c2) =~= unallocated(hs, c).union(block.bytes()));
}

/// The bytes of a hole are not handed out.
proof fn lemma_hole_bytes(hs: Seq<MemoryHole>, c: int, i: int)
    requires
        0 <= i < hs.len(),
    ensures
        hs[i].bytes().subset_of(unallocated(hs, c)),
{
    assert forall|b: int| hs[i].covers(b) implies unallocated(hs, c).contains(b) by {
        assert(hs[i].covers(b));
    }
}

/// Every hole after a release is an old hole or lies within the old holes
/// next to the block and the block.
proof fn lemma_join_pieces(hs: Seq<MemoryHole>, c: int, p: int, block: MemoryHole, i: int)
    requires
        0 <= p <= hs.len(),
        0 <= i < join(hs, c, p, block).0.len(),
        block.end() <= usize::MAX,
        p > 0 ==> block.end() <= hs[p - 1].base && hs[p - 1].end() <= usize::MAX,
        p < hs.len() ==> hs[p].end() <= block.base,
    ensures
        (exists|a: int| 0 <= a < hs.len() && hs[a] == join(hs, c, p, block).0[i]) || {
            let x = join(hs, c, p, block).0[i];
            let lo = if p < hs.len() && hs[p].end() == block.base {
                hs[p].base
            } else {
                block.base
            };
            let hi = if p > 0 && hs[p - 1].base == block.end() {
                hs[p - 1].end()
            } else {
                block.end()
            };
            x.base == lo && x.end() == hi
        },
{
    let now = join(hs, c, p, block).0;
    let up = p > 0 && hs[p - 1].base == block.end();
    let low = p < hs.len() && hs[p].end() == block.base;
    if block.base == c {
        if up {
            if i < p - 1 {
                assert(now[i] == hs[i]);
            } else {
                assert(now[i] == hs[i + 1]);
            }
        } else {
            assert(now[i] == hs[i]);
        }
    } else if up && low {
        if i < p - 1 {
            assert(now[i] == hs[i]);
        } else if i > p - 1 {
            assert(now[i] == hs[i + 1]);
        }
    } else if up {
        if i != p - 1 {
            assert(now[i] == hs[i]);
        }
    } else if low {
        if i != p {
            assert(now[i] == hs[i]);
        }
    } else {
        if i < p {
            assert(now[i] == hs[i]);
        } else if i > p {
            assert(now[i] == hs[i - 1]);
        }
    }
}

/// After a release the blocks that stay live are above the ceiling and apart
/// from each other and from the holes.
proof fn lemma_join_live(
    hs: Seq<MemoryHole>,
    c: int,
    limit: int,
    live: Seq<MemoryHole>,
    k: int,
    p: int,
)
    requires
        holes_wf(hs, c, limit),
        live_wf(live, hs, c, limit),
        0 <= c <= limit <= usize::MAX,
        0 <= k < live.len(),
        place(hs, live[k].base as int, p),
    ensures
        live_wf(live.remove(k), join(hs, c, p, live[k]).0, join(hs, c, p, live[k]).1, limit),
        total(live.remove(k)) == total(live) - live[k].size,
{
    let block = live[k];
    let (now, c2) = join(hs, c, p, block);
    let rest = live.remove(k);
    lemma_neighbours(hs, c, limit, live, k, p);
    lemma_total_remove(live, k);
    assert(block.size > 0 && c <= block.base && block.end() <= limit);
    if p > 0 {
        assert(hs[p - 1].size > 0 && hs[p - 1].end() <= limit);
    }
    if p < hs.len() {
        assert(hs[p].size > 0 && c < hs[p].base);
    }
    assert forall|a: int| 0 <= a < rest.len() implies (#[trigger] rest[a]).size > 0 && c2
        <= rest[a].base && rest[a].end() <= limit by {
        let b = if a < k { a } else { a + 1 };
        assert(rest[a] == live[b]);
        assert(live[b].size > 0);
        if a < k {
            assert(live[b].apart(live[k]));
        } else {
            assert(live[k].apart(live[b]));
        }
        if p > 0 {
            assert(live[b].apart(hs[p - 1]));
        }
    }
    assert forall|a: int, b: int| 0 <= a < b < rest.len() implies (#[trigger] rest[a]).apart(
        #[trigger] rest[b],
    ) by {
        let x = if a < k { a } else { a + 1 };
        let y = if b < k { b } else { b + 1 };
        assert(live[x].apart(live[y]));
    }
    assert forall|a: int, i: int| 0 <= a < rest.len() && 0 <= i < now.len() implies (
    #[trigger] rest[a]).apart(#[trigger] now[i]) by {
        let x = if a < k { a } else { a + 1 };
        assert(rest[a] == live[x]);
        assert(live[x].size > 0);
        if x < k {
            assert(live[x].apart(live[k]));
        } else {
            assert(live[k].apart(live[x]));
        }
        if p > 0 {
            assert(live[x].apart(hs[p - 1]));
        }
        if p < hs.len() {
            assert(live[x].apart(hs[p]));
        }
        lemma_join_pieces(hs, c, p, block, i);
        if exists|j: int| 0 <= j < hs.len() && hs[j] == now[i] {
            let j = choose|j: int| 0 <= j < hs.len() && hs[j] == now[i];
            assert(live[x].apart(hs[j]));
        }
    }
}

/// A byte above the ceiling that is not handed out lies in a hole.
proof fn lemma_in_some_hole(hs: Seq<MemoryHole>, c: int, b: int) -> (i: int)
    requires
        unallocated(hs, c).contains(b),
        b >= c,
    ensures
        0 <= i < hs.len(),
        hs[i].covers(b),
{
    choose|i: int| 0 <= i < hs.len() && (#[trigger] hs[i]).covers(b)
}

/// Two valid lists of holes that leave the same bytes not handed out agree
/// on their first `n` holes.
proof fn lemma_same_prefix(
    h1: Seq<MemoryHole>,
    h2: Seq<MemoryHole>,
    c: int,
    limit: int,
    n: int,
)
    requires
        holes_wf(h1, c, limit),
        holes_wf(h2, c, limit),
        0 <= c,
        unallocated(h1, c) == unallocated(h2, c),
        0 <= n <= h1.len(),
        n <= h2.len(),
    ensures
        forall|i: int| 0 <= i < n ==> h1[i] == h2[i],
    decreases n,
{
    if n > 0 {
        lemma_same_prefix(h1, h2, c, limit, n - 1);
        let i = n - 1;
        lemma_below_end(h1, h2, c, limit, i);
        lemma_below_end(h2, h1, c, limit, i);
        lemma_above_base(h1, h2, c, limit, i);
        lemma_above_base(h2, h1, c, limit, i);
    }
}

/// Where two lists agree before place `i`, the `i`-th hole of the first
/// does not end above the `i`-th of the second.
proof fn lemma_below_end(
    h1: Seq<MemoryHole>,
    h2: Seq<MemoryHole>,
    c: int,
    limit: int,
    i: int,
)
    requires
        holes_wf(h1, c, limit),
        holes_wf(h2, c, limit),
        0 <= c,
        unallocated(h1, c) == unallocated(h2, c),
        0 <= i < h1.len(),
        i < h2.len(),
        forall|j: int| 0 <= j < i ==> h1[j] == h2[j],
    ensures
        h1[i].end() <= h2[i].end(),
{
    let a = h1[i];
    let b = a.end() - 1;
    assert(a.size > 0 && c < a.base);
    assert(a.covers(b));
    assert(unallocated(h1, c).contains(b));
    let j = lemma_in_some_hole(h2, c, b);
    if j < i {
        assert(h1[j] == h2[j]);
        assert(h1[i].end() < h1[j].base);
    } else if j > i {
        assert(h2[j].end() < h2[i].base);
        assert(h2[i].size > 0);
    }
}

/// Where two lists agree before place `i` and their `i`-th holes end at the
/// same byte, the `i`-th hole of the first does not begin below the `i`-th
/// of the second.
proof fn lemma_above_base(
    h1: Seq<MemoryHole>,
    h2: Seq<MemoryHole>,
    c: int,
    limit: int,
    i: int,
)
    requires
        holes_wf(h1, c, limit),
        holes_wf(h2, c, limit),
        0 <= c,
        unallocated(h1, c) == unallocated(h2, c),
        0 <= i < h1.len(),
        i < h2.len(),
        forall|j: int| 0 <= j < i ==> h1[j] == h2[j],
        h1[i].end() == h2[i].end(),
    ensures
        h1[i].base >= h2[i].base,
{
    let a = h1[i];
    let x = h2[i];
    assert(a.size > 0 && c < a.base);
    assert(x.size > 0 && c < x.base);
    if a.base < x.base {
        let b = x.base - 1;
        assert(a.covers(b));
        assert(unallocated(h1, c).contains(b));
        let j = lemma_in_some_hole(h2, c, b);
        if j < i {
            assert(h2[i].end() < h2[j].base);
        } else if j > i {
            assert(h2[j].end() < h2[i].base);
        }
    }
}

/// The state of a heap is determined by the bytes that are not handed out:
/// two valid lists of holes with their ceilings that leave the same bytes are
/// the same list and the same ceiling.
pub proof fn lemma_canonical(
    h1: Seq<MemoryHole>,
    c1: int,
    h2: Seq<MemoryHole>,
    c2: int,
    limit: int,
)
    requires
        holes_wf(h1, c1, limit),
        holes_wf(h2, c2, limit),
        0 <= c1,
        0 <= c2,
        unallocated(h1, c1) == unallocated(h2, c2),
    ensures
        c1 == c2,
        h1 == h2,
{
    if c1 < c2 {
        assert(unallocated(h2, c2).contains(c1));
        lemma_not_in_hole(h1, c1, limit, c1);
        assert(!unallocated(h1, c1).contains(c1));
    }
    if c2 < c1 {
        assert(unallocated(h1, c1).contains(c2));
        lemma_not_in_hole(h2, c2, limit, c2);
        assert(!unallocated(h2, c2).contains(c2));
    }
    let n = if h1.len() <= h2.len() {
        h1.len() as int
    } else {
        h2.len() as int
    };
    lemma_same_prefix(h1, h2, c1, limit, n);
    if h1.len() > n {
        lemma_no_more(h2, h1, c1, limit);
    }
    if h2.len() > n {
        lemma_no_more(h1, h2, c1, limit);
    }
    assert(h1 =~= h2);
}

/// A list that agrees with a longer one on all its holes does not leave the
/// same bytes.
proof fn lemma_no_more(short: Seq<MemoryHole>, long: Seq<MemoryHole>, c: int, limit: int)
    requires
        holes_wf(short, c, limit),
        holes_wf(long, c, limit),
        0 <= c,
        short.len() < long.len(),
        forall|j: int| 0 <= j < short.len() ==> short[j] == long[j],
    ensures
        unallocated(short, c) != unallocated(long, c),
{
    let a = long[short.len() as int];
    assert(a.size > 0 && c < a.base);
    assert(a.covers(a.base as int));
    assert(unallocated(long, c).contains(a.base as int));
    if unallocated(short, c).contains(a.base as int) {
        let j = lemma_in_some_hole(short, c, a.base as int);
        assert(short[j] == long[j]);
        assert(long[short.len() as int].end() < long[j].base);
    }
}

/// A run that begins where no hole begins has a place among the holes.
proof fn lemma_find_place(hs: Seq<MemoryHole>, c: int, limit: int, base: int, from: int) -> (p:
    int)
    requires
        holes_wf(hs, c, limit),
        0 <= from <= hs.len(),
        forall|j: int| 0 <= j < from ==> (#[trigger] hs[j]).base > base,
        forall|j: int| 0 <= j < hs.len() ==> (#[trigger] hs[j]).base != base,
    ensures
        place(hs, base, p),
    decreases hs.len() - from,
{
    if from == hs.len() {
        from
    } else if hs[from].base < base {
        assert forall|j: int| from <= j < hs.len() implies (#[trigger] hs[j]).base < base by {
            if j > from {
                assert(hs[j].end() < hs[from].base);
                assert(hs[j].size > 0);
            }
        }
        from
    } else {
        lemma_find_place(hs, c, limit, base, from + 1)
    }
}

/// The kernel heap allocator over the byte offsets `0..limit` of a heap at
/// address `base`.
pub struct DirectBlockAllocator<S: HoleStore> {
    base: u64,
    size: usize,
    floor: usize,
    ceiling: usize,
    store: S,
    live: Ghost<Seq<MemoryHole>>,
}

impl<S: HoleStore> DirectBlockAllocator<S> {
    /// The address of the heap's first byte.
    pub closed spec fn base(&self) -> int {
        self.base as int
    }

    /// The size of the heap in bytes.
    pub closed spec fn limit(&self) -> int {
        self.size as int
    }

    /// The bytes that the hole records take at the low end.
    pub closed spec fn floor(&self) -> int {
        self.floor as int
    }

    /// The offset below which nothing is handed out.
    pub closed spec fn ceiling(&self) -> int {
        self.ceiling as int
    }

    /// The holes, highest first.
    pub closed spec fn holes(&self) -> Seq<MemoryHole> {
        self.store.records().subrange(0, self.floor as int / 16)
    }

    /// The blocks that are handed out, in the order in which they were.
    pub closed spec fn live(&self) -> Seq<MemoryHole> {
        self.live@
    }

    /// Whether the cursors and the record array fit each other.
    pub closed spec fn shaped(&self) -> bool {
        &&& self.floor % 16 == 0
        &&& self.floor <= self.ceiling <= self.size
        &&& self.size as int / 16 <= self.store.records().len()
        &&& self.base + self.size <= u64::MAX
    }

    /// The invariant of the heap.
    pub open spec fn wf(&self) -> bool {
        &&& self.shaped()
        &&& self.floor() == self.holes().len() * 16
        &&& 0 <= self.floor() <= self.ceiling() <= self.limit()
        &&& holes_wf(self.holes(), self.ceiling(), self.limit())
        &&& live_wf(self.live(), self.holes(), self.ceiling(), self.limit())
        &&& total(self.live()) + total(self.holes()) == self.limit() - self.ceiling()
    }

    /// The bytes that are not handed out.
    pub open spec fn unallocated(&self) -> Set<int> {
        unallocated(self.holes(), self.ceiling())
    }

    /// Whether there is room at the floor for one more record.
    pub open spec fn room(&self) -> bool {
        self.ceiling() - self.floor() >= HOLE_RECORD_SIZE
    }

    /// A heap of `size` bytes at address `base`, with nothing handed out and
    /// its records in `store`.
    pub fn new(base: u64, size: usize, store: S) -> (r: Self)
        requires
            size as int / 16 <= store.records().len(),
            base + size <= u64::MAX,
        ensures
            r.wf(),
            r.base() == base,
            r.limit() == size,
            r.floor() == 0,
            r.ceiling() == size,
            r.holes() == Seq::<MemoryHole>::empty(),
            r.live() == Seq::<MemoryHole>::empty(),
    {
        let r = Self { base, size, floor: 0, ceiling: size, store, live: Ghost(Seq::empty()) };
        assert(r.holes() =~= Seq::<MemoryHole>::empty());
        r
    }

    /// The bytes that the hole records take at the low end.
    pub fn get_floor(&self) -> (r: usize)
        ensures
            r == self.floor(),
    {
        self.floor
    }

    /// The offset below which nothing is handed out.
    pub fn get_ceiling(&self) -> (r: usize)
        ensures
            r == self.ceiling(),
    {
        self.ceiling
    }

    /// The bytes that the heap counts as used: those above the ceiling.
    /// They are the bytes of the blocks that are handed out and of the holes
    /// between them.
    pub fn used_bytes(&self) -> (r: usize)
        requires
            self.wf(),
        ensures
            r == self.limit() - self.ceiling(),
            r == total(self.live()) + total(self.holes()),
    {
        self.size - self.ceiling
    }

    /// The number of holes.
    pub fn hole_count(&self) -> (r: usize)
        ensures
            self.wf() ==> r == self.holes().len(),
    {
        self.floor / HOLE_RECORD_SIZE
    }

    /// The `i`-th hole from the top, if there are that many.
    pub fn hole(&self, i: usize) -> (r: Option<MemoryHole>)
        requires
            self.wf(),
        ensures
            r == if i < self.holes().len() {
                Some(self.holes()[i as int])
            } else {
                None
            },
    {
        if i < self.floor / HOLE_RECORD_SIZE {
            Some(self.store.get(i))
        } else {
            None
        }
    }

    /// Puts `h` at place `p` of the hole list, moving what follows down by
    /// one place.
    fn hole_insert(&mut self, p: usize, h: MemoryHole)
        requires
            old(self).shaped(),
            old(self).floor + 16 <= old(self).ceiling,
            p <= old(self).floor / 16,
        ensures
            final(self).shaped(),
            final(self).base == old(self).base,
            final(self).size == old(self).size,
            final(self).ceiling == old(self).ceiling,
            final(self).live == old(self).live,
            final(self).floor == old(self).floor + 16,
            final(self).holes() == old(self).holes().insert(p as int, h),
    {
        let count: usize = self.floor / HOLE_RECORD_SIZE;
        let mut k: usize = count;
        while k > p
            invariant
                p <= k <= count,
                count == self.floor / 16,
                count < self.store.records().len(),
                self.base == old(self).base,
                self.size == old(self).size,
                self.floor == old(self).floor,
                self.ceiling == old(self).ceiling,
                self.live == old(self).live,
                self.store.records().len() == old(self).store.records().len(),
                forall|j: int|
                    0 <= j <= k ==> self.store.records()[j] == old(self).store.records()[j],
                forall|j: int|
                    k < j <= count ==> self.store.records()[j] == old(self).store.records()[j - 1],
            decreases k,
        {
            let moved = self.store.get(k - 1);
            self.store.put(k, moved);
            k -= 1;
        }
        self.store.put(p, h);
        self.floor = self.floor + HOLE_RECORD_SIZE;
        assert(self.holes() =~= old(self).holes().insert(p as int, h));
    }

    /// Takes the hole at place `p` out of the list, moving what follows up
    /// by one place.
    fn hole_remove(&mut self, p: usize)
        requires
            old(self).shaped(),
            p < old(self).floor / 16,
        ensures
            final(self).shaped(),
            final(self).base == old(self).base,
            final(self).size == old(self).size,
            final(self).ceiling == old(self).ceiling,
            final(self).live == old(self).live,
            final(self).floor == old(self).floor - 16,
            final(self).holes() == old(self).holes().remove(p as int),
    {
        let count: usize = self.floor / HOLE_RECORD_SIZE;
        let mut k: usize = p;
        while k + 1 < count
            invariant
                p <= k < count,
                count == self.floor / 16,
                count <= self.store.records().len(),
                self.base == old(self).base,
                self.size == old(self).size,
                self.floor == old(self).floor,
                self.ceiling == old(self).ceiling,
                self.live == old(self).live,
                self.store.records().len() == old(self).store.records().len(),
                forall|j: int| 0 <= j < p ==> self.store.records()[j] == old(self).store.records()[j],
                forall|j: int|
                    p <= j < k ==> self.store.records()[j] == old(self).store.records()[j + 1],
                forall|j: int|
                    k <= j < count ==> self.store.records()[j] == old(self).store.records()[j],
            decreases count - k,
        {
            let moved = self.store.get(k + 1);
            self.store.put(k, moved);
            k += 1;
        }
        self.floor = self.floor - HOLE_RECORD_SIZE;
        assert(self.holes() =~= old(self).holes().remove(p as int));
    }

    /// Replaces the hole at place `p` of the list.
    fn hole_set(&mut self, p: usize, h: MemoryHole)
        requires
            old(self).shaped(),
            p < old(self).floor / 16,
        ensures
            final(self).shaped(),
            final(self).base == old(self).base,
            final(self).size == old(self).size,
            final(self).ceiling == old(self).ceiling,
            final(self).live == old(self).live,
            final(self).floor == old(self).floor,
            final(self).holes() == old(self).holes().update(p as int, h),
    {
        self.store.put(p, h);
        assert(self.holes() =~= old(self).holes().update(p as int, h));
    }

    /// Whether nothing but the live blocks and what the operation says has
    /// changed: the heap is where and as large as it was.
    pub open spec fn same_heap(&self, before: &Self) -> bool {
        self.base() == before.base() && self.limit() == before.limit()
    }

    /// Whether the heap is in the very state of `before`.
    pub open spec fn same_state(&self, before: &Self) -> bool {
        &&& self.same_heap(before)
        &&& self.floor() == before.floor()
        &&& self.ceiling() == before.ceiling()
        &&& self.holes() == before.holes()
        &&& self.live() == before.live()
    }

    /// What an allocation of the block `block` does to the heap.
    pub open spec fn handed_out(&self, before: &Self, block: MemoryHole) -> bool {
        &&& self.same_heap(before)
        &&& block.size > 0
        &&& block.end() <= self.limit()
        &&& block.bytes().subset_of(before.unallocated())
        &&& self.unallocated() == before.unallocated().difference(block.bytes())
        &&& self.live() == before.live().push(block)
    }

    /// Takes a block for `layout` from the space below the ceiling.
    fn try_alloc_from_ceiling(&mut self, layout: Layout) -> (r: Option<usize>)
        requires
            old(self).wf(),
        ensures
            final(self).wf(),
            match r {
                Some(o) => {
                    &&& ceiling_offer(old(self).floor(), old(self).ceiling(), layout) matches Some(
                        (c, _),
                    ) && c == o
                    &&& final(self).handed_out(old(self), MemoryHole { base: o, size: layout.size })
                },
                None => {
                    &&& ceiling_offer(old(self).floor(), old(self).ceiling(), layout) is None
                    &&& *final(self) == *old(self)
                },
            },
    {
        let size = layout.size;
        let align = layout.align;
        if size == 0 || align == 0 {
            return None;
        }
        let rest = self.ceiling - self.floor;
        if rest < size {
            return None;
        }
        let cand = self.ceiling - size;
        let waste = cand % align;
        let ghost hs = self.holes();
        let ghost c0 = self.ceiling as int;
        if waste == 0 {
            self.ceiling = cand;
            let ghost block = MemoryHole { base: cand, size };
            proof {
                self.live@ = self.live@.push(block);
                lemma_total_push(old(self).live(), block);
                assert(self.holes() == hs);
                assert forall|b: int|
                    self.unallocated().contains(b) <==> old(self).unallocated().difference(
                        block.bytes(),
                    ).contains(b) by {
                    if b <= c0 {
                        lemma_not_in_hole(hs, c0, self.limit(), b);
                    }
                }
                assert(self.unallocated() =~= old(self).unallocated().difference(block.bytes()));
            }
            Some(cand)
        } else if rest - size >= waste && rest - size - waste >= HOLE_RECORD_SIZE {
            let result = cand - waste;
            let hole = MemoryHole { base: self.ceiling - waste, size: waste };
            let count = self.floor / HOLE_RECORD_SIZE;
            self.hole_insert(count, hole);
            self.ceiling = result;
            let ghost block = MemoryHole { base: result, size };
            proof {
                self.live@ = self.live@.push(block);
                lemma_total_push(old(self).live(), block);
                assert(self.holes() == hs.insert(count as int, hole));
                assert(holes_wf(hs, result as int, self.limit())) by {
                    assert forall|i: int| 0 <= i < hs.len() implies (#[trigger] hs[i]).size > 0
                        && result < hs[i].base && hs[i].end() <= self.limit() by {
                        assert(c0 < hs[i].base);
                    }
                }
                lemma_hole_insert(hs, result as int, self.limit(), count as int, hole);
                assert forall|b: int|
                    self.unallocated().contains(b) <==> old(self).unallocated().difference(
                        block.bytes(),
                    ).contains(b) by {
                    if b <= c0 {
                        lemma_not_in_hole(hs, c0, self.limit(), b);
                    }
                    assert(unallocated(hs.insert(count as int, hole), result as int).contains(b)
                        <==> unallocated(hs, result as int).union(hole.bytes()).contains(b));
                }
                assert(self.unallocated() =~= old(self).unallocated().difference(block.bytes()));
                let live = self.live();
                let after = self.holes();
                assert forall|k: int, i: int|
                    0 <= k < live.len() && 0 <= i < after.len() implies (#[trigger] live[k]).apart(
                    #[trigger] after[i],
                ) by {
                    if i < hs.len() {
                        assert(after[i] == hs[i]);
                        assert(c0 < hs[i].base);
                    }
                }
            }
            Some(result)
        } else {
            None
        }
    }

    /// Takes a block for `layout` from the first hole that offers one.
    fn try_alloc_from_hole(&mut self, layout: Layout) -> (r: Option<usize>)
        requires
            old(self).wf(),
        ensures
            final(self).wf(),
            match r {
                Some(o) => {
                    &&& first_offer(old(self).holes(), layout, old(self).room(), 0) matches Some(
                        (_, c),
                    ) && c == o
                    &&& final(self).handed_out(old(self), MemoryHole { base: o, size: layout.size })
                },
                None => {
                    &&& first_offer(old(self).holes(), layout, old(self).room(), 0) is None
                    &&& *final(self) == *old(self)
                },
            },
    {
        let size = layout.size;
        let align = layout.align;
        let count = self.floor / HOLE_RECORD_SIZE;
        let room = self.ceiling - self.floor >= HOLE_RECORD_SIZE;
        let ghost hs = self.holes();
        let mut i: usize = 0;
        while i < count
            invariant
                i <= count,
                count == hs.len(),
                size == layout.size,
                align == layout.align,
                *self == *old(self),
                self.wf(),
                hs == self.holes(),
                room == self.room(),
                first_offer(hs, layout, room, 0) == first_offer(hs, layout, room, i as int),
            decreases count - i,
        {
            let hole = self.store.get(i);
            assert(hole == hs[i as int]);
            if size > 0 && align > 0 && hole.size >= size {
                let pad = if hole.base % align == 0 {
                    0
                } else {
                    align - hole.base % align
                };
                let spare = hole.size - size;
                if spare >= pad && !(pad > 0 && spare > pad && !room) {
                    assert(hole_offer(hole, layout, room) == Some(hole.base + pad));
                    return Some(self.carve(i, pad, size));
                }
            }
            i += 1;
        }
        None
    }

    /// Cuts a block of `size` bytes out of hole `i`, `pad` bytes above the
    /// hole's base. What is left of the hole on either side stays a hole.
    fn carve(&mut self, i: usize, pad: usize, size: usize) -> (r: usize)
        requires
            old(self).wf(),
            i < old(self).holes().len(),
            size > 0,
            old(self).holes()[i as int].size >= size + pad,
            pad > 0 && old(self).holes()[i as int].size > size + pad ==> old(self).room(),
        ensures
            final(self).wf(),
            r == old(self).holes()[i as int].base + pad,
            final(self).handed_out(old(self), MemoryHole { base: r, size }),
    {
        let ghost hs = self.holes();
        let hole = self.store.get(i);
        assert(hole == hs[i as int]);
        let spare = hole.size - size;
        let result = hole.base + pad;
        let ghost block = MemoryHole { base: result, size };
        let before = MemoryHole { base: hole.base, size: pad };
        let after = MemoryHole { base: result + size, size: spare - pad };
        if pad > 0 && spare > pad {
            self.hole_set(i, after);
            self.hole_insert(i + 1, before);
        } else if pad > 0 {
            self.hole_set(i, before);
        } else if spare > 0 {
            self.hole_set(i, after);
        } else {
            self.hole_remove(i);
        }
        proof {
            self.live@ = self.live@.push(block);
            lemma_carve(
                hs,
                self.ceiling(),
                self.limit(),
                old(self).live(),
                i as int,
                block,
                self.holes(),
            );
        }
        result
    }

    /// Hands out a block for `layout`: from the space below the ceiling if
    /// that offers one, else from the first hole that does. Returns the
    /// block's address, or nothing, with the heap unchanged, if neither
    /// offers a block.
    pub fn allocate(&mut self, layout: Layout) -> (r: Option<u64>)
        requires
            old(self).wf(),
        ensures
            final(self).wf(),
            match r {
                Some(addr) => {
                    let o = addr - old(self).base();
                    &&& offered(old(self).floor(), old(self).ceiling(), old(self).holes(), layout)
                        == Some(o)
                    &&& 0 <= o <= usize::MAX
                    &&& o % (layout.align as int) == 0
                    &&& old(self).base() % (layout.align as int) == 0 ==> addr % (
                    layout.align as u64) == 0
                    &&& final(self).handed_out(
                        old(self),
                        MemoryHole { base: o as usize, size: layout.size },
                    )
                },
                None => {
                    &&& offered(old(self).floor(), old(self).ceiling(), old(self).holes(), layout)
                        is None
                    &&& final(self).same_state(old(self))
                },
            },
    {
        let found = match self.try_alloc_from_ceiling(layout) {
            Some(o) => Some(o),
            None => self.try_alloc_from_hole(layout),
        };
        match found {
            Some(o) => {
                proof {
                    let a = layout.align as int;
                    if ceiling_offer(old(self).floor(), old(self).ceiling(), layout) is Some {
                        Self::lemma_aligned_down(old(self).ceiling() - layout.size, a);
                    } else {
                        let f = first_offer(old(self).holes(), layout, old(self).room(), 0);
                        Self::lemma_first_offer(old(self).holes(), layout, old(self).room(), 0);
                        if let Some((k, _)) = f {
                            Self::lemma_aligned_up(old(self).holes()[k].base as int, a);
                        }
                    }
                    assert(a > 0);
                    assert(o as int % a == 0);
                    Self::lemma_sum_aligned(self.base as int, o as int, a);
                }
                Some(self.base + o as u64)
            },
            None => None,
        }
    }

    /// The block of `layout.size` bytes at address `addr`, as a run of the
    /// heap.
    pub open spec fn block_at(&self, addr: u64, layout: Layout) -> MemoryHole {
        MemoryHole { base: (addr - self.base()) as usize, size: layout.size }
    }

    /// Whether the block of `layout.size` bytes at `addr` is handed out.
    pub open spec fn owns(&self, addr: u64, layout: Layout) -> bool {
        &&& self.base() <= addr
        &&& addr - self.base() <= usize::MAX
        &&& self.live().contains(self.block_at(addr, layout))
    }

    /// What a release of the block `block` does to the heap.
    pub open spec fn given_back(&self, before: &Self, block: MemoryHole) -> bool {
        &&& self.same_heap(before)
        &&& self.unallocated() == before.unallocated().union(block.bytes())
        &&& exists|k: int|
            0 <= k < before.live().len() && before.live()[k] == block && self.live()
                == before.live().remove(k)
        &&& exists|p: int|
            place(before.holes(), block.base as int, p) && (self.holes(), self.ceiling()) == join(
                before.holes(),
                before.ceiling(),
                p,
                block,
            )
    }

    /// The place of a run at offset `o` among the holes.
    fn find_place(&self, o: usize) -> (p: usize)
        requires
            self.wf(),
        ensures
            p <= self.holes().len(),
            forall|j: int| 0 <= j < p ==> (#[trigger] self.holes()[j]).base > o,
            p < self.holes().len() ==> self.holes()[p as int].base <= o,
    {
        let count = self.floor / HOLE_RECORD_SIZE;
        let mut p: usize = 0;
        while p < count && self.store.get(p).base > o
            invariant
                p <= count,
                count == self.holes().len(),
                self.wf(),
                forall|j: int| 0 <= j < p ==> (#[trigger] self.holes()[j]).base > o,
            decreases count - p,
        {
            p += 1;
        }
        p
    }

    /// Makes the run of `size` bytes at offset `o`, whose place among the
    /// holes is `p`, part of what is not handed out: it joins the hole
    /// above, the hole below and the space below the ceiling where it
    /// touches them, and becomes a hole of its own where it touches
    /// nothing and the floor has room for its record.
    fn join_hole(&mut self, p: usize, o: usize, size: usize) -> (r: Result<(), HeapError>)
        requires
            old(self).shaped(),
            old(self).floor() == old(self).holes().len() * 16,
            p <= old(self).holes().len(),
            size > 0,
            old(self).ceiling <= o,
            o + size <= old(self).size,
            p > 0 ==> o + size <= old(self).holes()[p - 1].base && old(self).holes()[p - 1].end()
                <= old(self).size,
            p < old(self).holes().len() ==> old(self).holes()[p as int].end() <= o,
        ensures
            final(self).shaped(),
            final(self).base == old(self).base,
            final(self).size == old(self).size,
            final(self).live == old(self).live,
            r is Err <==> !old(self).room() && !(o == old(self).ceiling) && !(p > 0 && old(
                self,
            ).holes()[p - 1].base == o + size) && !(p < old(self).holes().len() && old(
                self,
            ).holes()[p as int].end() == o),
            match r {
                Ok(_) => {
                    &&& (final(self).holes(), final(self).ceiling()) == join(
                        old(self).holes(),
                        old(self).ceiling(),
                        p as int,
                        MemoryHole { base: o, size },
                    )
                    &&& final(self).floor() == final(self).holes().len() * 16
                },
                Err(_) => *final(self) == *old(self),
            },
    {
        let count = self.floor / HOLE_RECORD_SIZE;
        let ghost hs = self.holes();
        let upper = if p > 0 {
            self.store.get(p - 1)
        } else {
            MemoryHole { base: 0, size: 0 }
        };
        let lower = if p < count {
            self.store.get(p)
        } else {
            MemoryHole { base: 0, size: 0 }
        };
        let up = p > 0 && upper.base == o + size;
        let low = p < count && lower.base + lower.size == o;
        if o == self.ceiling {
            if up {
                self.hole_remove(p - 1);
                self.ceiling = upper.base + upper.size;
            } else {
                self.ceiling = o + size;
            }
        } else if up && low {
            self.hole_set(
                p - 1,
                MemoryHole { base: lower.base, size: lower.size + size + upper.size },
            );
            self.hole_remove(p);
        } else if up {
            self.hole_set(p - 1, MemoryHole { base: o, size: size + upper.size });
        } else if low {
            self.hole_set(p, MemoryHole { base: lower.base, size: lower.size + size });
        } else {
            if self.ceiling - self.floor < HOLE_RECORD_SIZE {
                return Err(HeapError::NoRoom);
            }
            self.hole_insert(p, MemoryHole { base: o, size });
        }
        Ok(())
    }

    /// Takes back the block of `layout.size` bytes at `addr`, which must be
    /// handed out. The block joins the hole above it, the hole below it and
    /// the space below the ceiling where it touches them; where it touches
    /// nothing it becomes a hole of its own, and the release fails, with the
    /// heap unchanged, if the floor has no room for that hole's record.
    pub fn free(&mut self, addr: u64, layout: Layout) -> (r: Result<(), HeapError>)
        requires
            old(self).wf(),
            old(self).owns(addr, layout),
        ensures
            final(self).wf(),
            r is Err <==> !old(self).room() && !joins(
                old(self).holes(),
                old(self).ceiling(),
                old(self).block_at(addr, layout),
            ),
            match r {
                Ok(_) => final(self).given_back(old(self), old(self).block_at(addr, layout)),
                Err(_) => final(self).same_state(old(self)),
            },
    {
        let o: usize = (addr - self.base) as usize;
        let size = layout.size;
        let ghost hs = self.holes();
        let ghost c = self.ceiling as int;
        let ghost live = self.live();
        let ghost block = MemoryHole { base: o, size };
        let ghost k = live.index_of(block);
        assert(live[k] == block);
        let p = self.find_place(o);
        proof {
            Self::lemma_place(hs, c, self.limit(), live, k, p as int);
            lemma_neighbours(hs, c, self.limit(), live, k, p as int);
        }
        match self.join_hole(p, o, size) {
            Err(e) => Err(e),
            Ok(()) => {
                proof {
                    self.live@ = self.live@.remove(k);
                    lemma_join_holes(hs, c, self.limit(), live, k, p as int);
                    lemma_join_live(hs, c, self.limit(), live, k, p as int);
                }
                Ok(())
            },
        }
    }

    /// The place that a search from the top finds for a live block is its
    /// place among the holes.
    proof fn lemma_place(
        hs: Seq<MemoryHole>,
        c: int,
        limit: int,
        live: Seq<MemoryHole>,
        k: int,
        p: int,
    )
        requires
            holes_wf(hs, c, limit),
            live_wf(live, hs, c, limit),
            0 <= k < live.len(),
            0 <= p <= hs.len(),
            forall|j: int| 0 <= j < p ==> (#[trigger] hs[j]).base > live[k].base,
            p < hs.len() ==> hs[p].base <= live[k].base,
        ensures
            place(hs, live[k].base as int, p),
            live[k].size > 0,
            c <= live[k].base,
            live[k].end() <= limit,
            p > 0 ==> hs[p - 1].end() <= limit,
    {
        if p < hs.len() {
            assert(hs[p].size > 0);
            assert(live[k].apart(hs[p]));
            assert forall|j: int| p <= j < hs.len() implies (#[trigger] hs[j]).base
                < live[k].base by {
                if j > p {
                    assert(hs[j].end() < hs[p].base);
                    assert(hs[j].size > 0);
                }
            }
        }
        if p > 0 {
            assert(hs[p - 1].size > 0);
        }
    }

    /// A block can be released right after it was handed out: the release
    /// finds room for a record, or needs none.
    pub proof fn law_release_after_allocate(before: &Self, between: &Self, block: MemoryHole)
        requires
            before.wf(),
            between.wf(),
            between.handed_out(before, block),
        ensures
            between.room() || joins(between.holes(), between.ceiling(), block),
    {
        let hs = between.holes();
        let c = between.ceiling();
        let live = between.live();
        let k = live.len() - 1;
        assert(live[k] == block);
        assert forall|j: int| 0 <= j < hs.len() implies (#[trigger] hs[j]).base != block.base by {
            assert(live[k].apart(hs[j]));
            assert(hs[j].size > 0);
        }
        let p = lemma_find_place(hs, c, between.limit(), block.base as int, 0);
        lemma_neighbours(hs, c, between.limit(), live, k, p);
        lemma_join_holes(hs, c, between.limit(), live, k, p);
        let (now, c2) = join(hs, c, p, block);
        assert(unallocated(now, c2) =~= before.unallocated());
        lemma_canonical(now, c2, before.holes(), before.ceiling(), before.limit());
    }

    /// A block that is released right after it was handed out leaves the
    /// heap as it was before: the floor, the ceiling, the holes and the live
    /// blocks are those of before.
    pub proof fn law_round_trip(before: &Self, between: &Self, after: &Self, block: MemoryHole)
        requires
            before.wf(),
            between.wf(),
            after.wf(),
            between.handed_out(before, block),
            after.given_back(between, block),
        ensures
            after.same_state(before),
    {
        assert(after.unallocated() =~= before.unallocated());
        lemma_canonical(
            after.holes(),
            after.ceiling(),
            before.holes(),
            before.ceiling(),
            before.limit(),
        );
        let live = before.live();
        let k = choose|k: int|
            0 <= k < between.live().len() && between.live()[k] == block && after.live()
                == between.live().remove(k);
        if k < live.len() {
            assert(between.live()[k].apart(between.live()[live.len() as int]));
        }
        assert(after.live() =~= live);
    }

    proof fn lemma_aligned_down(x: int, a: int)
        requires
            a > 0,
            x >= 0,
        ensures
            (x - x % a) % a == 0,
    {
        vstd::arithmetic::div_mod::lemma_fundamental_div_mod(x, a);
        vstd::arithmetic::div_mod::lemma_mod_multiples_basic(x / a, a);
        assert(x - x % a == a * (x / a));
        assert(a * (x / a) == (x / a) * a) by (nonlinear_arith);
    }

    proof fn lemma_aligned_up(x: int, a: int)
        requires
            a > 0,
            x >= 0,
        ensures
            (x + padding(x, a)) % a == 0,
    {
        vstd::arithmetic::div_mod::lemma_fundamental_div_mod(x, a);
        if x % a != 0 {
            assert(x + (a - x % a) == a * (x / a + 1)) by (nonlinear_arith)
                requires
                    x == a * (x / a) + x % a,
            ;
            vstd::arithmetic::div_mod::lemma_mod_multiples_basic(x / a + 1, a);
            assert(a * (x / a + 1) == (x / a + 1) * a) by (nonlinear_arith);
        }
    }

    proof fn lemma_sum_aligned(x: int, y: int, a: int)
        requires
            a > 0,
            x >= 0,
            y >= 0,
            y % a == 0,
        ensures
            x % a == 0 ==> (x + y) % a == 0,
    {
        if x % a == 0 {
            vstd::arithmetic::div_mod::lemma_fundamental_div_mod(x, a);
            vstd::arithmetic::div_mod::lemma_fundamental_div_mod(y, a);
            assert(x + y == (x / a + y / a) * a) by (nonlinear_arith)
                requires
                    x == a * (x / a),
                    y == a * (y / a),
            ;
            vstd::arithmetic::div_mod::lemma_mod_multiples_basic(x / a + y / a, a);
        }
    }

    /// The first offer from place `i` on is made by a hole at or after `i`,
    /// and is what that hole offers.
    proof fn lemma_first_offer(hs: Seq<MemoryHole>, layout: Layout, room: bool, i: int)
        requires
            0 <= i,
        ensures
            first_offer(hs, layout, room, i) matches Some((k, o)) ==> i <= k < hs.len()
                && hole_offer(hs[k], layout, room) == Some(o),
        decreases hs.len() - i,
    {
        if i < hs.len() && hole_offer(hs[i], layout, room) is None {
            Self::lemma_first_offer(hs, layout, room, i + 1);
        }
    }
}

} // verus!
