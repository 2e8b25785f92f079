//! The four-level translation tree: its model, its invariant, and the
//! operations that build, query and take it down.

use vstd::prelude::*;

use super::table_entry::{
    get_page_index_1, get_page_index_2, get_page_index_3, get_page_index_4, index1, index2,
    index3, index4, lemma_zero_entry, slot, TableEntry, FRAME_LIMIT,
};
use super::table_memory::TableMemory;
use crate::mm::definitions::{
    is_free_run, Frame, FrameAllocError, FrameAllocator, FrameFreeError, FrameRegion,
    MappingRegion, Page, PageFlags, PageRegion,
};

verus! {

/// Why a region was not mapped.
#[derive(Clone, Copy, Debug, PartialEq, Eq, Structural)]
pub enum MapError {
    /// The allocator had no frame left for a table.
    OutOfFrames,
    /// A page of the region translates already.
    Overlap,
    /// The region is too long, leaves the address space, or names a frame
    /// whose index does not fit an entry.
    OutOfRange,
}

/// Where a table stands in its tree: its level (4 for the root, 1 for a table
/// of leaves), the page-number prefix that leads to it, and the table that
/// points to it.
pub struct Node {
    pub level: int,
    pub prefix: int,
    pub parent: int,
}

/// What a page translates to: the frame, the permissions of the entry that
/// ends the walk, and the level of that entry (1 for an ordinary page, 2 or 3
/// for a large one).
pub struct Translation {
    pub frame: int,
    pub flags: PageFlags,
    pub level: int,
}

/// Whether an entry found in a table of level `level` leads to a table of the
/// next level.
pub open spec fn links(e: u64, level: int) -> bool {
    TableEntry(e).present() && (level == 4 || !TableEntry(e).huge())
}

/// The level-three table on the walk for `page`, if the walk gets that far.
pub open spec fn table3<M: TableMemory>(mem: &M, root: int, page: int) -> Option<int> {
    let e = mem.word(root, index4(page));
    if links(e, 4) {
        Some(TableEntry(e).frame())
    } else {
        None
    }
}

/// The level-two table on the walk for `page`, if the walk gets that far.
pub open spec fn table2<M: TableMemory>(mem: &M, root: int, page: int) -> Option<int> {
    match table3(mem, root, page) {
        Some(t) => {
            let e = mem.word(t, index3(page));
            if links(e, 3) {
                Some(TableEntry(e).frame())
            } else {
                None
            }
        },
        None => None,
    }
}

/// The level-one table on the walk for `page`, if the walk gets that far.
pub open spec fn table1<M: TableMemory>(mem: &M, root: int, page: int) -> Option<int> {
    match table2(mem, root, page) {
        Some(t) => {
            let e = mem.word(t, index2(page));
            if links(e, 2) {
                Some(TableEntry(e).frame())
            } else {
                None
            }
        },
        None => None,
    }
}

/// Whether memory holds the root and every table on the walk for `page`,
/// so that the walk can be followed.
pub open spec fn walk_held<M: TableMemory>(mem: &M, root: int, page: int) -> bool {
    &&& mem.holds(root)
    &&& table3(mem, root, page) matches Some(t) ==> mem.holds(t)
    &&& table2(mem, root, page) matches Some(t) ==> mem.holds(t)
    &&& table1(mem, root, page) matches Some(t) ==> mem.holds(t)
}

/// Whether table `f` stands on the walk for `page`, below the root.
pub open spec fn on_walk<M: TableMemory>(mem: &M, root: int, page: int, f: int) -> bool {
    ||| table3(mem, root, page) == Some(f)
    ||| table2(mem, root, page) == Some(f)
    ||| table1(mem, root, page) == Some(f)
}

/// Whether the entry `e` is present and lets writes and user mode through.
pub open spec fn passes(e: u64) -> bool {
    TableEntry(e).present() && TableEntry(e).writable() && TableEntry(e).usermode()
}

/// Whether the walk for `page` reaches a level-one table through entries
/// that all let writes and user mode through, so that the entry of the page
/// alone decides what may be done with it.
pub open spec fn walk_passes<M: TableMemory>(mem: &M, root: int, page: int) -> bool {
    &&& passes(mem.word(root, index4(page)))
    &&& table3(mem, root, page) matches Some(t3) && passes(mem.word(t3, index3(page)))
    &&& table2(mem, root, page) matches Some(t2) && passes(mem.word(t2, index2(page)))
    &&& table1(mem, root, page) is Some
}

/// Whether the walk for `page` reaches a level-one table through entries
/// each of which lets writes and user mode through or is the entry that
/// stood at its place in `before`.
pub open spec fn walk_passes_or_kept<M: TableMemory>(
    mem: &M,
    before: &M,
    root: int,
    page: int,
) -> bool {
    &&& passes_or_same(mem, before, root, index4(page))
    &&& table3(mem, root, page) matches Some(t3) && passes_or_same(mem, before, t3, index3(page))
    &&& table2(mem, root, page) matches Some(t2) && passes_or_same(mem, before, t2, index2(page))
    &&& table1(mem, root, page) is Some
}

/// Whether entry `i` of table `f` lets writes and user mode through or is
/// what it was in `before`.
pub open spec fn passes_or_same<M: TableMemory>(mem: &M, before: &M, f: int, i: int) -> bool {
    passes(mem.word(f, i)) || mem.word(f, i) == before.word(f, i)
}

/// What the entry `e`, found at level `level`, translates `page` to.
pub open spec fn ends_walk(e: u64, level: int, page: int) -> Translation {
    Translation {
        frame: TableEntry(e).frame() + if level == 3 {
            index2(page) * 512 + index1(page)
        } else if level == 2 {
            index1(page)
        } else {
            0
        },
        flags: TableEntry(e).flags(),
        level,
    }
}

/// The translation of `page` by the tree under `root`: the walk from level
/// four down, which ends without result at an entry that is not present and
/// with a result at a large page or at a present level-one entry.
pub open spec fn translate<M: TableMemory>(mem: &M, root: int, page: int) -> Option<Translation> {
    match table3(mem, root, page) {
        None => None,
        Some(t3) => {
            let e3 = mem.word(t3, index3(page));
            if !TableEntry(e3).present() {
                None
            } else if TableEntry(e3).huge() {
                Some(ends_walk(e3, 3, page))
            } else {
                let e2 = mem.word(TableEntry(e3).frame(), index2(page));
                if !TableEntry(e2).present() {
                    None
                } else if TableEntry(e2).huge() {
                    Some(ends_walk(e2, 2, page))
                } else {
                    let e1 = mem.word(TableEntry(e2).frame(), index1(page));
                    if !TableEntry(e1).present() {
                        None
                    } else {
                        Some(ends_walk(e1, 1, page))
                    }
                }
            }
        },
    }
}

/// Whether `nodes` describes the tables of the tree under `root` in `mem`:
/// the root is the one table of level four; every table is in memory; every
/// entry that leads to a table leads to the one that `nodes` places there;
/// every table but the root is pointed to by its parent; and no two tables
/// stand in the same place.
#[verifier::opaque]
pub open spec fn tree<M: TableMemory>(mem: &M, root: int, nodes: Map<int, Node>) -> bool {
    &&& nodes.dom().contains(root)
    &&& nodes[root].level == 4
    &&& nodes[root].prefix == 0
    &&& forall|f: int| #[trigger] nodes.dom().contains(f) ==> node_ok(mem, root, nodes, f)
    &&& forall|f: int, i: int|
        nodes.dom().contains(f) && 0 <= i < 512 && nodes[f].level >= 2 && links(
            #[trigger] mem.word(f, i),
            nodes[f].level,
        ) ==> child_ok(nodes, f, i, TableEntry(mem.word(f, i)).frame())
    &&& forall|f: int, g: int|
        nodes.dom().contains(f) && nodes.dom().contains(g) && (#[trigger] nodes[f]).level == (
        #[trigger] nodes[g]).level && nodes[f].prefix == nodes[g].prefix ==> f == g
}

/// Whether table `f` is in memory, stands at one of the four levels, and,
/// unless it is the root, is pointed to by the entry of its parent that its
/// prefix names.
pub open spec fn node_ok<M: TableMemory>(
    mem: &M,
    root: int,
    nodes: Map<int, Node>,
    f: int,
) -> bool {
    let n = nodes[f];
    &&& mem.holds(f)
    &&& 1 <= n.level <= 4
    &&& 0 <= n.prefix
    &&& f == root ==> n.level == 4
    &&& f != root ==> {
        &&& n.level <= 3
        &&& nodes.dom().contains(n.parent)
        &&& nodes[n.parent].level == n.level + 1
        &&& nodes[n.parent].prefix == n.prefix / 512
        &&& links(mem.word(n.parent, n.prefix % 512), n.level + 1)
        &&& TableEntry(mem.word(n.parent, n.prefix % 512)).frame() == f
    }
}

/// Whether `c` is the table that `nodes` places behind entry `i` of table
/// `f`.
pub open spec fn child_ok(nodes: Map<int, Node>, f: int, i: int, c: int) -> bool {
    &&& nodes.dom().contains(c)
    &&& nodes[c].level == nodes[f].level - 1
    &&& nodes[c].prefix == nodes[f].prefix * 512 + i
    &&& nodes[c].parent == f
}

/// Whether every free frame of `alloc` can serve as a table: memory holds
/// it, and its index fits an entry.
pub open spec fn backs<M: TableMemory, A: FrameAllocator>(alloc: &A, mem: &M) -> bool {
    forall|f: int| #[trigger]
        alloc.free_frames().contains(f) ==> mem.holds(f) && 0 <= f < FRAME_LIMIT
}

/// The walk for any page stays inside the tables that `nodes` knows, and
/// reaches each at the place that `nodes` gives it.
pub proof fn lemma_walk<M: TableMemory>(mem: &M, root: int, nodes: Map<int, Node>, page: int)
    requires
        tree(mem, root, nodes),
    ensures
        table3(mem, root, page) matches Some(t) ==> nodes.dom().contains(t) && nodes[t].level == 3
            && nodes[t].prefix == index4(page),
        table2(mem, root, page) matches Some(t) ==> nodes.dom().contains(t) && nodes[t].level == 2
            && nodes[t].prefix == index4(page) * 512 + index3(page),
        table1(mem, root, page) matches Some(t) ==> nodes.dom().contains(t) && nodes[t].level == 1
            && nodes[t].prefix == (index4(page) * 512 + index3(page)) * 512 + index2(page),
{
    reveal(tree);
    if let Some(t3) = table3(mem, root, page) {
        assert(child_ok(nodes, root, index4(page), t3));
        if let Some(t2) = table2(mem, root, page) {
            assert(child_ok(nodes, t3, index3(page), t2));
            if let Some(t1) = table1(mem, root, page) {
                assert(child_ok(nodes, t2, index2(page), t1));
            }
        }
    }
}

proof fn lemma_slot_digits(p: u64)
    by (bit_vector)
    ensures
        p % 0x10_0000_0000 == ((((p / 0x800_0000) % 512) * 512 + ((p / 0x4_0000) % 512)) * 512 + ((p
            / 0x200) % 512)) * 512 + (p % 512),
{
}

/// Two pages that translation cannot tell apart have the same four indices,
/// and two pages with the same four indices cannot be told apart.
pub proof fn lemma_slot(p: u64, q: u64)
    ensures
        slot(p as int) == slot(q as int) <==> index4(p as int) == index4(q as int) && index3(
            p as int,
        ) == index3(q as int) && index2(p as int) == index2(q as int) && index1(p as int)
            == index1(q as int),
        slot(p as int) == ((index4(p as int) * 512 + index3(p as int)) * 512 + index2(p as int))
            * 512 + index1(p as int),
{
    lemma_slot_digits(p);
    lemma_slot_digits(q);
}

/// The place of a table among the children of its parent determines the
/// parent's place.
proof fn lemma_child_place(prefix: int, i: int)
    requires
        0 <= prefix,
        0 <= i < 512,
    ensures
        (prefix * 512 + i) / 512 == prefix,
        (prefix * 512 + i) % 512 == i,
{
}

/// Hanging an empty table under an entry that was not present keeps the tree
/// a tree and changes no translation.
proof fn lemma_link<M: TableMemory>(
    m0: &M,
    m2: &M,
    root: int,
    nodes: Map<int, Node>,
    t: int,
    i: int,
    n: int,
    e: u64,
)
    requires
        tree(m0, root, nodes),
        nodes.dom().contains(t),
        nodes[t].level >= 2,
        0 <= i < 512,
        !TableEntry(m0.word(t, i)).present(),
        !nodes.dom().contains(n),
        m0.holds(n),
        TableEntry(e).present(),
        !TableEntry(e).huge(),
        TableEntry(e).frame() == n,
        forall|f: int| m2.holds(f) == m0.holds(f),
        forall|f: int, j: int| #[trigger]
            m2.word(f, j) == if f == n && 0 <= j < 512 {
                0
            } else if f == t && j == i {
                e
            } else {
                m0.word(f, j)
            },
    ensures
        tree(
            m2,
            root,
            nodes.insert(
                n,
                Node { level: nodes[t].level - 1, prefix: nodes[t].prefix * 512 + i, parent: t },
            ),
        ),
        forall|page: int| #[trigger] translate(m2, root, page) == translate(m0, root, page),
        forall|page: int|
            table3(m0, root, page) is Some ==> #[trigger] table3(m2, root, page) == table3(
                m0,
                root,
                page,
            ),
        forall|page: int|
            table2(m0, root, page) is Some ==> #[trigger] table2(m2, root, page) == table2(
                m0,
                root,
                page,
            ),
        forall|page: int|
            table1(m0, root, page) is Some ==> #[trigger] table1(m2, root, page) == table1(
                m0,
                root,
                page,
            ),
{
    let node = Node { level: nodes[t].level - 1, prefix: nodes[t].prefix * 512 + i, parent: t };
    let after = nodes.insert(n, node);
    reveal(tree);
    lemma_zero_entry();
    assert(node_ok(m0, root, nodes, t));
    lemma_child_place(nodes[t].prefix, i);
    assert forall|f: int| #[trigger] after.dom().contains(f) implies node_ok(
        m2,
        root,
        after,
        f,
    ) by {
        if f != n {
            assert(node_ok(m0, root, nodes, f));
            if f != root {
                let g = nodes[f].parent;
                assert(node_ok(m0, root, nodes, g));
            }
        }
    }
    assert forall|f: int, j: int|
        after.dom().contains(f) && 0 <= j < 512 && after[f].level >= 2 && links(
            #[trigger] m2.word(f, j),
            after[f].level,
        ) implies child_ok(after, f, j, TableEntry(m2.word(f, j)).frame()) by {
        if f == n {
        } else if f == t && j == i {
        } else {
            assert(child_ok(nodes, f, j, TableEntry(m0.word(f, j)).frame()));
        }
    }
    assert forall|f: int, g: int|
        after.dom().contains(f) && after.dom().contains(g) && (#[trigger] after[f]).level == (
        #[trigger] after[g]).level && after[f].prefix == after[g].prefix implies f == g by {
        if f == n && g != n {
            assert(node_ok(m0, root, nodes, g));
            assert(nodes[nodes[g].parent].prefix == nodes[t].prefix);
            assert(nodes[g].parent == t);
        } else if g == n && f != n {
            assert(node_ok(m0, root, nodes, f));
            assert(nodes[nodes[f].parent].prefix == nodes[t].prefix);
            assert(nodes[f].parent == t);
        } else if f != n && g != n {
            assert(nodes[f].level == nodes[g].level);
        }
    }
    assert forall|page: int| #[trigger] translate(m2, root, page) == translate(
        m0,
        root,
        page,
    ) by {
        lemma_walk(m0, root, nodes, page);
    }
    assert forall|page: int| table3(m0, root, page) is Some implies #[trigger] table3(
        m2,
        root,
        page,
    ) == table3(m0, root, page) by {
        lemma_walk(m0, root, nodes, page);
    }
    assert forall|page: int| table2(m0, root, page) is Some implies #[trigger] table2(
        m2,
        root,
        page,
    ) == table2(m0, root, page) by {
        lemma_walk(m0, root, nodes, page);
    }
    assert forall|page: int| table1(m0, root, page) is Some implies #[trigger] table1(
        m2,
        root,
        page,
    ) == table1(m0, root, page) by {
        lemma_walk(m0, root, nodes, page);
    }
}

/// Writing an entry of a level-one table keeps the tree a tree and changes
/// the translation of the pages that the entry stands for, and of no other.
proof fn lemma_leaf<M: TableMemory>(
    m0: &M,
    m1: &M,
    root: int,
    nodes: Map<int, Node>,
    t: int,
    e: u64,
    page: u64,
)
    requires
        tree(m0, root, nodes),
        table1(m0, root, page as int) == Some(t),
        forall|f: int| m1.holds(f) == m0.holds(f),
        forall|f: int, j: int| #[trigger]
            m1.word(f, j) == if f == t && j == index1(page as int) {
                e
            } else {
                m0.word(f, j)
            },
    ensures
        tree(m1, root, nodes),
        forall|q: int| #[trigger] table1(m1, root, q) == table1(m0, root, q),
        forall|q: int| #[trigger] table2(m1, root, q) == table2(m0, root, q),
        forall|q: int| #[trigger] table3(m1, root, q) == table3(m0, root, q),
        forall|q: int|
            0 <= q <= u64::MAX && slot(q) != slot(page as int) ==> #[trigger] translate(m1, root, q)
                == translate(m0, root, q),
        forall|q: int|
            0 <= q <= u64::MAX && slot(q) == slot(page as int) ==> #[trigger] translate(m1, root, q)
                == if TableEntry(e).present() {
                Some(ends_walk(e, 1, q))
            } else {
                None
            },
{
    reveal(tree);
    lemma_walk(m0, root, nodes, page as int);
    assert forall|f: int| #[trigger] nodes.dom().contains(f) implies node_ok(m1, root, nodes, f) by {
        assert(node_ok(m0, root, nodes, f));
        if f != root {
            assert(node_ok(m0, root, nodes, nodes[f].parent));
        }
    }
    assert forall|f: int, j: int|
        nodes.dom().contains(f) && 0 <= j < 512 && nodes[f].level >= 2 && links(
            #[trigger] m1.word(f, j),
            nodes[f].level,
        ) implies child_ok(nodes, f, j, TableEntry(m1.word(f, j)).frame()) by {
        assert(child_ok(nodes, f, j, TableEntry(m0.word(f, j)).frame()));
    }
    assert forall|q: int| #[trigger] table1(m1, root, q) == table1(m0, root, q) by {
        lemma_walk(m0, root, nodes, q);
    }
    assert forall|q: int| #[trigger] table2(m1, root, q) == table2(m0, root, q) by {
        lemma_walk(m0, root, nodes, q);
    }
    assert forall|q: int| #[trigger] table3(m1, root, q) == table3(m0, root, q) by {
        lemma_walk(m0, root, nodes, q);
    }
    assert forall|q: int| 0 <= q <= u64::MAX implies #[trigger] translate(m1, root, q) == if slot(q)
        != slot(page as int) {
        translate(m0, root, q)
    } else if TableEntry(e).present() {
        Some(ends_walk(e, 1, q))
    } else {
        None
    } by {
        lemma_walk(m0, root, nodes, q);
        lemma_slot(q as u64, page);
    }
}

proof fn lemma_block_digits(p: u64, q: u64)
    by (bit_vector)
    requires
        p / 512 == q / 512,
    ensures
        (p / 0x800_0000) % 512 == (q / 0x800_0000) % 512,
        (p / 0x4_0000) % 512 == (q / 0x4_0000) % 512,
        (p / 0x200) % 512 == (q / 0x200) % 512,
{
}

/// Two pages in the same block of 512 are served by the same level-one
/// table.
proof fn lemma_same_block<M: TableMemory>(mem: &M, root: int, p: u64, q: u64)
    requires
        p / 512 == q / 512,
    ensures
        table1(mem, root, p as int) == table1(mem, root, q as int),
{
    lemma_block_digits(p, q);
}

/// How far `page` is behind `begin`, as translation sees it: by the low 36
/// bits of the page number alone.
#[verifier::opaque]
pub open spec fn distance(begin: int, page: int) -> int {
    (page - begin) % 0x10_0000_0000
}

/// Whether translation cannot tell `page` from one of the `count` pages from
/// `begin` on.
pub open spec fn touches(begin: int, count: int, page: int) -> bool {
    distance(begin, page) < count
}

/// Translation cannot tell `page` from the `k`-th page after `begin` exactly
/// when `page` is `k` behind `begin`; and a page less than 2^36 after `begin`
/// is behind it by their difference.
pub proof fn lemma_touches(begin: int, k: int, page: int)
    requires
        0 <= k < 0x10_0000_0000,
    ensures
        slot(page) == slot(begin + k) <==> distance(begin, page) == k,
        0 <= distance(begin, page) < 0x10_0000_0000,
        page == begin + k ==> distance(begin, page) == k,
{
    reveal(distance);
}

/// Every table of a tree is in memory, at one of the four levels.
proof fn lemma_table_held<M: TableMemory>(mem: &M, root: int, nodes: Map<int, Node>, f: int)
    requires
        tree(mem, root, nodes),
        nodes.dom().contains(f),
    ensures
        mem.holds(f),
        1 <= nodes[f].level <= 4,
{
    reveal(tree);
    assert(node_ok(mem, root, nodes, f));
}

/// The root is a table of its tree, at level four.
proof fn lemma_root<M: TableMemory>(mem: &M, root: int, nodes: Map<int, Node>)
    requires
        tree(mem, root, nodes),
    ensures
        nodes.dom().contains(root),
        nodes[root].level == 4,
        mem.holds(root),
{
    reveal(tree);
    assert(node_ok(mem, root, nodes, root));
}

/// The page after one of a block of 512 is in the block too if its
/// level-two index is the block's.
proof fn lemma_next_in_block(prev: u64, first: u64)
    by (bit_vector)
    requires
        prev < 0xffff_ffff_ffff_ffff,
        prev / 512 == first / 512,
        (((prev + 1) as u64) / 0x200) % 512 == (first / 0x200) % 512,
    ensures
        ((prev + 1) as u64) / 512 == first / 512,
{
}

/// One more page mapped: the translations are those of a run that is one
/// page longer.
proof fn lemma_map_step<M: TableMemory>(
    origin: spec_fn(int) -> Option<Translation>,
    m0: &M,
    m1: &M,
    root: int,
    begin: int,
    done: int,
    phys: int,
    flags: PageFlags,
)
    requires
        0 <= done < 0x10_0000_0000,
        forall|q: int|
            0 <= q <= u64::MAX ==> #[trigger] translate(m0, root, q) == PageTable::mapped(
                begin,
                done,
                phys,
                flags,
                origin(q),
                q,
            ),
        forall|q: int|
            0 <= q <= u64::MAX && slot(q) != slot(begin + done) ==> #[trigger] translate(m1, root, q)
                == translate(m0, root, q),
        forall|q: int|
            0 <= q <= u64::MAX && slot(q) == slot(begin + done) ==> #[trigger] translate(m1, root, q)
                == Some(Translation { frame: phys + done, flags, level: 1 }),
    ensures
        forall|q: int|
            0 <= q <= u64::MAX ==> #[trigger] translate(m1, root, q) == PageTable::mapped(
                begin,
                done + 1,
                phys,
                flags,
                origin(q),
                q,
            ),
{
    assert forall|q: int| 0 <= q <= u64::MAX implies #[trigger] translate(m1, root, q)
        == PageTable::mapped(begin, done + 1, phys, flags, origin(q), q) by {
        lemma_touches(begin, done, q);
        assert(translate(m0, root, q) == PageTable::mapped(
            begin,
            done,
            phys,
            flags,
            origin(q),
            q,
        ));
    }
}

/// A run that is one page longer touches what the run touched and what
/// translation cannot tell from the new page.
pub proof fn lemma_touches_next(begin: int, count: int, page: int)
    requires
        0 <= count,
    ensures
        touches(begin, count + 1, page) <==> touches(begin, count, page) || slot(page) == slot(
            begin + count,
        ),
        !touches(begin, 0, page),
{
    reveal(distance);
}

/// One more page unmapped: the translations are those after unmapping a run
/// that is one page longer.
proof fn lemma_unmap_step<M: TableMemory>(
    origin: spec_fn(int) -> Option<Translation>,
    m0: &M,
    m1: &M,
    root: int,
    begin: int,
    done: int,
    cleared: bool,
)
    requires
        0 <= done,
        0 <= begin + done <= u64::MAX,
        cleared == (table1(m0, root, begin + done) is Some),
        forall|q: int|
            0 <= q <= u64::MAX ==> #[trigger] translate(m0, root, q) == PageTable::unmapped_from(
                begin,
                done,
                origin(q),
                q,
            ),
        forall|q: int|
            0 <= q <= u64::MAX && (!cleared || slot(q) != slot(begin + done))
                ==> #[trigger] translate(m1, root, q) == translate(m0, root, q),
        forall|q: int|
            0 <= q <= u64::MAX && cleared && slot(q) == slot(begin + done) ==> (
            #[trigger] translate(m1, root, q)) is None,
    ensures
        forall|q: int|
            0 <= q <= u64::MAX ==> #[trigger] translate(m1, root, q) == PageTable::unmapped_from(
                begin,
                done + 1,
                origin(q),
                q,
            ),
{
    assert forall|q: int| 0 <= q <= u64::MAX implies #[trigger] translate(m1, root, q)
        == PageTable::unmapped_from(begin, done + 1, origin(q), q) by {
        lemma_touches_next(begin, done, q);
        assert(translate(m0, root, q) == PageTable::unmapped_from(begin, done, origin(q), q));
        if slot(q) == slot(begin + done) {
            lemma_slot(q as u64, (begin + done) as u64);
            assert(table1(m0, root, q) == table1(m0, root, begin + done));
        }
    }
}

/// The prefix of the table `d` levels above a table with prefix `p`.
spec fn ancestor_prefix(p: int, d: int) -> int {
    if d == 0 {
        p
    } else if d == 1 {
        p / 512
    } else if d == 2 {
        (p / 512) / 512
    } else {
        ((p / 512) / 512) / 512
    }
}

/// Whether `f` is a table of the tree that stands below table `t`.
spec fn under(nodes: Map<int, Node>, t: int, f: int) -> bool {
    let d = nodes[t].level - nodes[f].level;
    &&& nodes.dom().contains(f)
    &&& 1 <= d <= 3
    &&& ancestor_prefix(nodes[f].prefix, d) == nodes[t].prefix
}

/// The entry of `t` through which `f`, a table below `t`, is reached.
spec fn entry_above(nodes: Map<int, Node>, t: int, f: int) -> int {
    ancestor_prefix(nodes[f].prefix, nodes[t].level - nodes[f].level - 1) % 512
}

/// The tables below `t` that are reached through its entries before entry
/// `upto`.
spec fn subtree(nodes: Map<int, Node>, t: int, upto: int) -> Set<int> {
    Set::new(|f: int| under(nodes, t, f) && entry_above(nodes, t, f) < upto)
}

/// The frame of a one-frame region.
pub open spec fn single(f: int) -> FrameRegion {
    FrameRegion { begin: Frame(f as u64), num: 1 }
}

/// What lies below table `t` behind its entry `i`: the table that the entry
/// leads to and all below that one, or nothing if the entry leads nowhere.
proof fn lemma_subtree_step<M: TableMemory>(
    mem: &M,
    root: int,
    nodes: Map<int, Node>,
    t: int,
    i: int,
)
    requires
        tree(mem, root, nodes),
        nodes.dom().contains(t),
        nodes[t].level >= 2,
        0 <= i < 512,
    ensures
        links(mem.word(t, i), nodes[t].level) ==> {
            let c = TableEntry(mem.word(t, i)).frame();
            &&& child_ok(nodes, t, i, c)
            &&& mem.holds(c)
            &&& subtree(nodes, t, i + 1) == subtree(nodes, t, i).union(
                subtree(nodes, c, 512).insert(c),
            )
            &&& !subtree(nodes, t, i).contains(c)
            &&& !subtree(nodes, c, 512).contains(c)
            &&& subtree(nodes, t, i).disjoint(subtree(nodes, c, 512))
            &&& nodes[t].level == 2 ==> subtree(nodes, c, 512) == Set::<int>::empty()
            &&& forall|f: int| #[trigger] under(nodes, c, f) ==> under(nodes, t, f)
        },
        !links(mem.word(t, i), nodes[t].level) ==> subtree(nodes, t, i + 1) == subtree(
            nodes,
            t,
            i,
        ),
{
    reveal(tree);
    assert(node_ok(mem, root, nodes, t));
    let lt = nodes[t].level;
    let pt = nodes[t].prefix;
    if links(mem.word(t, i), lt) {
        let c = TableEntry(mem.word(t, i)).frame();
        assert(child_ok(nodes, t, i, c));
        assert(node_ok(mem, root, nodes, c));
        lemma_child_place(pt, i);
        assert forall|f: int|
            subtree(nodes, t, i + 1).contains(f) <==> subtree(nodes, t, i).union(
                subtree(nodes, c, 512).insert(c),
            ).contains(f) by {
            if under(nodes, t, f) && entry_above(nodes, t, f) == i {
                assert(node_ok(mem, root, nodes, f));
                let d = lt - nodes[f].level;
                let g = nodes[f].parent;
                assert(node_ok(mem, root, nodes, g));
                if d == 1 {
                    assert(g == t);
                } else if d == 2 {
                    assert(nodes[g].parent == t);
                    assert(g == c);
                } else {
                    let h = nodes[g].parent;
                    assert(node_ok(mem, root, nodes, h));
                    assert(nodes[h].parent == t);
                    assert(h == c);
                }
            }
            if under(nodes, c, f) {
                assert(node_ok(mem, root, nodes, f));
            }
        }
        assert(subtree(nodes, t, i + 1) =~= subtree(nodes, t, i).union(
            subtree(nodes, c, 512).insert(c),
        ));
        assert forall|f: int| #[trigger] under(nodes, c, f) implies under(nodes, t, f)
            && entry_above(nodes, t, f) == i by {
            assert(node_ok(mem, root, nodes, f));
        }
        if lt == 2 {
            assert forall|f: int| !subtree(nodes, c, 512).contains(f) by {
                if under(nodes, c, f) {
                    assert(node_ok(mem, root, nodes, f));
                }
            }
            assert(subtree(nodes, c, 512) =~= Set::<int>::empty());
        }
    } else {
        assert forall|f: int|
            subtree(nodes, t, i + 1).contains(f) <==> subtree(nodes, t, i).contains(f) by {
            if under(nodes, t, f) && entry_above(nodes, t, f) == i {
                assert(node_ok(mem, root, nodes, f));
                let d = lt - nodes[f].level;
                let g = nodes[f].parent;
                assert(node_ok(mem, root, nodes, g));
                if d == 1 {
                    assert(g == t);
                } else if d == 2 {
                    assert(nodes[g].parent == t);
                } else {
                    let h = nodes[g].parent;
                    assert(node_ok(mem, root, nodes, h));
                    assert(nodes[h].parent == t);
                }
            }
        }
        assert(subtree(nodes, t, i + 1) =~= subtree(nodes, t, i));
    }
}

/// Every table but the root stands below the root.
proof fn lemma_root_subtree<M: TableMemory>(mem: &M, root: int, nodes: Map<int, Node>)
    requires
        tree(mem, root, nodes),
    ensures
        subtree(nodes, root, 512) == nodes.dom().remove(root),
        subtree(nodes, root, 0) == Set::<int>::empty(),
{
    reveal(tree);
    assert(node_ok(mem, root, nodes, root));
    assert forall|f: int| subtree(nodes, root, 512).contains(f) <==> nodes.dom().remove(
        root,
    ).contains(f) by {
        if nodes.dom().contains(f) && f != root {
            assert(node_ok(mem, root, nodes, f));
            let g = nodes[f].parent;
            assert(node_ok(mem, root, nodes, g));
            if g != root {
                let h = nodes[g].parent;
                assert(node_ok(mem, root, nodes, h));
                if h != root {
                    assert(node_ok(mem, root, nodes, nodes[h].parent));
                }
            }
        }
    }
    assert(subtree(nodes, root, 512) =~= nodes.dom().remove(root));
    assert(subtree(nodes, root, 0) =~= Set::<int>::empty());
}

/// Two pages that translation cannot tell apart translate alike.
pub proof fn lemma_alias<M: TableMemory>(mem: &M, root: int, p: u64, q: u64)
    requires
        slot(p as int) == slot(q as int),
    ensures
        translate(mem, root, p as int) == translate(mem, root, q as int),
{
    lemma_slot(p, q);
}

/// The most tables that mapping `count` pages in a row can need: one table
/// of each of the three levels for every block of 512 pages that the pages
/// touch, of which there are at most `count / 512 + 2`.
pub open spec fn tables_for(count: int) -> int {
    3 * (count / 512 + 2)
}

/// Whether `after` holds all but at most `taken` of the frames of `before`,
/// where `before` is finite.
pub open spec fn at_most_taken(before: Set<int>, after: Set<int>, taken: int) -> bool {
    before.finite() ==> after.finite() && after.len() >= before.len() - taken
}

/// Taking one frame out of a finite set leaves a finite set with one frame
/// less.
pub proof fn lemma_one_taken(before: Set<int>, after: Set<int>, region: FrameRegion)
    requires
        region.num == 1,
        region.frames().subset_of(before),
        after == before.difference(region.frames()),
    ensures
        at_most_taken(before, after, 1),
{
    assert(region.frames() =~= set![region.begin@]);
    assert(after =~= before.remove(region.begin@));
}

/// Taking a region out of a finite set leaves a finite set with as many
/// frames less as the region has.
pub proof fn lemma_run_taken(before: Set<int>, after: Set<int>, region: FrameRegion)
    requires
        region.frames().subset_of(before),
        after == before.difference(region.frames()),
    ensures
        at_most_taken(before, after, region.num as int),
{
    if before.finite() {
        let range = vstd::set_lib::set_int_range(region.begin@, region.begin@ + region.num);
        vstd::set_lib::lemma_int_range(region.begin@, region.begin@ + region.num);
        assert(region.frames() =~= range);
        vstd::set_lib::lemma_len_difference(before, range);
        vstd::set_lib::lemma_set_disjoint_lens(after, range);
        assert(after + range =~= before);
    }
}

/// Where none of the first `k` blocks of `count` frames from `start` on is
/// a run of frames of `left`, and every frame of them that `left` lacks
/// belongs to `gone`, at least `k` frames of `gone` lie in those blocks.
proof fn lemma_gone_many(gone: Set<int>, left: Set<int>, start: int, count: int, k: nat)
    requires
        gone.finite(),
        1 <= count,
        forall|s: int| !#[trigger] is_free_run(left, s, count),
        forall|f: int| start <= f < start + k * count && !left.contains(f) ==> gone.contains(f),
    ensures
        gone.intersect(vstd::set_lib::set_int_range(start, start + k * count)).finite(),
        gone.intersect(vstd::set_lib::set_int_range(start, start + k * count)).len() >= k,
    decreases k,
{
    let all = gone.intersect(vstd::set_lib::set_int_range(start, start + k * count));
    vstd::set_lib::lemma_len_intersect(gone, vstd::set_lib::set_int_range(start, start + k * count));
    if k > 0 {
        let begin = start + (k - 1) * count;
        assert(begin + count == start + k * count) by (nonlinear_arith)
            requires
                begin == start + (k - 1) * count,
        ;
        assert((k - 1) * count >= 0) by (nonlinear_arith)
            requires
                k >= 1,
                count >= 1,
        ;
        lemma_gone_many(gone, left, start, count, (k - 1) as nat);
        let fewer = gone.intersect(vstd::set_lib::set_int_range(start, begin));
        assert(!is_free_run(left, begin, count));
        let f = choose|f: int| begin <= f < begin + count && !left.contains(f);
        assert(gone.contains(f));
        assert(!fewer.contains(f));
        assert(fewer.insert(f).subset_of(all));
        vstd::set_lib::lemma_len_subset(fewer.insert(f), all);
    }
}

/// Of a long run of free frames a run is left when few frames are taken:
/// where `(taken + 1) * count` frames in a row were free and at most `taken`
/// frames went, `count` frames in a row are free still.
pub proof fn lemma_run_left(free: Set<int>, left: Set<int>, start: int, count: int, taken: int)
    requires
        free.finite(),
        left.subset_of(free),
        at_most_taken(free, left, taken),
        0 <= taken,
        1 <= count,
        is_free_run(free, start, (taken + 1) * count),
    ensures
        exists|s: int| is_free_run(left, s, count),
{
    if forall|s: int| !#[trigger] is_free_run(left, s, count) {
        let gone = free.difference(left);
        let k = (taken + 1) as nat;
        assert forall|f: int| start <= f < start + k * count && !left.contains(f) implies gone.contains(
            f,
        ) by {
            assert(free.contains(f));
        }
        lemma_gone_many(gone, left, start, count, k);
        let all = gone.intersect(vstd::set_lib::set_int_range(start, start + k * count));
        vstd::set_lib::lemma_len_subset(all, gone);
        vstd::set_lib::lemma_set_disjoint_lens(left, gone);
        assert(left + gone =~= free);
    }
}

/// What is taken in two steps is taken in all.
pub proof fn lemma_taken_twice(a: Set<int>, b: Set<int>, c: Set<int>, x: int, y: int)
    requires
        at_most_taken(a, b, x),
        at_most_taken(b, c, y),
    ensures
        at_most_taken(a, c, x + y),
{
}

/// Where the run of `count` pages from `begin` on does not pass the end of
/// the 36 bits that translation looks at, it touches exactly the pages whose
/// low 36 bits lie in the run's.
pub proof fn lemma_touches_range(begin: int, count: int, page: int)
    requires
        0 <= begin,
        0 <= count,
        slot(begin) + count <= 0x10_0000_0000,
        0 <= page,
    ensures
        touches(begin, count, page) <==> slot(begin) <= slot(page) < slot(begin) + count,
{
    reveal(distance);
    let m = 0x10_0000_0000int;
    let s = begin % m;
    let t = page % m;
    assert(begin == m * (begin / m) + s) by {
        vstd::arithmetic::div_mod::lemma_fundamental_div_mod(begin, m);
    }
    assert(page == m * (page / m) + t) by {
        vstd::arithmetic::div_mod::lemma_fundamental_div_mod(page, m);
    }
    let d = page / m - begin / m;
    assert(page - begin == m * d + (t - s)) by (nonlinear_arith)
        requires
            begin == m * (begin / m) + s,
            page == m * (page / m) + t,
            d == page / m - begin / m,
    ;
    if t >= s {
        vstd::arithmetic::div_mod::lemma_fundamental_div_mod_converse(page - begin, m, d, t - s);
    } else {
        assert(page - begin == m * (d - 1) + (t - s + m)) by (nonlinear_arith)
            requires
                page - begin == m * d + (t - s),
        ;
        vstd::arithmetic::div_mod::lemma_fundamental_div_mod_converse(
            page - begin,
            m,
            d - 1,
            t - s + m,
        );
    }
}

/// With no run of one free frame, no frame is free.
pub proof fn lemma_no_single_frame(free: Set<int>)
    requires
        forall|s: int| !is_free_run(free, s, 1),
    ensures
        free == Set::<int>::empty(),
{
    assert forall|f: int| !free.contains(f) by {
        if free.contains(f) {
            assert(is_free_run(free, f, 1));
        }
    }
    assert(free =~= Set::<int>::empty());
}

/// A four-level translation tree, known by the frame of its root table.
///
/// The tree owns the frames of its tables; the frames that its leaves point
/// to belong to whoever mapped them.
pub struct PageTable {
    pml4t: Frame,
    nodes: Ghost<Map<int, Node>>,
}

impl PageTable {
    /// The frame of the root table.
    pub closed spec fn root(&self) -> int {
        self.pml4t@
    }

    /// The frames of all tables of the tree, the root's among them.
    pub closed spec fn tables(&self) -> Set<int> {
        self.nodes@.dom()
    }

    /// The invariant of the tree in `mem`.
    pub closed spec fn wf<M: TableMemory>(&self, mem: &M) -> bool {
        tree(mem, self.pml4t@, self.nodes@)
    }

    /// Whether every entry of the tree that leads to a table lets writes and
    /// user mode through.
    pub closed spec fn permissive<M: TableMemory>(&self, mem: &M) -> bool {
        forall|f: int, i: int|
            self.nodes@.dom().contains(f) && 0 <= i < 512 && self.nodes@[f].level >= 2 && links(
                #[trigger] mem.word(f, i),
                self.nodes@[f].level,
            ) ==> passes(mem.word(f, i))
    }

    /// Whether every entry of the tree that leads to a table lets writes and
    /// user mode through or stood in a table of `before` as it is.
    spec fn passes_or_kept<M: TableMemory>(
        &self,
        before: &PageTable,
        mem: &M,
        mem_before: &M,
    ) -> bool {
        forall|f: int, i: int|
            self.nodes@.dom().contains(f) && 0 <= i < 512 && self.nodes@[f].level >= 2 && links(
                #[trigger] mem.word(f, i),
                self.nodes@[f].level,
            ) ==> passes(mem.word(f, i)) || (before.nodes@.dom().contains(f) && mem.word(f, i)
                == mem_before.word(f, i))
    }

    /// Whether the tree knows every table of `before` at the same place.
    spec fn keeps(&self, before: &PageTable) -> bool {
        forall|f: int| #[trigger]
            before.nodes@.dom().contains(f) ==> self.nodes@.dom().contains(f) && self.nodes@[f]
                == before.nodes@[f]
    }

    /// Entries that pass or were kept over two steps pass or were kept over
    /// both.
    proof fn lemma_passes_or_kept<M: TableMemory>(
        &self,
        mid: &PageTable,
        first: &PageTable,
        mem: &M,
        mem_mid: &M,
        mem_first: &M,
    )
        requires
            self.passes_or_kept(mid, mem, mem_mid),
            mid.passes_or_kept(first, mem_mid, mem_first),
            self.keeps(mid),
            mid.keeps(first),
        ensures
            self.passes_or_kept(first, mem, mem_first),
            self.keeps(first),
    {
        assert forall|f: int, i: int|
            self.nodes@.dom().contains(f) && 0 <= i < 512 && self.nodes@[f].level >= 2 && links(
                #[trigger] mem.word(f, i),
                self.nodes@[f].level,
            ) implies passes(mem.word(f, i)) || (first.nodes@.dom().contains(f) && mem.word(f, i)
            == mem_first.word(f, i)) by {
            if !passes(mem.word(f, i)) {
                assert(mid.nodes@.dom().contains(f));
                assert(links(mem_mid.word(f, i), mid.nodes@[f].level));
            }
        }
    }

    /// Where every entry of the tree passes or was kept, so does every
    /// entry on the walk for a page that reaches a level-one table.
    proof fn lemma_walk_kept<M: TableMemory>(
        &self,
        before: &PageTable,
        mem: &M,
        mem_before: &M,
        page: int,
    )
        requires
            self.wf(mem),
            self.passes_or_kept(before, mem, mem_before),
            table1(mem, self.root(), page) is Some,
        ensures
            walk_passes_or_kept(mem, mem_before, self.root(), page),
    {
        lemma_walk(mem, self.pml4t@, self.nodes@, page);
        lemma_root(mem, self.pml4t@, self.nodes@);
        assert(0 <= index4(page) < 512 && 0 <= index3(page) < 512 && 0 <= index2(page) < 512);
    }

    /// In a tree whose entries let everything through, so does the walk for
    /// every page that reaches a level-one table.
    pub proof fn lemma_walk_passes<M: TableMemory>(&self, mem: &M, page: int)
        requires
            self.wf(mem),
            self.permissive(mem),
            table1(mem, self.root(), page) is Some,
        ensures
            walk_passes(mem, self.root(), page),
    {
        lemma_walk(mem, self.pml4t@, self.nodes@, page);
        lemma_root(mem, self.pml4t@, self.nodes@);
        assert(0 <= index4(page) < 512 && 0 <= index3(page) < 512 && 0 <= index2(page) < 512);
    }

    /// A table on the walk for a page is a table of the tree and not its
    /// root, and the tables of one walk differ.
    pub proof fn lemma_on_walk<M: TableMemory>(&self, mem: &M, page: int, f: int)
        requires
            self.wf(mem),
            on_walk(mem, self.root(), page, f),
        ensures
            self.tables().contains(f),
            f != self.root(),
            table3(mem, self.root(), page) != table2(mem, self.root(), page),
            table3(mem, self.root(), page) != table1(mem, self.root(), page),
            table2(mem, self.root(), page) == table1(mem, self.root(), page) ==> table2(
                mem,
                self.root(),
                page,
            ) is None,
    {
        lemma_walk(mem, self.pml4t@, self.nodes@, page);
        lemma_root(mem, self.pml4t@, self.nodes@);
    }

    /// The walks for two pages reach the same table of a level exactly
    /// when the pages agree in the indices above that level.
    pub proof fn law_walks_meet<M: TableMemory>(&self, mem: &M, p: int, q: int)
        requires
            self.wf(mem),
            0 <= p,
            0 <= q,
        ensures
            table3(mem, self.root(), p) is Some && table3(mem, self.root(), q) is Some ==> (table3(
                mem,
                self.root(),
                p,
            ) == table3(mem, self.root(), q) <==> index4(p) == index4(q)),
            table2(mem, self.root(), p) is Some && table2(mem, self.root(), q) is Some ==> (table2(
                mem,
                self.root(),
                p,
            ) == table2(mem, self.root(), q) <==> index4(p) == index4(q) && index3(p) == index3(
                q,
            )),
            table1(mem, self.root(), p) is Some && table1(mem, self.root(), q) is Some ==> (table1(
                mem,
                self.root(),
                p,
            ) == table1(mem, self.root(), q) <==> index4(p) == index4(q) && index3(p) == index3(q)
                && index2(p) == index2(q)),
    {
        lemma_walk(mem, self.pml4t@, self.nodes@, p);
        lemma_walk(mem, self.pml4t@, self.nodes@, q);
        assert(0 <= index4(p) < 512 && 0 <= index3(p) < 512 && 0 <= index2(p) < 512);
        assert(0 <= index4(q) < 512 && 0 <= index3(q) < 512 && 0 <= index2(q) < 512);
    }

    /// What `page` translates to.
    pub open spec fn translate<M: TableMemory>(&self, mem: &M, page: int) -> Option<Translation> {
        translate(mem, self.root(), page)
    }

    /// Whether no page of `count` pages from `begin` on translates.
    pub open spec fn unmapped<M: TableMemory>(&self, mem: &M, begin: int, count: int) -> bool {
        forall|page: int|
            begin <= page < begin + count ==> (#[trigger] self.translate(mem, page)) is None
    }

    /// The tree under the root table in `pml4t`, which exists already.
    /// Nothing is known of its shape, so it can be used to translate only,
    /// with `resolve` and `lookup`, where memory holds the tables on the
    /// walk; `examine` takes a tree over for every use after looking at its
    /// tables.
    pub fn from(pml4t: Frame) -> (r: Self)
        ensures
            r.root() == pml4t@,
    {
        Self { pml4t, nodes: Ghost(Map::empty()) }
    }

    /// The frame of the root table.
    pub fn root_frame(&self) -> (r: Frame)
        ensures
            r@ == self.root(),
    {
        self.pml4t
    }

    /// In a valid tree every walk can be followed.
    pub proof fn lemma_walk_held<M: TableMemory>(&self, mem: &M, page: int)
        requires
            self.wf(mem),
        ensures
            walk_held(mem, self.root(), page),
    {
        reveal(tree);
        lemma_walk(mem, self.pml4t@, self.nodes@, page);
    }

    /// A tree that is taken by its root alone translates as every tree
    /// under that root does, and its walks can be followed wherever one of
    /// those is valid.
    pub proof fn law_root_translates<M: TableMemory>(&self, other: &PageTable, mem: &M, page: int)
        requires
            self.root() == other.root(),
        ensures
            self.translate(mem, page) == other.translate(mem, page),
            other.wf(mem) ==> walk_held(mem, self.root(), page),
    {
        if other.wf(mem) {
            other.lemma_walk_held(mem, page);
        }
    }

    /// The frame that `page` translates to, if it translates. The tree
    /// need not be known to be valid: it is enough that memory holds the
    /// tables on the walk for `page`.
    pub fn resolve<M: TableMemory>(&self, mem: &M, page: Page) -> (r: Option<Frame>)
        requires
            walk_held(mem, self.root(), page@),
        ensures
            match r {
                Some(f) => self.translate(mem, page@) matches Some(t) && t.frame == f@,
                None => self.translate(mem, page@) is None,
            },
    {
        match self.lookup(mem, page) {
            Some((frame, _)) => Some(frame),
            None => None,
        }
    }

    /// The frame and the permissions that `page` translates to, if it
    /// translates. The tree need not be known to be valid: it is enough
    /// that memory holds the tables on the walk for `page`.
    pub fn lookup<M: TableMemory>(&self, mem: &M, page: Page) -> (r: Option<(Frame, PageFlags)>)
        requires
            walk_held(mem, self.root(), page@),
        ensures
            match r {
                Some((f, flags)) => self.translate(mem, page@) matches Some(t) && t.frame == f@
                    && t.flags == flags,
                None => self.translate(mem, page@) is None,
            },
    {
        let pml4e_idx = get_page_index_4(page);
        let pdpe_idx = get_page_index_3(page);
        let pde_idx = get_page_index_2(page);
        let pte_idx = get_page_index_1(page);
        let pml4e = TableEntry(mem.read(self.pml4t, pml4e_idx));
        if !pml4e.get_present() {
            return None;
        }
        let pdpe = TableEntry(mem.read(pml4e.get_frame(), pdpe_idx));
        if !pdpe.get_present() {
            return None;
        } else if pdpe.get_huge() {
            let frame = Frame::new(
                pdpe.get_frame().get_index() + ((pde_idx as u64) * 512 + pte_idx as u64),
            );
            return Some((frame, entry_flags(pdpe)));
        }
        let pde = TableEntry(mem.read(pdpe.get_frame(), pde_idx));
        if !pde.get_present() {
            return None;
        } else if pde.get_huge() {
            let frame = Frame::new(pde.get_frame().get_index() + pte_idx as u64);
            return Some((frame, entry_flags(pde)));
        }
        let pte = TableEntry(mem.read(pde.get_frame(), pte_idx));
        if !pte.get_present() {
            None
        } else {
            Some((pte.get_frame(), entry_flags(pte)))
        }
    }

    /// How the tree and its surroundings may differ from an earlier state
    /// of both after tables were added: the root is the same; the tables
    /// are the earlier ones and the frames that left the free pool; and no
    /// word outside the tables has changed.
    pub open spec fn grown_from<M: TableMemory>(
        &self,
        before: &PageTable,
        mem: &M,
        mem_before: &M,
        free: Set<int>,
        free_before: Set<int>,
    ) -> bool {
        &&& self.root() == before.root()
        &&& free.subset_of(free_before)
        &&& self.tables() == before.tables().union(free_before.difference(free))
        &&& forall|f: int| mem.holds(f) == mem_before.holds(f)
        &&& forall|f: int, i: int|
            !self.tables().contains(f) ==> #[trigger] mem.word(f, i) == mem_before.word(f, i)
    }

    /// A tree of one empty root table, in a frame taken from `alloc`. Fails
    /// exactly when no frame is free.
    pub fn new<M: TableMemory, A: FrameAllocator>(mem: &mut M, alloc: &mut A) -> (r: Result<
        Self,
        FrameAllocError,
    >)
        requires
            old(alloc).wf(),
            backs(old(alloc), old(mem)),
        ensures
            final(alloc).wf(),
            backs(final(alloc), final(mem)),
            forall|f: int| final(mem).holds(f) == old(mem).holds(f),
            match r {
                Ok(pt) => {
                    &&& pt.wf(final(mem))
                    &&& old(alloc).free_frames().contains(pt.root())
                    &&& final(alloc).free_frames() == old(alloc).free_frames().remove(pt.root())
                    &&& pt.tables() == set![pt.root()]
                    &&& pt.permissive(final(mem))
                    &&& forall|page: int| #[trigger] pt.translate(final(mem), page) is None
                    &&& forall|f: int, i: int|
                        f != pt.root() ==> #[trigger] final(mem).word(f, i) == old(mem).word(f, i)
                },
                Err(_) => {
                    &&& old(alloc).free_frames() == Set::<int>::empty()
                    &&& final(alloc).free_frames() == old(alloc).free_frames()
                    &&& forall|f: int, i: int| #[trigger]
                        final(mem).word(f, i) == old(mem).word(f, i)
                },
            },
    {
        match alloc.allocate(1) {
            Err(e) => {
                proof {
                    lemma_no_single_frame(old(alloc).free_frames());
                }
                Err(e)
            },
            Ok(region) => {
                let pml4t = region.start();
                proof {
                    assert(region.frames().contains(pml4t@));
                    assert(region.frames() =~= set![pml4t@]);
                    assert(final(alloc).free_frames() =~= old(alloc).free_frames().remove(
                        pml4t@,
                    ));
                }
                mem.clear(pml4t);
                let ghost nodes = Map::<int, Node>::empty().insert(
                    pml4t@,
                    Node { level: 4, prefix: 0, parent: pml4t@ },
                );
                let pt = Self { pml4t, nodes: Ghost(nodes) };
                proof {
                    reveal(tree);
                    lemma_zero_entry();
                    assert(node_ok(mem, pml4t@, nodes, pml4t@));
                    assert(nodes.dom() =~= set![pml4t@]);
                    assert(tree(mem, pml4t@, nodes));
                    assert forall|page: int| #[trigger] pt.translate(mem, page) is None by {
                        assert(0 <= index4(page) < 512);
                    }
                }
                Ok(pt)
            },
        }
    }

    /// Sets the permission bits of an entry: present always; writable,
    /// reachable from user mode and executable as `flags` say for a leaf, and
    /// all three for an entry that leads to a table, so that the leaves alone
    /// decide.
    pub fn set_flags(entry: &mut TableEntry, flags: PageFlags, is_leaf: bool)
        ensures
            final(entry).present(),
            final(entry).usermode() == (flags.usermode || !is_leaf),
            final(entry).writable() == (flags.writable || !is_leaf),
            final(entry).executable() == (flags.executable || !is_leaf),
            final(entry).huge() == old(entry).huge(),
            final(entry).global() == old(entry).global(),
            final(entry).frame() == old(entry).frame(),
    {
        *entry = entry.set_present(true).set_usermode(flags.usermode || !is_leaf).set_writable(
            flags.writable || !is_leaf,
        ).set_executable(flags.executable || !is_leaf);
    }

    /// The table that entry `index` of `table` leads to, made first if the
    /// entry is not present.
    fn descend<M: TableMemory, A: FrameAllocator>(
        &mut self,
        mem: &mut M,
        alloc: &mut A,
        table: Frame,
        index: usize,
    ) -> (r: Result<Frame, FrameAllocError>)
        requires
            old(self).wf(old(mem)),
            old(alloc).wf(),
            backs(old(alloc), old(mem)),
            old(self).tables().disjoint(old(alloc).free_frames()),
            old(self).nodes@.dom().contains(table@),
            old(self).nodes@[table@].level >= 2,
            index < 512,
            !TableEntry(old(mem).word(table@, index as int)).present() || links(
                old(mem).word(table@, index as int),
                old(self).nodes@[table@].level,
            ),
        ensures
            final(self).wf(final(mem)),
            final(alloc).wf(),
            backs(final(alloc), final(mem)),
            final(self).tables().disjoint(final(alloc).free_frames()),
            final(self).grown_from(
                old(self),
                final(mem),
                old(mem),
                final(alloc).free_frames(),
                old(alloc).free_frames(),
            ),
            forall|f: int|
                old(self).nodes@.dom().contains(f) ==> #[trigger] final(self).nodes@[f] == old(self).nodes@[f],
            forall|page: int| #[trigger]
                translate(final(mem), final(self).root(), page) == translate(
                    old(mem),
                    old(self).root(),
                    page,
                ),
            forall|page: int|
                table3(old(mem), old(self).root(), page) is Some ==> #[trigger] table3(
                    final(mem),
                    old(self).root(),
                    page,
                ) == table3(old(mem), old(self).root(), page),
            forall|page: int|
                table2(old(mem), old(self).root(), page) is Some ==> #[trigger] table2(
                    final(mem),
                    old(self).root(),
                    page,
                ) == table2(old(mem), old(self).root(), page),
            forall|page: int|
                table1(old(mem), old(self).root(), page) is Some ==> #[trigger] table1(
                    final(mem),
                    old(self).root(),
                    page,
                ) == table1(old(mem), old(self).root(), page),
            old(self).permissive(old(mem)) ==> final(self).permissive(final(mem)),
            final(self).passes_or_kept(old(self), final(mem), old(mem)),
            final(self).keeps(old(self)),
            forall|f: int|
                final(self).nodes@.dom().contains(f) && !old(self).nodes@.dom().contains(f) ==> (r matches Ok(
                    c,
                ) && c@ == f),
            match r {
                Ok(c) => {
                    &&& links(
                        final(mem).word(table@, index as int),
                        old(self).nodes@[table@].level,
                    )
                    &&& TableEntry(final(mem).word(table@, index as int)).frame() == c@
                    &&& final(self).nodes@.dom().contains(c@)
                    &&& final(self).nodes@[c@].level == old(self).nodes@[table@].level - 1
                },
                Err(_) => final(alloc).free_frames() == Set::<int>::empty() && old(
                    alloc,
                ).free_frames() == Set::<int>::empty(),
            },
            at_most_taken(old(alloc).free_frames(), final(alloc).free_frames(), 1),
    {
        proof {
            reveal(tree);
            assert(node_ok(mem, self.pml4t@, self.nodes@, table@));
        }
        let entry = TableEntry(mem.read(table, index));
        if entry.get_present() {
            proof {
                assert(child_ok(self.nodes@, table@, index as int, entry.frame()));
                assert(self.tables() =~= old(self).tables().union(
                    old(alloc).free_frames().difference(alloc.free_frames()),
                ));
            }
            return Ok(entry.get_frame());
        }
        match alloc.allocate(1) {
            Err(e) => {
                proof {
                    lemma_no_single_frame(old(alloc).free_frames());
                    assert(self.tables() =~= old(self).tables().union(
                        old(alloc).free_frames().difference(alloc.free_frames()),
                    ));
                }
                Err(e)
            },
            Ok(region) => {
                let frame = region.start();
                proof {
                    assert(region.frames().contains(frame@));
                    assert(region.frames() =~= set![frame@]);
                    lemma_one_taken(old(alloc).free_frames(), alloc.free_frames(), region);
                }
                mem.clear(frame);
                let mut fresh = TableEntry::empty().set_frame(frame);
                Self::set_flags(&mut fresh, PageFlags::empty(), false);
                mem.write(table, index, fresh.0);
                proof {
                    let level = self.nodes@[table@].level;
                    lemma_link(
                        old(mem),
                        mem,
                        self.pml4t@,
                        self.nodes@,
                        table@,
                        index as int,
                        frame@,
                        fresh.0,
                    );
                    self.nodes@ = self.nodes@.insert(
                        frame@,
                        Node {
                            level: level - 1,
                            prefix: self.nodes@[table@].prefix * 512 + index,
                            parent: table@,
                        },
                    );
                    assert(self.tables() =~= old(self).tables().union(
                        old(alloc).free_frames().difference(alloc.free_frames()),
                    ));
                }
                Ok(frame)
            },
        }
    }

    /// The level-one table that serves `page`, with the tables above it made
    /// on the way where they were missing.
    fn leaf_table<M: TableMemory, A: FrameAllocator>(
        &mut self,
        mem: &mut M,
        alloc: &mut A,
        page: Page,
    ) -> (r: Result<Frame, FrameAllocError>)
        requires
            old(self).wf(old(mem)),
            old(alloc).wf(),
            backs(old(alloc), old(mem)),
            old(self).tables().disjoint(old(alloc).free_frames()),
            old(self).translate(old(mem), page@) is None,
        ensures
            final(self).wf(final(mem)),
            final(alloc).wf(),
            backs(final(alloc), final(mem)),
            final(self).tables().disjoint(final(alloc).free_frames()),
            final(self).grown_from(
                old(self),
                final(mem),
                old(mem),
                final(alloc).free_frames(),
                old(alloc).free_frames(),
            ),
            forall|q: int| #[trigger]
                final(self).translate(final(mem), q) == old(self).translate(old(mem), q),
            forall|q: int, f: int| #[trigger]
                on_walk(old(mem), old(self).root(), q, f) ==> on_walk(
                    final(mem),
                    old(self).root(),
                    q,
                    f,
                ),
            forall|f: int|
                final(self).tables().contains(f) && !old(self).tables().contains(f) ==> on_walk(
                    final(mem),
                    old(self).root(),
                    page@,
                    f,
                ),
            old(self).permissive(old(mem)) ==> final(self).permissive(final(mem)),
            final(self).passes_or_kept(old(self), final(mem), old(mem)),
            final(self).keeps(old(self)),
            match r {
                Ok(t) => table1(final(mem), final(self).root(), page@) == Some(t@),
                Err(_) => final(alloc).free_frames() == Set::<int>::empty(),
            },
            at_most_taken(old(alloc).free_frames(), final(alloc).free_frames(), 3),
            old(alloc).free_frames().finite() && old(alloc).free_frames().len() >= 3 ==> r is Ok,
    {
        let pml4e_idx = get_page_index_4(page);
        let pdpe_idx = get_page_index_3(page);
        let pde_idx = get_page_index_2(page);
        let root = self.pml4t;
        proof {
            lemma_root(mem, root@, self.nodes@);
        }
        let pdpt = match self.descend(mem, alloc, root, pml4e_idx) {
            Ok(t) => t,
            Err(e) => {
                return Err(e);
            },
        };
        assert(table3(mem, root@, page@) == Some(pdpt@));
        assert(translate(mem, root@, page@) is None);
        let ghost s1 = *self;
        let ghost m1 = *mem;
        let made = self.descend(mem, alloc, pdpt, pdpe_idx);
        proof {
            self.lemma_passes_or_kept(&s1, old(self), mem, &m1, old(mem));
        }
        let pdt = match made {
            Ok(t) => t,
            Err(e) => {
                proof {
                    assert(self.tables() =~= old(self).tables().union(
                        old(alloc).free_frames().difference(alloc.free_frames()),
                    ));
                }
                return Err(e);
            },
        };
        assert(table2(mem, root@, page@) == Some(pdt@));
        assert(translate(mem, root@, page@) is None);
        proof {
            assert(self.tables() =~= old(self).tables().union(
                old(alloc).free_frames().difference(alloc.free_frames()),
            ));
        }
        let ghost s2 = *self;
        let ghost m2 = *mem;
        let made = self.descend(mem, alloc, pdt, pde_idx);
        proof {
            self.lemma_passes_or_kept(&s2, old(self), mem, &m2, old(mem));
        }
        let pt = match made {
            Ok(t) => t,
            Err(e) => {
                proof {
                    assert(self.tables() =~= old(self).tables().union(
                        old(alloc).free_frames().difference(alloc.free_frames()),
                    ));
                }
                return Err(e);
            },
        };
        assert(table1(mem, root@, page@) == Some(pt@));
        proof {
            assert(self.tables() =~= old(self).tables().union(
                old(alloc).free_frames().difference(alloc.free_frames()),
            ));
        }
        Ok(pt)
    }

    /// What `page` translates to once the run of `count` pages from `begin`
    /// on has been mapped to the frames from `phys` on with `flags`, if it
    /// translated to `before` until then.
    pub open spec fn mapped(
        begin: int,
        count: int,
        phys: int,
        flags: PageFlags,
        before: Option<Translation>,
        page: int,
    ) -> Option<Translation> {
        if touches(begin, count, page) {
            Some(Translation { frame: phys + distance(begin, page), flags, level: 1 })
        } else {
            before
        }
    }

    /// Whether the tree translates as `before` did, but for the first
    /// `count` pages of `region`, which translate to the region's frames
    /// with the permissions `flags`.
    pub open spec fn mapped_through<M: TableMemory>(
        &self,
        before: &PageTable,
        mem: &M,
        mem_before: &M,
        region: MappingRegion,
        flags: PageFlags,
        count: int,
    ) -> bool {
        forall|q: int|
            0 <= q <= u64::MAX ==> #[trigger] self.translate(mem, q) == Self::mapped(
                region.virt_begin@,
                count,
                region.phys_begin@,
                flags,
                before.translate(mem_before, q),
                q,
            )
    }

    /// Whether table `f` stands on the walk for a page of `region`.
    pub open spec fn made_for<M: TableMemory>(
        mem: &M,
        root: int,
        region: MappingRegion,
        f: int,
    ) -> bool {
        exists|q: int| region.contains(q) && #[trigger] on_walk(mem, root, q, f)
    }

    /// Maps the pages of `region` to its frames, in order, with the
    /// permissions `flags`. Tables that are missing on the way are made from
    /// frames of `alloc`, behind entries that let writes and user mode
    /// through, and no other table is made; one table of leaves is filled
    /// entry after entry before the next is looked up.
    ///
    /// The pages must not translate yet, the run must be short enough for
    /// translation to tell its pages apart, and the frames must fit an entry.
    /// Fails only when `alloc` has no frame left for a table; then the first
    /// pages of the region, up to the one whose tables were missing, are
    /// mapped. It does not fail where `alloc` has as many frames as the
    /// pages can need tables at most. Pages outside the region translate as
    /// before in either case.
    pub fn map<M: TableMemory, A: FrameAllocator>(
        &mut self,
        mem: &mut M,
        alloc: &mut A,
        region: &MappingRegion,
        flags: PageFlags,
    ) -> (r: Result<(), FrameAllocError>)
        requires
            old(self).wf(old(mem)),
            old(alloc).wf(),
            backs(old(alloc), old(mem)),
            old(self).tables().disjoint(old(alloc).free_frames()),
            region.num <= 0x10_0000_0000,
            region.virt_begin@ + region.num <= u64::MAX,
            region.phys_begin@ + region.num <= FRAME_LIMIT,
            old(self).unmapped(old(mem), region.virt_begin@, region.num as int),
        ensures
            final(self).wf(final(mem)),
            final(alloc).wf(),
            backs(final(alloc), final(mem)),
            final(self).tables().disjoint(final(alloc).free_frames()),
            final(self).grown_from(
                old(self),
                final(mem),
                old(mem),
                final(alloc).free_frames(),
                old(alloc).free_frames(),
            ),
            forall|q: int|
                0 <= q <= u64::MAX && !touches(region.virt_begin@, region.num as int, q)
                    ==> #[trigger] final(self).translate(final(mem), q) == old(self).translate(
                    old(mem),
                    q,
                ),
            match r {
                Ok(_) => {
                    &&& forall|q: int|
                        0 <= q <= u64::MAX ==> #[trigger] final(self).translate(final(mem), q)
                            == Self::mapped(
                            region.virt_begin@,
                            region.num as int,
                            region.phys_begin@,
                            flags,
                            old(self).translate(old(mem), q),
                            q,
                        )
                    &&& forall|q: int|
                        region.contains(q) ==> #[trigger] final(self).translate(final(mem), q)
                            == Some(Translation { frame: region.frame_for(q), flags, level: 1 })
                },
                Err(_) => {
                    &&& final(alloc).free_frames() == Set::<int>::empty()
                    &&& exists|k: int|
                        0 <= k < region.num && #[trigger] final(self).mapped_through(
                            old(self),
                            final(mem),
                            old(mem),
                            *region,
                            flags,
                            k,
                        )
                },
            },
            at_most_taken(
                old(alloc).free_frames(),
                final(alloc).free_frames(),
                tables_for(region.num as int),
            ),
            old(alloc).free_frames().finite() && old(alloc).free_frames().len() >= tables_for(
                region.num as int,
            ) ==> r is Ok,
            forall|f: int|
                final(self).tables().contains(f) && !old(self).tables().contains(f)
                    ==> Self::made_for(final(mem), old(self).root(), *region, f),
            old(self).permissive(old(mem)) ==> final(self).permissive(final(mem)),
            old(self).permissive(old(mem)) && r is Ok ==> forall|q: int|
                region.contains(q) ==> #[trigger] walk_passes(final(mem), old(self).root(), q),
            r is Ok ==> forall|q: int|
                region.contains(q) ==> #[trigger] walk_passes_or_kept(
                    final(mem),
                    old(mem),
                    old(self).root(),
                    q,
                ),
            r is Ok ==> final(self).tables() == old(self).tables().union(
                Set::new(|f: int| Self::made_for(final(mem), old(self).root(), *region, f)),
            ),
    {
        let num: u64 = region.num;
        let ghost begin = region.virt_begin@;
        let ghost phys = region.phys_begin@;
        let ghost root = self.pml4t@;
        let ghost origin = |q: int| translate(old(mem), root, q);
        let mut done: u64 = 0;
        let ghost mut batches: int = 0;
        proof {
            assert(self.tables() =~= old(self).tables().union(
                old(alloc).free_frames().difference(alloc.free_frames()),
            ));
            assert forall|q: int| begin <= q < begin + num implies (#[trigger] origin(q)) is None by {
                assert(old(self).translate(old(mem), q) is None);
            }
            assert forall|q: int| 0 <= q <= u64::MAX implies #[trigger] translate(mem, root, q)
                == Self::mapped(begin, 0, phys, flags, origin(q), q) by {
                lemma_touches(begin, 0, q);
            }
        }
        while done < num
            invariant
                begin == region.virt_begin@,
                phys == region.phys_begin@,
                num == region.num,
                num <= 0x10_0000_0000,
                begin + num <= u64::MAX,
                phys + num <= FRAME_LIMIT,
                done <= num,
                root == self.pml4t@,
                self.wf(mem),
                alloc.wf(),
                backs(alloc, mem),
                self.tables().disjoint(alloc.free_frames()),
                self.grown_from(
                    old(self),
                    mem,
                    old(mem),
                    alloc.free_frames(),
                    old(alloc).free_frames(),
                ),
                forall|q: int| begin <= q < begin + num ==> (#[trigger] origin(q)) is None,
                forall|q: int| #[trigger] origin(q) == translate(old(mem), root, q),
                forall|q: int|
                    0 <= q <= u64::MAX ==> #[trigger] translate(mem, root, q) == Self::mapped(
                        begin,
                        done as int,
                        phys,
                        flags,
                        origin(q),
                        q,
                    ),
                forall|f: int|
                    self.tables().contains(f) && !old(self).tables().contains(f)
                        ==> Self::made_for(mem, root, *region, f),
                old(self).permissive(old(mem)) ==> self.permissive(mem),
                self.passes_or_kept(old(self), mem, old(mem)),
                self.keeps(old(self)),
                0 <= batches <= num / 512 + 2,
                done < num ==> (batches == 0 && done == 0) || (batches >= 1 && done >= 512 * (
                batches - 1) + 1 && (begin + done) % 512 == 0),
                at_most_taken(old(alloc).free_frames(), alloc.free_frames(), 3 * batches),
            decreases num - done,
        {
            let first = Page::new(region.virt_begin.0 + done);
            let ghost free0 = alloc.free_frames();
            proof {
                assert(batches + 1 <= num / 512 + 2);
            }
            proof {
                lemma_touches(begin, done as int, first@);
                assert(origin(first@) is None);
                assert(translate(mem, root, first@) is None);
            }
            let ghost m0 = *mem;
            let ghost s0 = *self;
            let pt = match self.leaf_table(mem, alloc, first) {
                Ok(t) => t,
                Err(e) => {
                    proof {
                        self.lemma_passes_or_kept(&s0, old(self), mem, &m0, old(mem));
                        Self::lemma_made_for(self, &s0, old(self), mem, &m0, *region, first@);
                        assert(self.tables() =~= old(self).tables().union(
                            old(alloc).free_frames().difference(alloc.free_frames()),
                        ));
                        assert forall|q: int| 0 <= q <= u64::MAX implies (#[trigger] self.translate(
                            mem,
                            q,
                        )) == Self::mapped(
                            begin,
                            done as int,
                            phys,
                            flags,
                            old(self).translate(old(mem), q),
                            q,
                        ) by {
                            assert(self.translate(mem, q) == s0.translate(&m0, q));
                            assert(translate(&m0, root, q) == Self::mapped(
                                begin,
                                done as int,
                                phys,
                                flags,
                                origin(q),
                                q,
                            ));
                        }
                        assert(self.mapped_through(
                            old(self),
                            mem,
                            old(mem),
                            *region,
                            flags,
                            done as int,
                        ));
                    }
                    return Err(e);
                },
            };
            proof {
                self.lemma_passes_or_kept(&s0, old(self), mem, &m0, old(mem));
                Self::lemma_made_for(self, &s0, old(self), mem, &m0, *region, first@);
                assert(self.tables() =~= old(self).tables().union(
                    old(alloc).free_frames().difference(alloc.free_frames()),
                ));
                lemma_walk(mem, root, self.nodes@, first@);
                assert forall|q: int| 0 <= q <= u64::MAX implies #[trigger] translate(mem, root, q)
                    == Self::mapped(begin, done as int, phys, flags, origin(q), q) by {
                    assert(self.translate(mem, q) == s0.translate(&m0, q));
                    assert(translate(&m0, root, q) == Self::mapped(
                        begin,
                        done as int,
                        phys,
                        flags,
                        origin(q),
                        q,
                    ));
                }
            }
            let ghost start = done;
            let ghost m1 = *mem;
            done = self.fill_leaves(mem, pt, region, done, flags, Ghost(origin));
            proof {
                self.lemma_passes_or_kept(&*self, old(self), mem, &m1, old(mem));
                assert forall|f: int|
                    self.tables().contains(f) && !old(self).tables().contains(
                        f,
                    ) implies Self::made_for(mem, root, *region, f) by {
                    let q = choose|q: int| region.contains(q) && #[trigger] on_walk(&m1, root, q, f);
                    assert(on_walk(mem, root, q, f));
                }
                batches = batches + 1;
                assert(at_most_taken(old(alloc).free_frames(), alloc.free_frames(), 3 * batches));
            }
        }
        proof {
            assert forall|q: int| region.contains(q) implies #[trigger] self.translate(mem, q)
                == Some(Translation { frame: region.frame_for(q), flags, level: 1 }) by {
                lemma_touches(begin, q - begin, q);
            }
            assert(self.tables() =~= old(self).tables().union(
                Set::new(|f: int| Self::made_for(mem, root, *region, f)),
            )) by {
                assert forall|f: int| Self::made_for(mem, root, *region, f) implies self.tables().contains(
                    f,
                ) by {
                    let q = choose|q: int| region.contains(q) && #[trigger] on_walk(mem, root, q, f);
                    self.lemma_on_walk(mem, q, f);
                }
            }
            assert forall|q: int| region.contains(q) implies #[trigger] walk_passes_or_kept(
                mem,
                old(mem),
                root,
                q,
            ) by {
                assert(self.translate(mem, q) matches Some(t) && t.level == 1);
                self.lemma_walk_kept(old(self), mem, old(mem), q);
            }
            if old(self).permissive(old(mem)) {
                assert forall|q: int| region.contains(q) implies #[trigger] walk_passes(
                    mem,
                    root,
                    q,
                ) by {
                    assert(self.translate(mem, q) matches Some(t) && t.level == 1);
                    self.lemma_walk_passes(mem, q);
                }
            }
        }
        Ok(())
    }

    /// Tables made for a page of `region` while the tree grew from `mid` to
    /// `now`, and tables made for the region before that, all stand on the
    /// walk for a page of the region.
    proof fn lemma_made_for<M: TableMemory>(
        now: &PageTable,
        mid: &PageTable,
        first: &PageTable,
        mem: &M,
        mem_mid: &M,
        region: MappingRegion,
        page: int,
    )
        requires
            region.contains(page),
            forall|q: int, f: int| #[trigger]
                on_walk(mem_mid, mid.root(), q, f) ==> on_walk(mem, mid.root(), q, f),
            forall|f: int|
                now.tables().contains(f) && !mid.tables().contains(f) ==> on_walk(
                    mem,
                    mid.root(),
                    page,
                    f,
                ),
            forall|f: int|
                mid.tables().contains(f) && !first.tables().contains(f) ==> Self::made_for(
                    mem_mid,
                    mid.root(),
                    region,
                    f,
                ),
        ensures
            forall|f: int|
                now.tables().contains(f) && !first.tables().contains(f) ==> Self::made_for(
                    mem,
                    mid.root(),
                    region,
                    f,
                ),
    {
        assert forall|f: int|
            now.tables().contains(f) && !first.tables().contains(f) implies Self::made_for(
            mem,
            mid.root(),
            region,
            f,
        ) by {
            if mid.tables().contains(f) {
                let q = choose|q: int|
                    region.contains(q) && #[trigger] on_walk(mem_mid, mid.root(), q, f);
                assert(on_walk(mem, mid.root(), q, f));
            } else {
                assert(on_walk(mem, mid.root(), page, f));
            }
        }
    }

    /// Fills the level-one table `pt` with the pages of `region` from the
    /// `start`-th on, up to the end of the region or of the table, and
    /// returns the number of pages of the region that are mapped then.
    fn fill_leaves<M: TableMemory>(
        &self,
        mem: &mut M,
        pt: Frame,
        region: &MappingRegion,
        start: u64,
        flags: PageFlags,
        origin: Ghost<spec_fn(int) -> Option<Translation>>,
    ) -> (done: u64)
        requires
            self.wf(old(mem)),
            self.nodes@.dom().contains(pt@),
            start < region.num <= 0x10_0000_0000,
            region.virt_begin@ + region.num <= u64::MAX,
            region.phys_begin@ + region.num <= FRAME_LIMIT,
            table1(old(mem), self.root(), region.virt_begin@ + start) == Some(pt@),
            forall|q: int|
                0 <= q <= u64::MAX ==> #[trigger] translate(old(mem), self.root(), q)
                    == Self::mapped(
                    region.virt_begin@,
                    start as int,
                    region.phys_begin@,
                    flags,
                    origin@(q),
                    q,
                ),
        ensures
            self.wf(final(mem)),
            start < done <= region.num,
            done == region.num || (region.virt_begin@ + done) % 512 == 0,
            (region.virt_begin@ + start) % 512 == 0 && done < region.num ==> done == start
                + 512,
            forall|f: int| final(mem).holds(f) == old(mem).holds(f),
            forall|f: int, i: int| f != pt@ ==> #[trigger] final(mem).word(f, i) == old(mem).word(f, i),
            forall|q: int, f: int| #[trigger]
                on_walk(old(mem), self.root(), q, f) ==> on_walk(final(mem), self.root(), q, f),
            self.permissive(old(mem)) ==> self.permissive(final(mem)),
            self.passes_or_kept(self, final(mem), old(mem)),
            forall|q: int|
                0 <= q <= u64::MAX ==> #[trigger] translate(final(mem), self.root(), q)
                    == Self::mapped(
                    region.virt_begin@,
                    done as int,
                    region.phys_begin@,
                    flags,
                    origin@(q),
                    q,
                ),
    {
        let begin: u64 = region.virt_begin.0;
        let phys: u64 = region.phys_begin.0;
        let num: u64 = region.num;
        let first = Page::new(begin + start);
        let pde_idx = get_page_index_2(first);
        let ghost root = self.pml4t@;
        let mut done: u64 = start;
        proof {
            lemma_walk(mem, root, self.nodes@, first@);
        }
        while done < num && get_page_index_2(Page::new(begin + done)) == pde_idx
            invariant
                begin == region.virt_begin@,
                phys == region.phys_begin@,
                num == region.num,
                num <= 0x10_0000_0000,
                begin + num <= u64::MAX,
                phys + num <= FRAME_LIMIT,
                start <= done <= num,
                start < num,
                first@ == begin + start,
                pde_idx == index2(first@),
                done > start ==> (begin + done - 1) / 512 == first@ / 512,
                root == self.pml4t@,
                self.wf(mem),
                self.nodes@.dom().contains(pt@),
                table1(mem, root, first@) == Some(pt@),
                forall|f: int| mem.holds(f) == old(mem).holds(f),
                forall|f: int, i: int| f != pt@ ==> #[trigger] mem.word(f, i) == old(mem).word(f, i),
                forall|q: int| #[trigger] table1(mem, root, q) == table1(old(mem), root, q),
                forall|q: int| #[trigger] table2(mem, root, q) == table2(old(mem), root, q),
                forall|q: int| #[trigger] table3(mem, root, q) == table3(old(mem), root, q),
                self.nodes@[pt@].level == 1,
                forall|q: int|
                    0 <= q <= u64::MAX ==> #[trigger] translate(mem, root, q) == Self::mapped(
                        begin as int,
                        done as int,
                        phys as int,
                        flags,
                        origin@(q),
                        q,
                    ),
            decreases num - done,
        {
            let page = Page::new(begin + done);
            let pte_idx = get_page_index_1(page);
            let ghost m0 = *mem;
            proof {
                if done > start {
                    lemma_next_in_block((begin + done - 1) as u64, first.0);
                }
                lemma_same_block(mem, root, page.0, first.0);
                lemma_table_held(mem, root, self.nodes@, pt@);
            }
            let mut leaf = TableEntry::empty().set_frame(Frame::new(phys + done));
            Self::set_flags(&mut leaf, flags, true);
            mem.write(pt, pte_idx, leaf.0);
            proof {
                lemma_leaf(&m0, mem, root, self.nodes@, pt@, leaf.0, page.0);
                assert(leaf.flags() == flags);
                assert(ends_walk(leaf.0, 1, page@) == Translation {
                    frame: phys + done,
                    flags,
                    level: 1,
                });
                lemma_map_step(
                    origin@,
                    &m0,
                    mem,
                    root,
                    begin as int,
                    done as int,
                    phys as int,
                    flags,
                );
            }
            done += 1;
        }
        done
    }

    /// What `page` translates to once the run of `count` pages from `begin`
    /// on has been unmapped, if it translated to `before` until then: nothing
    /// if the run touches it and it was an ordinary page, and `before`
    /// otherwise. A large page stays.
    pub open spec fn unmapped_from(
        begin: int,
        count: int,
        before: Option<Translation>,
        page: int,
    ) -> Option<Translation> {
        if touches(begin, count, page) && (before matches Some(t) && t.level == 1) {
            None
        } else {
            before
        }
    }

    /// The level-one table that serves `page`, if the walk reaches one.
    fn leaf_table_of<M: TableMemory>(&self, mem: &M, page: Page) -> (r: Option<Frame>)
        requires
            self.wf(mem),
        ensures
            match r {
                Some(t) => table1(mem, self.root(), page@) == Some(t@) && mem.holds(t@)
                    && self.nodes@.dom().contains(t@),
                None => table1(mem, self.root(), page@) is None,
            },
    {
        proof {
            reveal(tree);
            lemma_walk(mem, self.pml4t@, self.nodes@, page@);
        }
        let pml4e = TableEntry(mem.read(self.pml4t, get_page_index_4(page)));
        if !pml4e.get_present() {
            return None;
        }
        let pdpe = TableEntry(mem.read(pml4e.get_frame(), get_page_index_3(page)));
        if !pdpe.get_present() || pdpe.get_huge() {
            return None;
        }
        let pde = TableEntry(mem.read(pdpe.get_frame(), get_page_index_2(page)));
        if !pde.get_present() || pde.get_huge() {
            return None;
        }
        Some(pde.get_frame())
    }

    /// Unmaps the pages of `region`: the level-one entry of each, where the
    /// walk reaches one, is emptied. Tables that are left without an entry
    /// stay in the tree, and a large page stays mapped.
    pub fn unmap<M: TableMemory>(&self, mem: &mut M, region: &PageRegion)
        requires
            self.wf(old(mem)),
            region.begin@ + region.num <= u64::MAX,
        ensures
            self.wf(final(mem)),
            self.permissive(old(mem)) ==> self.permissive(final(mem)),
            forall|f: int| final(mem).holds(f) == old(mem).holds(f),
            forall|f: int, i: int|
                !self.tables().contains(f) ==> #[trigger] final(mem).word(f, i) == old(mem).word(
                    f,
                    i,
                ),
            forall|q: int|
                0 <= q <= u64::MAX ==> #[trigger] self.translate(final(mem), q)
                    == Self::unmapped_from(
                    region.begin@,
                    region.num as int,
                    self.translate(old(mem), q),
                    q,
                ),
            forall|q: int|
                region.contains(q) && (self.translate(old(mem), q) matches Some(t) ==> t.level == 1)
                    ==> (#[trigger] self.translate(final(mem), q)) is None,
    {
        let num: u64 = region.num;
        let ghost begin = region.begin@;
        let ghost root = self.pml4t@;
        let ghost origin = |q: int| translate(old(mem), root, q);
        let mut done: u64 = 0;
        proof {
            assert forall|q: int| 0 <= q <= u64::MAX implies #[trigger] translate(mem, root, q)
                == Self::unmapped_from(begin, 0, origin(q), q) by {
                lemma_touches_next(begin, 0, q);
            }
        }
        while done < num
            invariant
                begin == region.begin@,
                num == region.num,
                begin + num <= u64::MAX,
                done <= num,
                root == self.pml4t@,
                self.wf(mem),
                self.permissive(old(mem)) ==> self.permissive(mem),
                forall|f: int| mem.holds(f) == old(mem).holds(f),
                forall|f: int, i: int|
                    !self.tables().contains(f) ==> #[trigger] mem.word(f, i) == old(mem).word(f, i),
                forall|q: int| #[trigger] origin(q) == translate(old(mem), root, q),
                forall|q: int|
                    0 <= q <= u64::MAX ==> #[trigger] translate(mem, root, q)
                        == Self::unmapped_from(begin, done as int, origin(q), q),
            decreases num - done,
        {
            let page = Page::new(region.begin.0 + done);
            let ghost m0 = *mem;
            match self.leaf_table_of(mem, page) {
                Some(pt) => {
                    mem.write(pt, get_page_index_1(page), TableEntry::empty().0);
                    proof {
                        lemma_walk(&m0, root, self.nodes@, page@);
                        lemma_leaf(&m0, mem, root, self.nodes@, pt@, 0, page.0);
                        lemma_unmap_step(origin, &m0, mem, root, begin, done as int, true);
                    }
                },
                None => {
                    proof {
                        lemma_unmap_step(origin, &m0, mem, root, begin, done as int, false);
                    }
                },
            }
            done += 1;
        }
        proof {
            assert forall|q: int|
                region.contains(q) && (self.translate(old(mem), q) matches Some(t) ==> t.level
                    == 1) implies (#[trigger] self.translate(mem, q)) is None by {
                if q - begin < 0x10_0000_0000 {
                    lemma_touches(begin, q - begin, q);
                } else {
                    lemma_touches(begin, 0, q);
                }
            }
        }
    }

    /// Whether a release of the tree's tables has stopped at a table whose
    /// frame `alloc` would not take back.
    pub open spec fn refused<A: FrameAllocator>(&self, alloc: &A) -> bool {
        exists|f: int|
            #![trigger self.tables().contains(f)]
            self.tables().contains(f) && !alloc.free_frames().contains(f) && !alloc.can_free(
                single(f),
            )
    }

    /// Whether a release of the tree stopped at a table that an allocator
    /// of the kind `A` refused, in some valid state while the free frames
    /// went from `before` to `after`.
    pub open spec fn refused_between<A: FrameAllocator>(
        &self,
        before: Set<int>,
        after: Set<int>,
    ) -> bool {
        exists|a: A|
            #![trigger self.refused(&a)]
            a.wf() && before.subset_of(a.free_frames()) && a.free_frames().subset_of(after)
                && self.refused(&a)
    }

    /// A refusal on the way stays one while more frames become free.
    pub proof fn lemma_still_refused<A: FrameAllocator>(
        &self,
        before: Set<int>,
        between: Set<int>,
        after: Set<int>,
    )
        requires
            self.refused_between::<A>(before, between),
            between.subset_of(after),
        ensures
            self.refused_between::<A>(before, after),
    {
        let a = choose|a: A|
            #![trigger self.refused(&a)]
            a.wf() && before.subset_of(a.free_frames()) && a.free_frames().subset_of(between)
                && self.refused(&a);
        assert(a.free_frames().subset_of(after));
        assert(self.refused(&a));
    }

    /// Whether the tree was taken down, as far as an allocator of the kind
    /// `A` took its tables, while the free frames went from `before` to
    /// `after`: all its tables are free in the end, or the release stopped in
    /// some valid state on the way at a table that the allocator refused.
    pub open spec fn released_or_refused<A: FrameAllocator>(
        &self,
        before: Set<int>,
        after: Set<int>,
    ) -> bool {
        self.tables().subset_of(after) || self.refused_between::<A>(before, after)
    }

    /// A tree that was taken down or refused stays so while more frames
    /// become free.
    pub proof fn lemma_still_released<A: FrameAllocator>(
        &self,
        before: Set<int>,
        between: Set<int>,
        after: Set<int>,
    )
        requires
            self.released_or_refused::<A>(before, between),
            between.subset_of(after),
        ensures
            self.released_or_refused::<A>(before, after),
    {
        if !self.tables().subset_of(between) {
            self.lemma_still_refused::<A>(before, between, after);
        }
    }

    /// Gives the frame of table `c` back to `alloc`.
    fn release_table<A: FrameAllocator>(&self, alloc: &mut A, c: Frame) -> (r: Result<
        (),
        FrameFreeError,
    >)
        requires
            old(alloc).wf(),
            self.nodes@.dom().contains(c@),
            !old(alloc).free_frames().contains(c@),
        ensures
            final(alloc).wf(),
            match r {
                Ok(_) => final(alloc).free_frames() == old(alloc).free_frames().insert(c@),
                Err(_) => final(alloc).free_frames() == old(alloc).free_frames() && self.refused(
                    final(alloc),
                ),
            },
    {
        let region = FrameRegion::new(c, 1);
        assert(region == single(c@));
        match alloc.free(&region) {
            Ok(()) => {
                proof {
                    assert(region.frames() =~= set![c@]);
                    assert(alloc.free_frames() =~= old(alloc).free_frames().insert(c@));
                }
                Ok(())
            },
            Err(e) => {
                proof {
                    assert(self.tables().contains(c@));
                }
                Err(e)
            },
        }
    }

    /// Gives back the frames of the tables below table `t`, deepest first.
    fn release_below<M: TableMemory, A: FrameAllocator>(
        &self,
        mem: &M,
        alloc: &mut A,
        t: Frame,
        level: u8,
    ) -> (r: Result<(), FrameFreeError>)
        requires
            self.wf(mem),
            old(alloc).wf(),
            self.nodes@.dom().contains(t@),
            self.nodes@[t@].level == level,
            2 <= level <= 4,
            forall|f: int| #[trigger] under(self.nodes@, t@, f) ==> !old(alloc).free_frames().contains(f),
        ensures
            final(alloc).wf(),
            old(alloc).free_frames().subset_of(final(alloc).free_frames()),
            final(alloc).free_frames().subset_of(
                old(alloc).free_frames().union(subtree(self.nodes@, t@, 512)),
            ),
            match r {
                Ok(_) => final(alloc).free_frames() == old(alloc).free_frames().union(
                    subtree(self.nodes@, t@, 512),
                ),
                Err(_) => self.refused(final(alloc)),
            },
        decreases level,
    {
        let ghost root = self.pml4t@;
        let ghost nodes = self.nodes@;
        let mut i: usize = 0;
        proof {
            lemma_table_held(mem, root, nodes, t@);
            assert(subtree(nodes, t@, 0) =~= Set::<int>::empty());
            assert(alloc.free_frames() =~= old(alloc).free_frames().union(subtree(nodes, t@, 0)));
        }
        while i < 512
            invariant
                i <= 512,
                root == self.pml4t@,
                nodes == self.nodes@,
                self.wf(mem),
                alloc.wf(),
                mem.holds(t@),
                nodes.dom().contains(t@),
                nodes[t@].level == level,
                2 <= level <= 4,
                forall|f: int| #[trigger]
                    under(nodes, t@, f) ==> !old(alloc).free_frames().contains(f),
                alloc.free_frames() == old(alloc).free_frames().union(
                    subtree(nodes, t@, i as int),
                ),
            decreases 512 - i,
        {
            let entry = TableEntry(mem.read(t, i));
            proof {
                lemma_subtree_step(mem, root, nodes, t@, i as int);
            }
            if entry.get_present() && (level == 4 || !entry.get_huge()) {
                let c = entry.get_frame();
                let ghost before = alloc.free_frames();
                proof {
                    assert(subtree(nodes, t@, i + 1).contains(c@));
                    assert(under(nodes, t@, c@));
                    assert(subtree(nodes, t@, i + 1).subset_of(subtree(nodes, t@, 512)));
                }
                if level > 2 {
                    match self.release_below(mem, alloc, c, level - 1) {
                        Ok(()) => {},
                        Err(e) => {
                            return Err(e);
                        },
                    }
                }
                proof {
                    assert(alloc.free_frames() =~= before.union(subtree(nodes, c@, 512)));
                }
                match self.release_table(alloc, c) {
                    Ok(()) => {},
                    Err(e) => {
                        return Err(e);
                    },
                }
                proof {
                    assert(alloc.free_frames() =~= old(alloc).free_frames().union(
                        subtree(nodes, t@, i + 1),
                    ));
                }
            }
            i += 1;
        }
        Ok(())
    }

    /// Takes the tree down: gives the frame of every table back to `alloc`,
    /// the tables below the root first and deepest first, the root last. The
    /// frames that the leaves point to, large pages among them, are not
    /// touched: they belong to whoever mapped them.
    ///
    /// Fails only where `alloc` refuses a frame; what was given back until
    /// then stays free.
    pub fn release<M: TableMemory, A: FrameAllocator>(self, mem: &M, alloc: &mut A) -> (r: Result<
        (),
        FrameFreeError,
    >)
        requires
            self.wf(mem),
            old(alloc).wf(),
            self.tables().disjoint(old(alloc).free_frames()),
        ensures
            final(alloc).wf(),
            old(alloc).free_frames().subset_of(final(alloc).free_frames()),
            final(alloc).free_frames().subset_of(old(alloc).free_frames().union(self.tables())),
            match r {
                Ok(_) => final(alloc).free_frames() == old(alloc).free_frames().union(
                    self.tables(),
                ),
                Err(_) => self.refused(final(alloc)) && !final(alloc).free_frames().contains(
                    self.root(),
                ),
            },
    {
        let root = self.pml4t;
        proof {
            lemma_root(mem, root@, self.nodes@);
            lemma_root_subtree(mem, root@, self.nodes@);
        }
        match self.release_below(mem, alloc, root, 4) {
            Ok(()) => {},
            Err(e) => {
                return Err(e);
            },
        }
        match self.release_table(alloc, root) {
            Ok(()) => {
                proof {
                    assert(alloc.free_frames() =~= old(alloc).free_frames().union(self.tables()));
                }
                Ok(())
            },
            Err(e) => Err(e),
        }
    }

    /// Whether the pages of `region` translate to its frames, in order,
    /// with the permissions `flags`.
    pub open spec fn maps<M: TableMemory>(
        &self,
        mem: &M,
        region: MappingRegion,
        flags: PageFlags,
    ) -> bool {
        &&& region.virt_begin@ + region.num <= u64::MAX
        &&& forall|q: int|
            region.contains(q) ==> #[trigger] self.translate(mem, q) == Some(
                Translation { frame: region.frame_for(q), flags, level: 1 },
            )
    }

    /// Whether none of the `count` pages from `begin` on translates.
    pub fn is_unmapped<M: TableMemory>(&self, mem: &M, begin: Page, count: u64) -> (r: bool)
        requires
            self.wf(mem),
            begin@ + count <= u64::MAX,
        ensures
            r == self.unmapped(mem, begin@, count as int),
    {
        let mut done: u64 = 0;
        while done < count
            invariant
                done <= count,
                begin@ + count <= u64::MAX,
                self.wf(mem),
                forall|page: int|
                    begin@ <= page < begin@ + done ==> (#[trigger] self.translate(mem, page))
                        is None,
            decreases count - done,
        {
            proof {
                self.lemma_walk_held(mem, begin@ + done);
            }
            if self.resolve(mem, Page::new(begin.0 + done)).is_some() {
                return false;
            }
            done += 1;
        }
        true
    }

    /// Whether every page that translated in an earlier state translates to
    /// the same now.
    pub open spec fn extends<M: TableMemory>(
        &self,
        before: &PageTable,
        mem: &M,
        mem_before: &M,
    ) -> bool {
        forall|q: int|
            0 <= q <= u64::MAX && before.translate(mem_before, q) is Some
                ==> #[trigger] self.translate(mem, q) == before.translate(mem_before, q)
    }

    /// Pages that translate are not touched by a run of pages that do not.
    pub proof fn lemma_untouched<M: TableMemory>(&self, mem: &M, begin: int, count: int, q: int)
        requires
            self.unmapped(mem, begin, count),
            0 <= begin,
            0 <= count <= 0x10_0000_0000,
            begin + count <= u64::MAX,
            0 <= q <= u64::MAX,
            self.translate(mem, q) is Some,
        ensures
            !touches(begin, count, q),
    {
        if touches(begin, count, q) {
            lemma_touches(begin, 0, q);
            let k = distance(begin, q);
            lemma_touches(begin, k, q);
            lemma_alias(mem, self.root(), q as u64, (begin + k) as u64);
            assert(self.translate(mem, begin + k) is None);
        }
    }

    /// A tree does not depend on memory outside its tables: where every
    /// word of its tables is the same in two memories, it is valid in both
    /// and translates alike in both.
    pub proof fn lemma_stable<M: TableMemory>(&self, mem: &M, other: &M)
        requires
            self.wf(mem),
            forall|f: int| self.tables().contains(f) ==> other.holds(f),
            forall|f: int, i: int|
                self.tables().contains(f) ==> #[trigger] other.word(f, i) == mem.word(f, i),
        ensures
            self.wf(other),
            forall|q: int| #[trigger] self.translate(other, q) == self.translate(mem, q),
    {
        reveal(tree);
        let nodes = self.nodes@;
        let root = self.pml4t@;
        assert forall|f: int| #[trigger] nodes.dom().contains(f) implies node_ok(
            other,
            root,
            nodes,
            f,
        ) by {
            assert(node_ok(mem, root, nodes, f));
        }
        assert forall|f: int, i: int|
            nodes.dom().contains(f) && 0 <= i < 512 && nodes[f].level >= 2 && links(
                #[trigger] other.word(f, i),
                nodes[f].level,
            ) implies child_ok(nodes, f, i, TableEntry(other.word(f, i)).frame()) by {
            assert(child_ok(nodes, f, i, TableEntry(mem.word(f, i)).frame()));
        }
        assert(tree(other, root, nodes));
        assert forall|q: int| #[trigger] self.translate(other, q) == self.translate(mem, q) by {
            lemma_walk(mem, root, nodes, q);
        }
    }

    /// A mapping that stood in an earlier state stands in one that extends
    /// it.
    pub proof fn lemma_extended_maps<M: TableMemory>(
        &self,
        before: &PageTable,
        mem: &M,
        mem_before: &M,
        region: MappingRegion,
        flags: PageFlags,
    )
        requires
            self.extends(before, mem, mem_before),
            before.maps(mem_before, region, flags),
        ensures
            self.maps(mem, region, flags),
    {
        assert forall|q: int| region.contains(q) implies #[trigger] self.translate(mem, q) == Some(
            Translation { frame: region.frame_for(q), flags, level: 1 },
        ) by {
            assert(before.translate(mem_before, q) is Some);
        }
    }

    /// Whether `region` can be mapped at all: translation can tell its pages
    /// apart, they lie inside the address space, and its frames fit an entry.
    pub open spec fn mappable(region: MappingRegion) -> bool {
        &&& region.num <= 0x10_0000_0000
        &&& region.virt_begin@ + region.num <= u64::MAX
        &&& region.phys_begin@ + region.num <= FRAME_LIMIT
    }

    /// Maps `region` as `map` does, after testing what `map` requires of the
    /// region. A region that cannot be mapped, or one with a page that
    /// translates already, is refused with nothing changed. Any other region
    /// is mapped if `alloc` has as many frames as its pages can need tables
    /// at most.
    pub fn try_map<M: TableMemory, A: FrameAllocator>(
        &mut self,
        mem: &mut M,
        alloc: &mut A,
        region: &MappingRegion,
        flags: PageFlags,
    ) -> (r: Result<(), MapError>)
        requires
            old(self).wf(old(mem)),
            old(alloc).wf(),
            backs(old(alloc), old(mem)),
            old(self).tables().disjoint(old(alloc).free_frames()),
        ensures
            final(self).wf(final(mem)),
            final(alloc).wf(),
            backs(final(alloc), final(mem)),
            final(self).tables().disjoint(final(alloc).free_frames()),
            final(self).grown_from(
                old(self),
                final(mem),
                old(mem),
                final(alloc).free_frames(),
                old(alloc).free_frames(),
            ),
            final(self).extends(old(self), final(mem), old(mem)),
            at_most_taken(
                old(alloc).free_frames(),
                final(alloc).free_frames(),
                tables_for(region.num as int),
            ),
            Self::mappable(*region) && old(self).unmapped(
                old(mem),
                region.virt_begin@,
                region.num as int,
            ) && old(alloc).free_frames().finite() && old(alloc).free_frames().len() >= tables_for(
                region.num as int,
            ) ==> r is Ok,
            forall|f: int|
                final(self).tables().contains(f) && !old(self).tables().contains(f)
                    ==> Self::made_for(final(mem), old(self).root(), *region, f),
            old(self).permissive(old(mem)) ==> final(self).permissive(final(mem)),
            old(self).permissive(old(mem)) && r is Ok ==> forall|q: int|
                region.contains(q) ==> #[trigger] walk_passes(final(mem), old(self).root(), q),
            r is Ok ==> forall|q: int|
                region.contains(q) ==> #[trigger] walk_passes_or_kept(
                    final(mem),
                    old(mem),
                    old(self).root(),
                    q,
                ),
            r is Ok ==> final(self).tables() == old(self).tables().union(
                Set::new(|f: int| Self::made_for(final(mem), old(self).root(), *region, f)),
            ),
            r == Err::<(), MapError>(MapError::OutOfRange) <==> !Self::mappable(*region),
            r == Err::<(), MapError>(MapError::Overlap) <==> Self::mappable(*region) && !old(
                self,
            ).unmapped(old(mem), region.virt_begin@, region.num as int),
            match r {
                Ok(_) => {
                    &&& final(self).maps(final(mem), *region, flags)
                    &&& forall|q: int|
                        0 <= q <= u64::MAX && !touches(region.virt_begin@, region.num as int, q)
                            ==> #[trigger] final(self).translate(final(mem), q) == old(
                            self,
                        ).translate(old(mem), q)
                },
                Err(MapError::OutOfFrames) => {
                    &&& final(alloc).free_frames() == Set::<int>::empty()
                    &&& forall|q: int|
                        0 <= q <= u64::MAX && !touches(region.virt_begin@, region.num as int, q)
                            ==> #[trigger] final(self).translate(final(mem), q) == old(
                            self,
                        ).translate(old(mem), q)
                },
                Err(_) => {
                    &&& final(alloc).free_frames() == old(alloc).free_frames()
                    &&& final(self).tables() == old(self).tables()
                    &&& forall|f: int, i: int| #[trigger]
                        final(mem).word(f, i) == old(mem).word(f, i)
                },
            },
    {
        proof {
            assert(self.tables() =~= old(self).tables().union(
                old(alloc).free_frames().difference(alloc.free_frames()),
            ));
        }
        if region.num > 0x10_0000_0000 || region.virt_begin.0 > u64::MAX - region.num
            || region.phys_begin.0 > FRAME_LIMIT - region.num {
            return Err(MapError::OutOfRange);
        }
        if !self.is_unmapped(mem, region.virt_begin, region.num) {
            return Err(MapError::Overlap);
        }
        let r = match self.map(mem, alloc, region, flags) {
            Ok(()) => Ok(()),
            Err(_) => Err(MapError::OutOfFrames),
        };
        proof {
            assert forall|q: int|
                0 <= q <= u64::MAX && old(self).translate(old(mem), q) is Some implies (
            #[trigger] self.translate(mem, q)) == old(self).translate(old(mem), q) by {
                old(self).lemma_untouched(old(mem), region.virt_begin@, region.num as int, q);
            }
        }
        r
    }

    /// A tree that is taken down gives back what it took: if the tables of
    /// the tree are the frames that have left the free pool since some
    /// earlier time, then after a release that gave all tables back the pool
    /// is what it was at that time.
    pub proof fn law_release_restores(
        &self,
        free_at_first: Set<int>,
        free_before: Set<int>,
        free_after: Set<int>,
    )
        requires
            free_before.subset_of(free_at_first),
            self.tables() == free_at_first.difference(free_before),
            free_after == free_before.union(self.tables()),
        ensures
            free_after == free_at_first,
    {
        assert(free_after =~= free_at_first);
    }

    /// Memory holds every table of a valid tree.
    pub proof fn lemma_held<M: TableMemory>(&self, mem: &M)
        requires
            self.wf(mem),
        ensures
            forall|f: int| self.tables().contains(f) ==> mem.holds(f),
    {
        assert forall|f: int| self.tables().contains(f) implies mem.holds(f) by {
            lemma_table_held(mem, self.pml4t@, self.nodes@, f);
        }
    }

    /// The root is a frame index.
    pub proof fn lemma_root_is_frame(&self)
        ensures
            0 <= self.root() <= u64::MAX,
    {
    }
}

/// Whether `nodes` describes a tree under `root` in `mem` of no more than
/// `limit` tables.
pub open spec fn small_tree<M: TableMemory>(
    mem: &M,
    root: int,
    nodes: Map<int, Node>,
    limit: int,
) -> bool {
    tree(mem, root, nodes) && nodes.dom().finite() && nodes.dom().len() <= limit
}

/// Whether the tables under `root` in `mem` form a tree of no more than
/// `limit` tables: memory holds every table that the walk for some page
/// reaches, and no table is reached by two ways.
pub open spec fn forms_tree<M: TableMemory>(mem: &M, root: int, limit: int) -> bool {
    exists|nodes: Map<int, Node>| small_tree(mem, root, nodes, limit)
}

/// Room for the frames of `N` tables, which a walk over a tree notes as it
/// meets them. It is an array, so that the walk needs no heap; how many
/// tables a tree may have is for the one to say who gives the room.
pub struct TableList<const N: usize> {
    frames: [u64; N],
    len: usize,
}

impl<const N: usize> TableList<N> {
    /// The frames of the list, in the order in which they joined it.
    pub closed spec fn frames(&self) -> Seq<u64> {
        self.frames@.subrange(0, self.len as int)
    }

    /// The invariant of the list.
    pub closed spec fn wf(&self) -> bool {
        self.len <= N
    }

    /// The empty list.
    pub fn new() -> (r: Self)
        ensures
            r.wf(),
            r.frames() == Seq::<u64>::empty(),
    {
        let r = Self { frames: [0u64;N], len: 0 };
        assert(r.frames() =~= Seq::<u64>::empty());
        r
    }

    /// Empties the list.
    fn clear(&mut self)
        ensures
            final(self).wf(),
            final(self).frames() == Seq::<u64>::empty(),
    {
        self.len = 0;
        assert(self.frames() =~= Seq::<u64>::empty());
    }

    /// Whether `frame` stands in the list.
    fn contains(&self, frame: u64) -> (r: bool)
        requires
            self.wf(),
        ensures
            r == self.frames().contains(frame),
    {
        let mut k: usize = 0;
        while k < self.len
            invariant
                k <= self.len <= N,
                forall|j: int| 0 <= j < k ==> self.frames()[j] != frame,
            decreases self.len - k,
        {
            if self.frames[k] == frame {
                assert(self.frames()[k as int] == frame);
                return true;
            }
            k += 1;
        }
        false
    }

    /// Puts `frame` at the end of the list, if the list has room for it.
    fn push(&mut self, frame: u64) -> (r: bool)
        requires
            old(self).wf(),
        ensures
            final(self).wf(),
            r == (old(self).frames().len() < N),
            final(self).frames() == if r {
                old(self).frames().push(frame)
            } else {
                old(self).frames()
            },
    {
        if self.len >= N {
            return false;
        }
        self.frames[self.len] = frame;
        self.len += 1;
        assert(self.frames() =~= old(self).frames().push(frame));
        true
    }
}

/// Whether `nodes` describes tables of the tree under `root` as `tree`
/// asks, but that an entry of one of them may lead to a table that `nodes`
/// does not know.
spec fn found<M: TableMemory>(mem: &M, root: int, nodes: Map<int, Node>) -> bool {
    &&& nodes.dom().contains(root)
    &&& nodes[root].level == 4
    &&& nodes[root].prefix == 0
    &&& forall|f: int| #[trigger] nodes.dom().contains(f) ==> node_ok(mem, root, nodes, f)
    &&& forall|f: int, g: int|
        nodes.dom().contains(f) && nodes.dom().contains(g) && (#[trigger] nodes[f]).level == (
        #[trigger] nodes[g]).level && nodes[f].prefix == nodes[g].prefix ==> f == g
}

/// Whether each of the first `upto` entries of table `f` that leads to a
/// table leads to the one that `nodes` places there.
spec fn followed<M: TableMemory>(mem: &M, nodes: Map<int, Node>, f: int, upto: int) -> bool {
    forall|i: int|
        0 <= i < upto && nodes[f].level >= 2 && links(#[trigger] mem.word(f, i), nodes[f].level)
            ==> child_ok(nodes, f, i, TableEntry(mem.word(f, i)).frame())
}

/// Whether `b` knows every table that `a` knows, at the same place.
spec fn within(a: Map<int, Node>, b: Map<int, Node>) -> bool {
    forall|f: int| #[trigger] a.dom().contains(f) ==> b.dom().contains(f) && b[f] == a[f]
}

/// Whether `seen` lists the tables that `nodes` knows.
spec fn listing(seen: Seq<u64>, nodes: Map<int, Node>) -> bool {
    forall|f: int| #[trigger]
        nodes.dom().contains(f) <==> 0 <= f <= u64::MAX && seen.contains(f as u64)
}

/// Tables that are found and all followed form a tree.
proof fn lemma_found_tree<M: TableMemory>(mem: &M, root: int, nodes: Map<int, Node>)
    requires
        found(mem, root, nodes),
        forall|f: int| #[trigger] nodes.dom().contains(f) ==> followed(mem, nodes, f, 512),
    ensures
        tree(mem, root, nodes),
{
    reveal(tree);
    assert forall|f: int, i: int|
        nodes.dom().contains(f) && 0 <= i < 512 && nodes[f].level >= 2 && links(
            #[trigger] mem.word(f, i),
            nodes[f].level,
        ) implies child_ok(nodes, f, i, TableEntry(mem.word(f, i)).frame()) by {
        assert(followed(mem, nodes, f, 512));
    }
}

/// What a table was followed to stays so when more tables are known.
proof fn lemma_still_followed<M: TableMemory>(
    mem: &M,
    a: Map<int, Node>,
    b: Map<int, Node>,
    f: int,
    upto: int,
)
    requires
        within(a, b),
        a.dom().contains(f),
        followed(mem, a, f, upto),
    ensures
        followed(mem, b, f, upto),
{
    assert forall|i: int|
        0 <= i < upto && b[f].level >= 2 && links(
            #[trigger] mem.word(f, i),
            b[f].level,
        ) implies child_ok(b, f, i, TableEntry(mem.word(f, i)).frame()) by {
        let c = TableEntry(mem.word(f, i)).frame();
        assert(child_ok(a, f, i, c));
        assert(a.dom().contains(c));
    }
}

/// Tables that a list lists are no more than the list is long.
proof fn lemma_listed_few(seen: Seq<u64>, nodes: Map<int, Node>)
    requires
        listing(seen, nodes),
    ensures
        nodes.dom().finite(),
        nodes.dom().len() <= seen.len(),
    decreases seen.len(),
{
    if seen.len() == 0 {
        assert(nodes.dom() =~= Set::<int>::empty());
    } else {
        let last = seen.last() as int;
        let rest = nodes.remove(last);
        let front = seen.drop_last();
        let fewer = if front.contains(seen.last()) {
            nodes
        } else {
            rest
        };
        assert forall|f: int| #[trigger]
            fewer.dom().contains(f) <==> 0 <= f <= u64::MAX && front.contains(f as u64) by {
            if 0 <= f <= u64::MAX && front.contains(f as u64) {
                let k = choose|k: int| 0 <= k < front.len() && front[k] == f as u64;
                assert(seen[k] == f as u64);
            }
            if nodes.dom().contains(f) && f != last {
                let k = choose|k: int| 0 <= k < seen.len() && seen[k] == f as u64;
                assert(front[k] == f as u64);
            }
        }
        lemma_listed_few(front, fewer);
        if !front.contains(seen.last()) {
            assert(seen[seen.len() - 1] == seen.last());
            assert(nodes.dom().contains(last));
            assert(nodes.dom() =~= rest.dom().insert(last));
        }
    }
}

/// A full list that lists tables of a tree, and a table of the tree that
/// it does not list, show that the tree has more tables than the list has
/// room for.
proof fn lemma_listed_all(
    seen: Seq<u64>,
    nodes: Map<int, Node>,
    whole: Map<int, Node>,
    c: int,
    limit: int,
)
    requires
        listing(seen, nodes),
        seen.len() >= limit,
        seen.no_duplicates(),
        within(nodes, whole),
        whole.dom().contains(c),
        !nodes.dom().contains(c),
        whole.dom().finite(),
    ensures
        whole.dom().len() > limit,
{
    lemma_listed_many(seen, nodes);
    let more = nodes.dom().insert(c);
    assert(more.subset_of(whole.dom()));
    vstd::set_lib::lemma_len_subset(more, whole.dom());
}

/// Tables that a list lists without repeating one are as many as the list
/// is long.
proof fn lemma_listed_many(seen: Seq<u64>, nodes: Map<int, Node>)
    requires
        listing(seen, nodes),
        seen.no_duplicates(),
    ensures
        nodes.dom().finite(),
        nodes.dom().len() == seen.len(),
    decreases seen.len(),
{
    if seen.len() == 0 {
        assert(nodes.dom() =~= Set::<int>::empty());
    } else {
        let last = seen.last() as int;
        let rest = nodes.remove(last);
        let front = seen.drop_last();
        assert(seen[seen.len() - 1] == seen.last());
        assert forall|f: int| #[trigger]
            rest.dom().contains(f) <==> 0 <= f <= u64::MAX && front.contains(f as u64) by {
            if 0 <= f <= u64::MAX && front.contains(f as u64) {
                let k = choose|k: int| 0 <= k < front.len() && front[k] == f as u64;
                assert(seen[k] == f as u64);
            }
            if nodes.dom().contains(f) && f != last {
                let k = choose|k: int| 0 <= k < seen.len() && seen[k] == f as u64;
                assert(front[k] == f as u64);
            }
        }
        lemma_listed_many(front, rest);
        assert(nodes.dom().contains(last));
        assert(nodes.dom() =~= rest.dom().insert(last));
    }
}

/// The table behind an entry that leads on joins the tables found, if it
/// is in memory and was not found before.
proof fn lemma_found_more<M: TableMemory>(
    mem: &M,
    root: int,
    nodes: Map<int, Node>,
    t: int,
    i: int,
    c: int,
)
    requires
        found(mem, root, nodes),
        nodes.dom().contains(t),
        nodes[t].level >= 2,
        0 <= i < 512,
        links(mem.word(t, i), nodes[t].level),
        c == TableEntry(mem.word(t, i)).frame(),
        !nodes.dom().contains(c),
        mem.holds(c),
    ensures
        found(
            mem,
            root,
            nodes.insert(
                c,
                Node { level: nodes[t].level - 1, prefix: nodes[t].prefix * 512 + i, parent: t },
            ),
        ),
{
    let node = Node { level: nodes[t].level - 1, prefix: nodes[t].prefix * 512 + i, parent: t };
    let after = nodes.insert(c, node);
    assert(node_ok(mem, root, nodes, t));
    lemma_child_place(nodes[t].prefix, i);
    assert forall|f: int| #[trigger] after.dom().contains(f) implies node_ok(
        mem,
        root,
        after,
        f,
    ) by {
        if f != c {
            assert(node_ok(mem, root, nodes, f));
        }
    }
    assert forall|f: int, g: int|
        after.dom().contains(f) && after.dom().contains(g) && (#[trigger] after[f]).level == (
        #[trigger] after[g]).level && after[f].prefix == after[g].prefix implies f == g by {
        if f == c && g != c {
            assert(node_ok(mem, root, nodes, g));
            assert(nodes[nodes[g].parent].prefix == nodes[t].prefix);
            assert(nodes[g].parent == t);
        } else if g == c && f != c {
            assert(node_ok(mem, root, nodes, f));
            assert(nodes[nodes[f].parent].prefix == nodes[t].prefix);
            assert(nodes[f].parent == t);
        } else if f != c && g != c {
            assert(nodes[f].level == nodes[g].level);
        }
    }
}

/// Follows every entry of `table`, a table of level `level` that `nodes`
/// knows and nothing was followed from yet, and every table below it. Stops
/// with `false` at a table that memory does not hold, that was found
/// before, or that `seen` has no room for; then `whole` is no tree of so
/// few tables. Otherwise returns the tables that it knows then.
fn follow<M: TableMemory, const N: usize>(
    mem: &M,
    root: Ghost<int>,
    table: Frame,
    level: u8,
    seen: &mut TableList<N>,
    nodes: Ghost<Map<int, Node>>,
    whole: Ghost<Map<int, Node>>,
) -> (r: (bool, Ghost<Map<int, Node>>))
    requires
        2 <= level <= 4,
        found(mem, root@, nodes@),
        nodes@.dom().contains(table@),
        nodes@[table@].level == level,
        old(seen).wf(),
        old(seen).frames().no_duplicates(),
        listing(old(seen).frames(), nodes@),
        forall|g: int|
            nodes@.dom().contains(g) && g != root@ ==> (#[trigger] nodes@[g]).parent != table@,
        small_tree(mem, root@, whole@, N as int) ==> within(nodes@, whole@),
    ensures
        !r.0 ==> !small_tree(mem, root@, whole@, N as int),
        r.0 ==> {
            &&& found(mem, root@, r.1@)
            &&& within(nodes@, r.1@)
            &&& final(seen).wf()
            &&& final(seen).frames().no_duplicates()
            &&& listing(final(seen).frames(), r.1@)
            &&& followed(mem, r.1@, table@, 512)
            &&& forall|f: int|
                r.1@.dom().contains(f) && !nodes@.dom().contains(f) ==> followed(mem, r.1@, f, 512)
                    && (#[trigger] r.1@[f]).level < level
            &&& small_tree(mem, root@, whole@, N as int) ==> within(r.1@, whole@)
        },
    decreases level,
{
    let ghost mut now = nodes@;
    let mut i: usize = 0;
    while i < 512
        invariant
            i <= 512,
            2 <= level <= 4,
            found(mem, root@, now),
            within(nodes@, now),
            seen.wf(),
            seen.frames().no_duplicates(),
            listing(seen.frames(), now),
            now.dom().contains(table@),
            now[table@].level == level,
            followed(mem, now, table@, i as int),
            forall|f: int|
                now.dom().contains(f) && !nodes@.dom().contains(f) ==> followed(mem, now, f, 512)
                    && (#[trigger] now[f]).level < level,
            forall|g: int|
                now.dom().contains(g) && g != root@ && (#[trigger] now[g]).parent == table@
                    ==> now[g].prefix % 512 < i,
            small_tree(mem, root@, whole@, N as int) ==> within(now, whole@),
        decreases 512 - i,
    {
        proof {
            assert(node_ok(mem, root@, now, table@));
        }
        let e = TableEntry(mem.read(table, i));
        if e.get_present() && (level == 4 || !e.get_huge()) {
            let c = e.get_frame();
            let ghost node = Node {
                level: level - 1,
                prefix: now[table@].prefix * 512 + i,
                parent: table@,
            };
            proof {
                lemma_child_place(now[table@].prefix, i as int);
                if small_tree(mem, root@, whole@, N as int) {
                    reveal(tree);
                    assert(whole@.dom().contains(table@) && whole@[table@] == now[table@]);
                    assert(child_ok(whole@, table@, i as int, c@));
                    assert(node_ok(mem, root@, whole@, c@));
                    assert(whole@[c@] == node);
                    if now.dom().contains(c@) {
                        assert(whole@[c@] == now[c@]);
                    }
                }
            }
            if !mem.has(c) {
                return (false, Ghost(now));
            }
            if seen.contains(c.0) {
                proof {
                    assert(now.dom().contains(c@));
                }
                return (false, Ghost(now));
            }
            let ghost listed_before = seen.frames();
            if !seen.push(c.0) {
                proof {
                    if small_tree(mem, root@, whole@, N as int) {
                        lemma_listed_all(listed_before, now, whole@, c@, N as int);
                    }
                }
                return (false, Ghost(now));
            }
            let ghost before = now;
            proof {
                assert(!now.dom().contains(c@));
                lemma_found_more(mem, root@, now, table@, i as int, c@);
                now = now.insert(c@, node);
                assert(within(before, now));
                lemma_still_followed(mem, before, now, table@, i as int);
                assert(followed(mem, now, table@, i + 1)) by {
                    assert(child_ok(now, table@, i as int, c@));
                }
                assert forall|f: int|
                    now.dom().contains(f) && !nodes@.dom().contains(f) && f != c@ implies followed(
                    mem,
                    now,
                    f,
                    512,
                ) by {
                    lemma_still_followed(mem, before, now, f, 512);
                }
            }
            proof {
                assert(seen.frames().drop_last() =~= listed_before);
                assert(!listed_before.contains(c.0));
                assert(seen.frames().no_duplicates());
                assert forall|f: int| #[trigger]
                    now.dom().contains(f) <==> 0 <= f <= u64::MAX && seen.frames().contains(
                        f as u64,
                    ) by {
                    let grown = seen.frames();
                    let m = grown.len() - 1;
                    if 0 <= f <= u64::MAX && grown.contains(f as u64) {
                        let k = choose|k: int| 0 <= k < grown.len() && grown[k] == f as u64;
                        if k < m {
                            assert(grown.drop_last()[k] == f as u64);
                            assert(grown.drop_last().contains(f as u64));
                        }
                    }
                    if now.dom().contains(f) {
                        if f == c@ {
                            assert(grown[m] == f as u64);
                        } else {
                            assert(before.dom().contains(f));
                            assert(grown.drop_last().contains(f as u64));
                            let k = choose|k: int|
                                0 <= k < grown.drop_last().len() && grown.drop_last()[k]
                                    == f as u64;
                            assert(grown[k] == f as u64);
                        }
                    }
                }
            }
            if level > 2 {
                let ghost given = now;
                proof {
                    assert forall|g: int| now.dom().contains(g) && g != root@ implies (
                    #[trigger] now[g]).parent != c@ by {
                        if g != c@ {
                            assert(node_ok(mem, root@, before, g));
                        }
                    }
                }
                let (ok, deeper) = follow(mem, root, c, level - 1, seen, Ghost(now), whole);
                if !ok {
                    return (false, deeper);
                }
                proof {
                    now = deeper@;
                    lemma_still_followed(mem, given, now, table@, i + 1);
                    assert forall|f: int|
                        now.dom().contains(f) && !nodes@.dom().contains(f) implies followed(
                        mem,
                        now,
                        f,
                        512,
                    ) && (#[trigger] now[f]).level < level by {
                        if given.dom().contains(f) && f != c@ {
                            lemma_still_followed(mem, given, now, f, 512);
                        }
                    }
                    assert forall|g: int|
                        now.dom().contains(g) && g != root@ && (#[trigger] now[g]).parent
                            == table@ implies now[g].prefix % 512 < i + 1 by {
                        if !given.dom().contains(g) {
                            assert(node_ok(mem, root@, now, g));
                        }
                    }
                }
            }
        }
        i += 1;
    }
    (true, Ghost(now))
}

impl PageTable {
    /// The tree under the root table in `pml4t`, which exists already in
    /// `mem`, if its tables form a tree of no more tables than `seen` has
    /// room for. Every table under the root is visited once and noted in
    /// `seen`; nothing else is written.
    pub fn examine<M: TableMemory, const N: usize>(
        pml4t: Frame,
        mem: &M,
        seen: &mut TableList<N>,
    ) -> (r: Option<Self>)
        ensures
            r is Some <==> forms_tree(mem, pml4t@, N as int),
            r matches Some(pt) ==> pt.root() == pml4t@ && pt.wf(mem),
    {
        let ghost limit = N as int;
        let ghost whole = choose|t: Map<int, Node>| small_tree(mem, pml4t@, t, limit);
        proof {
            if tree(mem, pml4t@, whole) {
                reveal(tree);
                assert(node_ok(mem, pml4t@, whole, pml4t@));
            }
        }
        if !mem.has(pml4t) {
            return None;
        }
        let ghost top = if tree(mem, pml4t@, whole) {
            whole[pml4t@]
        } else {
            Node { level: 4, prefix: 0, parent: pml4t@ }
        };
        let ghost first = Map::<int, Node>::empty().insert(pml4t@, top);
        seen.clear();
        if !seen.push(pml4t.0) {
            proof {
                if small_tree(mem, pml4t@, whole, N as int) {
                    whole.dom().lemma_len0_is_empty();
                }
            }
            return None;
        }
        proof {
            reveal(tree);
            assert(first.dom() =~= set![pml4t@]);
            assert(node_ok(mem, pml4t@, first, pml4t@));
            assert(seen.frames()[0] == pml4t.0);
            assert forall|f: int| #[trigger]
                first.dom().contains(f) <==> 0 <= f <= u64::MAX && seen.frames().contains(
                    f as u64,
                ) by {
                if 0 <= f <= u64::MAX && seen.frames().contains(f as u64) {
                    let k = choose|k: int|
                        0 <= k < seen.frames().len() && seen.frames()[k] == f as u64;
                    assert(k == 0);
                }
            }
        }
        let (ok, all) = follow(mem, Ghost(pml4t@), pml4t, 4, seen, Ghost(first), Ghost(whole));
        if !ok {
            return None;
        }
        proof {
            lemma_found_tree(mem, pml4t@, all@);
            lemma_listed_few(seen.frames(), all@);
            assert(seen.frames().len() <= N);
            assert(small_tree(mem, pml4t@, all@, N as int));
        }
        Some(Self { pml4t, nodes: all })
    }
}

/// The permissions that an entry grants.
fn entry_flags(e: TableEntry) -> (r: PageFlags)
    ensures
        r == e.flags(),
{
    PageFlags {
        writable: e.get_writable(),
        usermode: e.get_usermode(),
        executable: e.get_executable(),
    }
}

} // verus!
