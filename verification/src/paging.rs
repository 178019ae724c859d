//! The four-level page-table mapper.
//!
//! Physical memory holding page tables is modeled as a finite map from
//! the physical address of each table to its 512 raw entries. The mapper
//! walks levels 4 down to 1, creating missing intermediate tables from a
//! frame allocator, and installs leaf mappings. The platform layer that
//! touches the live tables through the physical-memory mirror executes
//! exactly the reads and writes decided here.

use vstd::prelude::*;
use std::collections::HashMap;
use crate::frames::{FrameAllocator, lemma_allocated_frame_usable, FRAME_SIZE, MAX_PHYS_ADDR};

verus! {

broadcast use vstd::std_specs::hash::group_hash_axioms;

/// Entry bit 0: the entry is in use.
pub const PRESENT: u64 = 1;

/// Entry bit 1: the mapped memory is writable.
pub const WRITABLE: u64 = 2;

/// Entry bit 7: the entry maps a huge page instead of pointing to a
/// next-level table.
pub const HUGE_PAGE: u64 = 0x80;

/// The bits of an entry that carry the physical address.
pub const ADDR_MASK: u64 = 0x000f_ffff_ffff_f000;

/// Entries per table at every level.
pub const ENTRY_COUNT: usize = 512;

/// Exclusive upper bound on the virtual addresses the mapper accepts:
/// 2^48, the span the four table levels decode.
pub const MAX_VIRT_ADDR: u64 = 0x1_0000_0000_0000;

/// Whether an entry is in use.
pub open spec fn is_present(e: u64) -> bool {
    e & PRESENT == PRESENT
}

/// Whether an entry marks a huge-page mapping.
pub open spec fn is_huge(e: u64) -> bool {
    e & HUGE_PAGE == HUGE_PAGE
}

/// The physical address an entry carries.
pub open spec fn entry_addr(e: u64) -> u64 {
    e & ADDR_MASK
}

/// A page address the mapper can install: frame-aligned and within the
/// span the four levels decode.
pub open spec fn page_ok(p: u64) -> bool {
    p % 4096 == 0 && p < MAX_VIRT_ADDR
}

/// Index into the level-4 table.
pub open spec fn l4_index(p: u64) -> int {
    ((p >> 39) & 0x1ff) as int
}

/// Index into the level-3 table.
pub open spec fn l3_index(p: u64) -> int {
    ((p >> 30) & 0x1ff) as int
}

/// Index into the level-2 table.
pub open spec fn l2_index(p: u64) -> int {
    ((p >> 21) & 0x1ff) as int
}

/// Index into the level-1 table.
pub open spec fn l1_index(p: u64) -> int {
    ((p >> 12) & 0x1ff) as int
}

/// A table with every entry absent.
pub open spec fn zero_table() -> Seq<u64> {
    Seq::new(512, |i: int| 0u64)
}

/// The table an in-use, non-huge entry points to; `None` when the walk
/// cannot continue through `(t, i)`.
pub open spec fn next_table(mem: Map<u64, Seq<u64>>, t: u64, i: int) -> Option<u64> {
    if mem.dom().contains(t) && is_present(mem[t][i]) && !is_huge(mem[t][i]) {
        Some(entry_addr(mem[t][i]))
    } else {
        None
    }
}

/// The level-1 table the three upper walk steps reach for page `p`.
pub open spec fn l1_table_of(mem: Map<u64, Seq<u64>>, l4: u64, p: u64) -> Option<u64> {
    match next_table(mem, l4, l4_index(p)) {
        None => None,
        Some(t3) => match next_table(mem, t3, l3_index(p)) {
            None => None,
            Some(t2) => next_table(mem, t2, l2_index(p)),
        },
    }
}

/// The frame page `p` is mapped to, or `None` when it is unmapped.
pub open spec fn translate(mem: Map<u64, Seq<u64>>, l4: u64, p: u64) -> Option<u64> {
    match l1_table_of(mem, l4, p) {
        None => None,
        Some(t1) => if mem.dom().contains(t1) && is_present(mem[t1][l1_index(p)]) {
            Some(entry_addr(mem[t1][l1_index(p)]))
        } else {
            None
        },
    }
}

/// Whether `(t, i)` holds an in-use huge-page entry.
pub open spec fn huge_at(mem: Map<u64, Seq<u64>>, t: u64, i: int) -> bool {
    mem.dom().contains(t) && is_present(mem[t][i]) && is_huge(mem[t][i])
}

/// Whether the walk for page `p` runs into a huge-page entry where a
/// next-level table was expected.
pub open spec fn huge_blocked(mem: Map<u64, Seq<u64>>, l4: u64, p: u64) -> bool {
    ||| huge_at(mem, l4, l4_index(p))
    ||| match next_table(mem, l4, l4_index(p)) {
        None => false,
        Some(t3) => huge_at(mem, t3, l3_index(p)) || match next_table(mem, t3, l3_index(p)) {
            None => false,
            Some(t2) => huge_at(mem, t2, l2_index(p)),
        },
    }
}

/// How many intermediate tables the walk for `p` still has to create
/// before it reaches a level-1 table.
pub open spec fn missing_tables(mem: Map<u64, Seq<u64>>, l4: u64, p: u64) -> int {
    match next_table(mem, l4, l4_index(p)) {
        None => 3,
        Some(t3) => match next_table(mem, t3, l3_index(p)) {
            None => 2,
            Some(t2) => match next_table(mem, t2, l2_index(p)) {
                None => 1,
                Some(_) => 0,
            },
        },
    }
}

/// Whether `(t, i)` is an in-use link from table `t` down to the next
/// level.
pub open spec fn links(mem: Map<u64, Seq<u64>>, lv: Map<u64, int>, t: u64, i: int) -> bool {
    &&& mem.dom().contains(t)
    &&& 0 <= i < 512
    &&& lv[t] >= 2
    &&& is_present(mem[t][i])
    &&& !is_huge(mem[t][i])
}

/// Well-formedness of a table store: the root is a level-4 table, every
/// table has 512 entries at an aligned physical address, every link
/// points to a table one level down, and no two links share a target.
pub open spec fn wf_mem(mem: Map<u64, Seq<u64>>, lv: Map<u64, int>, l4: u64) -> bool {
    &&& mem.dom().contains(l4)
    &&& lv.dom() == mem.dom()
    &&& lv[l4] == 4
    &&& forall|t: u64| #[trigger]
        mem.dom().contains(t) ==> 1 <= lv[t] <= 4 && t % 4096 == 0 && t < MAX_PHYS_ADDR
            && mem[t].len() == 512
    &&& forall|t: u64, i: int| #[trigger]
        links(mem, lv, t, i) ==> mem.dom().contains(entry_addr(mem[t][i])) && lv[entry_addr(
            mem[t][i],
        )] == lv[t] - 1
    &&& forall|t1: u64, i1: int, t2: u64, i2: int|
        #[trigger] links(mem, lv, t1, i1) && #[trigger] links(mem, lv, t2, i2) && entry_addr(
            mem[t1][i1],
        ) == entry_addr(mem[t2][i2]) ==> t1 == t2 && i1 == i2
}

proof fn lemma_index_bounds(p: u64)
    ensures
        0 <= l4_index(p) < 512,
        0 <= l3_index(p) < 512,
        0 <= l2_index(p) < 512,
        0 <= l1_index(p) < 512,
{
    assert((p >> 39) & 0x1ff < 512 && (p >> 30) & 0x1ff < 512 && (p >> 21) & 0x1ff < 512 && (p
        >> 12) & 0x1ff < 512) by (bit_vector);
}

proof fn lemma_link_entry_bits(a: u64)
    requires
        a % 4096 == 0,
        a < MAX_PHYS_ADDR,
    ensures
        entry_addr(a | 3) == a,
        is_present(a | 3),
        !is_huge(a | 3),
        entry_addr(a | 1) == a,
        is_present(a | 1),
        !is_huge(a | 1),
        a | PRESENT | WRITABLE == a | 3,
        a | PRESENT == a | 1,
{
    assert((a | 3) & 0x000f_ffff_ffff_f000 == a && (a | 3) & 1 == 1 && (a | 3) & 0x80 != 0x80 && (a
        | 1) & 0x000f_ffff_ffff_f000 == a && (a | 1) & 1 == 1 && (a | 1) & 0x80 != 0x80 && (a | 1)
        | 2 == a | 3) by (bit_vector)
        requires
            a % 4096 == 0,
            a < 0x0010_0000_0000_0000,
    ;
}

proof fn lemma_zero_entry()
    ensures
        !is_present(0u64),
        !is_huge(0u64),
        forall|i: int| 0 <= i < 512 ==> zero_table()[i] == 0u64,
        zero_table().len() == 512,
{
    assert(0u64 & 1 != 1 && 0u64 & 0x80 != 0x80) by (bit_vector);
}

proof fn lemma_page_from_indices(p: u64, q: u64)
    requires
        page_ok(p),
        page_ok(q),
        l4_index(p) == l4_index(q),
        l3_index(p) == l3_index(q),
        l2_index(p) == l2_index(q),
        l1_index(p) == l1_index(q),
    ensures
        p == q,
{
    assert(p == q) by (bit_vector)
        requires
            p % 4096 == 0,
            q % 4096 == 0,
            p < 0x1_0000_0000_0000,
            q < 0x1_0000_0000_0000,
            (p >> 39) & 0x1ff == (q >> 39) & 0x1ff,
            (p >> 30) & 0x1ff == (q >> 30) & 0x1ff,
            (p >> 21) & 0x1ff == (q >> 21) & 0x1ff,
            (p >> 12) & 0x1ff == (q >> 12) & 0x1ff,
    ;
}

/// Adding a table nothing links to leaves every walk unchanged and
/// keeps the store well formed.
proof fn lemma_insert_fresh_preserves(
    mem: Map<u64, Seq<u64>>,
    lv: Map<u64, int>,
    l4: u64,
    f: u64,
    lvl: int,
)
    requires
        wf_mem(mem, lv, l4),
        !mem.dom().contains(f),
        f % 4096 == 0,
        f < MAX_PHYS_ADDR,
        1 <= lvl <= 4,
    ensures
        wf_mem(mem.insert(f, zero_table()), lv.insert(f, lvl), l4),
        forall|q: u64|
            translate(mem.insert(f, zero_table()), l4, q) == translate(mem, l4, q),
        forall|q: u64|
            huge_blocked(mem.insert(f, zero_table()), l4, q) == huge_blocked(mem, l4, q),
        forall|q: u64|
            missing_tables(mem.insert(f, zero_table()), l4, q) == missing_tables(mem, l4, q),
{
    let mem2 = mem.insert(f, zero_table());
    let lv2 = lv.insert(f, lvl);
    lemma_zero_entry();
    assert(lv2.dom() =~= mem2.dom());
    assert forall|t: u64, i: int| #[trigger] links(mem2, lv2, t, i) implies links(mem, lv, t, i)
        && mem2[t][i] == mem[t][i] by {
        if t == f {
            assert(mem2[f][i] == 0u64);
        }
    }
    assert(wf_mem(mem2, lv2, l4));
    assert forall|q: u64|
        translate(mem2, l4, q) == translate(mem, l4, q) && huge_blocked(mem2, l4, q)
            == huge_blocked(mem, l4, q) && missing_tables(mem2, l4, q) == missing_tables(
            mem,
            l4,
            q,
        ) by {
        lemma_index_bounds(q);
        assert(l4 != f);
        assert(mem2[l4] == mem[l4]);
        match next_table(mem, l4, l4_index(q)) {
            None => {},
            Some(t3) => {
                assert(links(mem, lv, l4, l4_index(q)));
                assert(t3 != f);
                assert(mem2[t3] == mem[t3]);
                match next_table(mem, t3, l3_index(q)) {
                    None => {},
                    Some(t2) => {
                        assert(links(mem, lv, t3, l3_index(q)));
                        assert(t2 != f);
                        assert(mem2[t2] == mem[t2]);
                        match next_table(mem, t2, l2_index(q)) {
                            None => {},
                            Some(t1) => {
                                assert(links(mem, lv, t2, l2_index(q)));
                                assert(t1 != f);
                                assert(mem2[t1] == mem[t1]);
                            },
                        }
                    },
                }
            },
        }
    }
}

/// Linking a fresh zeroed table into an absent slot leaves every
/// translation and every huge-page obstruction unchanged and keeps the
/// store well formed.
proof fn lemma_link_fresh_table(
    mem: Map<u64, Seq<u64>>,
    lv: Map<u64, int>,
    l4: u64,
    t: u64,
    i: int,
    f: u64,
)
    requires
        wf_mem(mem, lv, l4),
        mem.dom().contains(t),
        lv[t] >= 2,
        0 <= i < 512,
        !is_present(mem[t][i]),
        mem.dom().contains(f),
        mem[f] == zero_table(),
        lv[f] == lv[t] - 1,
        forall|k: u64, j: int| #[trigger] links(mem, lv, k, j) ==> entry_addr(mem[k][j]) != f,
    ensures
        wf_mem(mem.insert(t, mem[t].update(i, f | 3)), lv, l4),
        next_table(mem.insert(t, mem[t].update(i, f | 3)), t, i) == Some(f),
        forall|q: u64|
            translate(mem.insert(t, mem[t].update(i, f | 3)), l4, q) == translate(mem, l4, q),
        forall|q: u64|
            huge_blocked(mem.insert(t, mem[t].update(i, f | 3)), l4, q) == huge_blocked(
                mem,
                l4,
                q,
            ),
{
    let mem2 = mem.insert(t, mem[t].update(i, f | 3));
    lemma_link_entry_bits(f);
    lemma_zero_entry();
    assert(mem2.dom() =~= mem.dom());
    assert(f != t);
    assert(mem2[t][i] == (f | 3));
    assert(forall|k: u64, j: int|
        mem.dom().contains(k) && !(k == t && j == i) && 0 <= j < 512 ==> mem2[k][j]
            == mem[k][j]);
    // Well-formedness: the one new link points to f, which nothing else
    // links to.
    assert forall|k: u64, j: int| #[trigger] links(mem2, lv, k, j) implies mem2.dom().contains(
        entry_addr(mem2[k][j]),
    ) && lv[entry_addr(mem2[k][j])] == lv[k] - 1 by {
        if k == t && j == i {
        } else {
            assert(links(mem, lv, k, j));
        }
    }
    assert forall|k1: u64, j1: int, k2: u64, j2: int|
        #[trigger] links(mem2, lv, k1, j1) && #[trigger] links(mem2, lv, k2, j2) && entry_addr(
            mem2[k1][j1],
        ) == entry_addr(mem2[k2][j2]) implies k1 == k2 && j1 == j2 by {
        if k1 == t && j1 == i {
            if !(k2 == t && j2 == i) {
                assert(links(mem, lv, k2, j2));
                assert(entry_addr(mem[k2][j2]) != f);
            }
        } else if k2 == t && j2 == i {
            assert(links(mem, lv, k1, j1));
            assert(entry_addr(mem[k1][j1]) != f);
        } else {
            assert(links(mem, lv, k1, j1) && links(mem, lv, k2, j2));
        }
    }
    assert(wf_mem(mem2, lv, l4));
    // Every walk is unchanged: a walk that hits (t, i) found an absent
    // entry before and now descends into the all-zero table f.
    assert forall|q: u64|
        translate(mem2, l4, q) == translate(mem, l4, q) && huge_blocked(mem2, l4, q)
            == huge_blocked(mem, l4, q) by {
        lemma_index_bounds(q);
        let i4 = l4_index(q);
        let i3 = l3_index(q);
        let i2 = l2_index(q);
        let i1 = l1_index(q);
        if l4 == t && i4 == i {
            assert(lv[t] == 4);
            assert(next_table(mem, l4, i4) == None::<u64>);
            assert(next_table(mem2, l4, i4) == Some(f));
            assert(mem2[f] == zero_table());
            assert(next_table(mem2, f, i3) == None::<u64>);
            assert(!huge_at(mem2, f, i3));
        } else {
            assert(mem2[l4][i4] == mem[l4][i4]);
            match next_table(mem, l4, i4) {
                None => {},
                Some(t3) => {
                    assert(links(mem, lv, l4, i4));
                    assert(lv[t3] == 3);
                    assert(t3 != f || lv[f] == 3);
                    if t3 == t && i3 == i {
                        assert(lv[t] == 3);
                        assert(next_table(mem, t3, i3) == None::<u64>);
                        assert(next_table(mem2, t3, i3) == Some(f));
                        assert(f != t3 && f != l4);
                        assert(mem2[f] == zero_table());
                        assert(next_table(mem2, f, i2) == None::<u64>);
                        assert(!huge_at(mem2, f, i2));
                    } else {
                        assert(mem2[t3][i3] == mem[t3][i3]);
                        match next_table(mem, t3, i3) {
                            None => {},
                            Some(t2) => {
                                assert(links(mem, lv, t3, i3));
                                assert(lv[t2] == 2);
                                if t2 == t && i2 == i {
                                    assert(next_table(mem, t2, i2) == None::<u64>);
                                    assert(next_table(mem2, t2, i2) == Some(f));
                                    assert(lv[f] == 1);
                                    assert(f != t2 && f != t3 && f != l4);
                                    assert(mem2[f] == zero_table());
                                    assert(!is_present(mem2[f][i1]));
                                } else {
                                    assert(mem2[t2][i2] == mem[t2][i2]);
                                    match next_table(mem, t2, i2) {
                                        None => {},
                                        Some(t1) => {
                                            assert(links(mem, lv, t2, i2));
                                            assert(lv[t1] == 1);
                                            assert(t1 != t);
                                            assert(mem2[t1] == mem[t1]);
                                        },
                                    }
                                }
                            },
                        }
                    }
                },
            }
        }
    }
}

/// Two pages that resolve to the same level-1 table and slot are the
/// same page: links never share targets, so the walk back up is unique.
proof fn lemma_slot_unique(mem: Map<u64, Seq<u64>>, lv: Map<u64, int>, l4: u64, p: u64, q: u64)
    requires
        wf_mem(mem, lv, l4),
        page_ok(p),
        page_ok(q),
        l1_table_of(mem, l4, p) == l1_table_of(mem, l4, q),
        l1_table_of(mem, l4, p).is_some(),
        l1_index(p) == l1_index(q),
    ensures
        p == q,
{
    lemma_index_bounds(p);
    lemma_index_bounds(q);
    let t3p = next_table(mem, l4, l4_index(p)).unwrap();
    let t2p = next_table(mem, t3p, l3_index(p)).unwrap();
    let t3q = next_table(mem, l4, l4_index(q)).unwrap();
    let t2q = next_table(mem, t3q, l3_index(q)).unwrap();
    assert(links(mem, lv, l4, l4_index(p)) && links(mem, lv, l4, l4_index(q)));
    assert(links(mem, lv, t3p, l3_index(p)) && links(mem, lv, t3q, l3_index(q)));
    assert(links(mem, lv, t2p, l2_index(p)) && links(mem, lv, t2q, l2_index(q)));
    assert(entry_addr(mem[t2p][l2_index(p)]) == entry_addr(mem[t2q][l2_index(q)]));
    assert(t2p == t2q && l2_index(p) == l2_index(q));
    assert(entry_addr(mem[t3p][l3_index(p)]) == entry_addr(mem[t3q][l3_index(q)]));
    assert(t3p == t3q && l3_index(p) == l3_index(q));
    assert(entry_addr(mem[l4][l4_index(p)]) == entry_addr(mem[l4][l4_index(q)]));
    assert(l4_index(p) == l4_index(q));
    lemma_page_from_indices(p, q);
}

/// Installing a leaf entry maps exactly the one page whose walk ends in
/// that slot and leaves every other translation unchanged.
proof fn lemma_install_leaf(
    mem: Map<u64, Seq<u64>>,
    lv: Map<u64, int>,
    l4: u64,
    p: u64,
    v: u64,
)
    requires
        wf_mem(mem, lv, l4),
        page_ok(p),
        l1_table_of(mem, l4, p).is_some(),
        is_present(v),
    ensures
        ({
            let t1 = l1_table_of(mem, l4, p).unwrap();
            let mem2 = mem.insert(t1, mem[t1].update(l1_index(p), v));
            &&& wf_mem(mem2, lv, l4)
            &&& translate(mem2, l4, p) == Some(entry_addr(v))
            &&& forall|q: u64|
                page_ok(q) && q != p ==> translate(mem2, l4, q) == translate(mem, l4, q)
        }),
{
    lemma_index_bounds(p);
    let t1 = l1_table_of(mem, l4, p).unwrap();
    let t3p = next_table(mem, l4, l4_index(p)).unwrap();
    let t2p = next_table(mem, t3p, l3_index(p)).unwrap();
    assert(links(mem, lv, l4, l4_index(p)));
    assert(links(mem, lv, t3p, l3_index(p)));
    assert(links(mem, lv, t2p, l2_index(p)));
    assert(mem.dom().contains(t1));
    assert(lv[t3p] == 3 && lv[t2p] == 2 && lv[t1] == 1);
    let mem2 = mem.insert(t1, mem[t1].update(l1_index(p), v));
    assert(mem2.dom() =~= mem.dom());
    assert(forall|k: u64, j: int|
        mem.dom().contains(k) && !(k == t1 && j == l1_index(p)) && 0 <= j < 512 ==> mem2[k][j]
            == mem[k][j]);
    // Level-1 tables carry no links, so well-formedness is untouched.
    assert forall|k: u64, j: int| #[trigger] links(mem2, lv, k, j) implies links(mem, lv, k, j)
        && mem2[k][j] == mem[k][j] by {
        if k == t1 {
            assert(lv[t1] == 1);
        }
    }
    assert(wf_mem(mem2, lv, l4));
    // The walk for p is unchanged down to t1, where the new entry now
    // maps it.
    assert(mem2[l4][l4_index(p)] == mem[l4][l4_index(p)]);
    assert(mem2[t3p][l3_index(p)] == mem[t3p][l3_index(p)]);
    assert(mem2[t2p][l2_index(p)] == mem[t2p][l2_index(p)]);
    assert(l1_table_of(mem2, l4, p) == Some(t1));
    assert(translate(mem2, l4, p) == Some(entry_addr(v)));
    assert forall|q: u64| page_ok(q) && q != p implies translate(mem2, l4, q) == translate(
        mem,
        l4,
        q,
    ) by {
        lemma_index_bounds(q);
        match next_table(mem, l4, l4_index(q)) {
            None => {
                assert(mem2[l4][l4_index(q)] == mem[l4][l4_index(q)]);
            },
            Some(t3) => {
                assert(links(mem, lv, l4, l4_index(q)));
                assert(lv[t3] == 3 && t3 != t1);
                assert(mem2[l4][l4_index(q)] == mem[l4][l4_index(q)]);
                assert(mem2[t3] == mem[t3]);
                match next_table(mem, t3, l3_index(q)) {
                    None => {},
                    Some(t2) => {
                        assert(links(mem, lv, t3, l3_index(q)));
                        assert(lv[t2] == 2 && t2 != t1);
                        assert(mem2[t2] == mem[t2]);
                        match next_table(mem, t2, l2_index(q)) {
                            None => {},
                            Some(tq1) => {
                                assert(links(mem, lv, t2, l2_index(q)));
                                assert(lv[tq1] == 1);
                                assert(l1_table_of(mem, l4, q) == Some(tq1));
                                assert(l1_table_of(mem2, l4, q) == Some(tq1));
                                if tq1 == t1 && l1_index(q) == l1_index(p) {
                                    lemma_slot_unique(mem, lv, l4, p, q);
                                    assert(false);
                                } else {
                                    assert(mem2[tq1][l1_index(q)] == mem[tq1][l1_index(q)]);
                                }
                            },
                        }
                    },
                }
            },
        }
    }
}

/// Outcome of a failed mapping attempt.
#[derive(Clone, Copy, PartialEq, Eq, Structural, Debug)]
pub enum MapError {
    /// The frame allocator ran dry before the walk finished.
    FrameAllocationFailed,
    /// The page already has a level-1 mapping.
    AlreadyMapped,
    /// An upper-level entry holds a huge-page mapping where a table was
    /// expected.
    ParentEntryHugePage,
}

/// Receipt for a fresh mapping: the cached translation for the page must
/// be invalidated before the mapping is used. In this model the flush is
/// the point where the platform layer issues the invalidation.
#[must_use]
pub struct MapperFlush {
    /// The page whose translation must be invalidated.
    pub page: u64,
}

impl MapperFlush {
    /// Consumes the receipt; the platform layer invalidates the cached
    /// translation for `self.page` here.
    pub fn flush(self) {
    }
}

/// The page-table capability: the active root table's physical address,
/// the offset at which physical memory is mirrored into virtual space,
/// and the modeled table contents.
pub struct Mapper {
    l4_addr: u64,
    phys_offset: u64,
    tables: HashMap<u64, Vec<u64>>,
    lv: Ghost<Map<u64, int>>,
}

impl Mapper {
    /// The modeled table store: each table's entries at its physical
    /// address.
    pub closed spec fn mem(self) -> Map<u64, Seq<u64>> {
        self.tables@.map_values(|t: Vec<u64>| t@)
    }

    /// Physical address of the root (level-4) table.
    pub closed spec fn l4(self) -> u64 {
        self.l4_addr
    }

    /// The offset at which physical memory is mirrored.
    pub closed spec fn spec_phys_offset(self) -> u64 {
        self.phys_offset
    }

    /// The level of each table in the store.
    pub closed spec fn levels(self) -> Map<u64, int> {
        self.lv@
    }

    /// The mapper's invariant over its table store.
    pub closed spec fn wf(self) -> bool {
        wf_mem(self.mem(), self.lv@, self.l4_addr)
    }

    /// A mapper over a fresh, empty root table at `l4_addr`.
    pub fn new(l4_addr: u64, phys_offset: u64) -> (m: Mapper)
        requires
            l4_addr % 4096 == 0,
            l4_addr < MAX_PHYS_ADDR,
        ensures
            m.wf(),
            m.l4() == l4_addr,
            m.spec_phys_offset() == phys_offset,
            m.mem() == Map::<u64, Seq<u64>>::empty().insert(l4_addr, zero_table()),
            forall|q: u64| translate(m.mem(), m.l4(), q) == None::<u64>,
            forall|q: u64| !huge_blocked(m.mem(), m.l4(), q),
    {
        let tables: HashMap<u64, Vec<u64>> = HashMap::new();
        let mut m = Mapper {
            l4_addr,
            phys_offset,
            tables,
            lv: Ghost(Map::empty().insert(l4_addr, 4int)),
        };
        let root = zero_table_exec();
        m.tables.insert(l4_addr, root);
        proof {
            lemma_zero_entry();
            assert(m.mem() =~= Map::<u64, Seq<u64>>::empty().insert(l4_addr, zero_table()));
            assert(m.lv@.dom() =~= m.mem().dom());
            assert forall|t: u64, i: int| !links(m.mem(), m.lv@, t, i) by {
                if m.mem().dom().contains(t) {
                    assert(m.mem()[t] == zero_table());
                }
            }
            assert(m.wf());
            assert forall|q: u64| translate(m.mem(), m.l4(), q) == None::<u64> && !huge_blocked(
                m.mem(),
                m.l4(),
                q,
            ) by {
                lemma_index_bounds(q);
                assert(m.mem()[l4_addr][l4_index(q)] == 0u64);
            }
        }
        m
    }

    /// Reads entry `i` of the table at physical address `t`.
    fn read_entry(&self, t: u64, i: usize) -> (e: u64)
        requires
            self.mem().dom().contains(t),
            self.mem()[t].len() == 512,
            i < 512,
        ensures
            e == self.mem()[t][i as int],
    {
        let tbl = self.tables.get(&t).unwrap();
        tbl[i]
    }

    /// Overwrites entry `i` of the table at physical address `t`.
    fn write_entry(&mut self, t: u64, i: usize, v: u64)
        requires
            old(self).mem().dom().contains(t),
            old(self).mem()[t].len() == 512,
            i < 512,
        ensures
            final(self).mem() == old(self).mem().insert(
                t,
                old(self).mem()[t].update(i as int, v),
            ),
            final(self).lv@ == old(self).lv@,
            final(self).l4_addr == old(self).l4_addr,
            final(self).phys_offset == old(self).phys_offset,
    {
        let mut tbl = self.tables.remove(&t).unwrap();
        tbl[i] = v;
        self.tables.insert(t, tbl);
        proof {
            assert(self.mem() =~= old(self).mem().insert(
                t,
                old(self).mem()[t].update(i as int, v),
            ));
        }
    }

    /// Adds a fresh zeroed table at physical address `addr`, recorded at
    /// level `lvl`.
    fn add_table(&mut self, addr: u64, Ghost(lvl): Ghost<int>)
        requires
            !old(self).mem().dom().contains(addr),
        ensures
            final(self).mem() == old(self).mem().insert(addr, zero_table()),
            final(self).lv@ == old(self).lv@.insert(addr, lvl),
            final(self).l4_addr == old(self).l4_addr,
            final(self).phys_offset == old(self).phys_offset,
    {
        let tbl = zero_table_exec();
        self.tables.insert(addr, tbl);
        proof {
            self.lv@ = self.lv@.insert(addr, lvl);
            assert(self.mem() =~= old(self).mem().insert(addr, zero_table()));
        }
    }

    /// Descends one level through entry `idx` of the table at `t`,
    /// creating and linking a fresh zeroed next-level table from `alloc`
    /// when the entry is absent.
    fn ensure_next(&mut self, t: u64, idx: usize, Ghost(lvl): Ghost<int>, alloc: &mut FrameAllocator) -> (r:
        Result<u64, MapError>)
        requires
            old(self).wf(),
            old(self).mem().dom().contains(t),
            old(self).levels()[t] == lvl,
            lvl >= 2,
            idx < 512,
            old(alloc).map_spec().wf(),
            old(alloc).issued_spec() < u64::MAX,
            forall|a: int, b: int|
                0 <= a < b < old(alloc).map_spec().frames().len() ==> old(
                    alloc,
                ).map_spec().frames()[a] != old(alloc).map_spec().frames()[b],
            forall|i: int|
                old(alloc).issued_spec() <= i < old(alloc).map_spec().frames().len()
                    ==> !old(self).mem().dom().contains(
                    #[trigger] old(alloc).map_spec().frames()[i],
                ),
        ensures
            final(self).wf(),
            final(self).l4() == old(self).l4(),
            final(self).spec_phys_offset() == old(self).spec_phys_offset(),
            final(alloc).map_spec() == old(alloc).map_spec(),
            old(alloc).issued_spec() <= final(alloc).issued_spec() <= old(alloc).issued_spec()
                + 1,
            forall|i: int|
                final(alloc).issued_spec() <= i < old(alloc).map_spec().frames().len()
                    ==> !final(self).mem().dom().contains(
                    #[trigger] old(alloc).map_spec().frames()[i],
                ),
            !huge_at(old(self).mem(), t, idx as int) ==> r != Err::<u64, MapError>(
                MapError::ParentEntryHugePage,
            ),
            match r {
                Ok(t2) => {
                    &&& !huge_at(old(self).mem(), t, idx as int)
                    &&& final(self).mem().dom().contains(t2)
                    &&& final(self).levels()[t2] == lvl - 1
                    &&& next_table(final(self).mem(), t, idx as int) == Some(t2)
                    &&& forall|q: u64|
                        translate(final(self).mem(), final(self).l4(), q) == translate(
                            old(self).mem(),
                            old(self).l4(),
                            q,
                        )
                    &&& forall|q: u64|
                        huge_blocked(final(self).mem(), final(self).l4(), q) == huge_blocked(
                            old(self).mem(),
                            old(self).l4(),
                            q,
                        )
                    &&& if is_present(old(self).mem()[t][idx as int]) {
                        &&& t2 == entry_addr(old(self).mem()[t][idx as int])
                        &&& final(self).mem() == old(self).mem()
                        &&& final(self).levels() == old(self).levels()
                        &&& final(alloc).issued_spec() == old(alloc).issued_spec()
                    } else {
                        &&& (old(alloc).issued_spec() as int) < old(
                            alloc,
                        ).map_spec().frames().len()
                        &&& t2 == old(alloc).map_spec().frames()[old(alloc).issued_spec() as int]
                        &&& final(self).mem() == old(self).mem().insert(t2, zero_table()).insert(
                            t,
                            old(self).mem()[t].update(idx as int, t2 | 3),
                        )
                        &&& final(self).mem()[t2] == zero_table()
                        &&& final(self).levels() == old(self).levels().insert(t2, lvl - 1)
                        &&& final(alloc).issued_spec() == old(alloc).issued_spec() + 1
                    }
                },
                Err(e) => {
                    &&& final(self).mem() == old(self).mem()
                    &&& final(self).levels() == old(self).levels()
                    &&& e != MapError::AlreadyMapped
                    &&& (e == MapError::ParentEntryHugePage <==> huge_at(
                        old(self).mem(),
                        t,
                        idx as int,
                    ))
                    &&& (e == MapError::ParentEntryHugePage ==> final(alloc).issued_spec() == old(
                        alloc,
                    ).issued_spec())
                    &&& (e == MapError::FrameAllocationFailed ==> {
                        &&& !is_present(old(self).mem()[t][idx as int])
                        &&& old(alloc).issued_spec() as int >= old(
                            alloc,
                        ).map_spec().frames().len()
                        &&& final(alloc).issued_spec() == old(alloc).issued_spec() + 1
                    })
                },
            },
    {
        let ghost mem0 = self.mem();
        let ghost lv0 = self.lv@;
        let ghost l4 = self.l4_addr;
        let e = self.read_entry(t, idx);
        if e & PRESENT == PRESENT {
            if e & HUGE_PAGE == HUGE_PAGE {
                return Err(MapError::ParentEntryHugePage);
            }
            let nxt = e & ADDR_MASK;
            proof {
                assert(links(mem0, lv0, t, idx as int));
            }
            Ok(nxt)
        } else {
            let f = match alloc.allocate_frame() {
                Some(f) => f,
                None => {
                    return Err(MapError::FrameAllocationFailed);
                },
            };
            proof {
                let ghost frames = alloc.map_spec().frames();
                let ghost n = old(alloc).issued_spec() as int;
                lemma_allocated_frame_usable(alloc.map_spec(), n);
                let j = choose|j: int|
                    0 <= j < alloc.map_spec().regions@.len() && (#[trigger] alloc.map_spec().regions@[j]).kind
                        == crate::frames::RegionKind::Usable && alloc.map_spec().regions@[j].start
                        <= frames[n] && frames[n] + FRAME_SIZE <= alloc.map_spec().regions@[j].end;
                assert(alloc.map_spec().regions@[j].wf());
                assert(f % 4096 == 0 && f < MAX_PHYS_ADDR);
            }
            self.add_table(f, Ghost(lvl - 1));
            proof {
                lemma_insert_fresh_preserves(mem0, lv0, l4, f, lvl - 1);
                let mem1 = self.mem();
                let lv1 = self.lv@;
                assert forall|k: u64, j: int| #[trigger] links(mem1, lv1, k, j) implies entry_addr(
                    mem1[k][j],
                ) != f by {
                    lemma_zero_entry();
                    if k == f {
                        assert(mem1[f][j] == 0u64);
                    } else {
                        assert(links(mem0, lv0, k, j));
                        assert(mem0.dom().contains(entry_addr(mem0[k][j])));
                    }
                }
                lemma_link_fresh_table(mem1, lv1, l4, t, idx as int, f);
            }
            self.write_entry(t, idx, f | 3);
            proof {
                assert(self.mem() == mem0.insert(f, zero_table()).insert(
                    t,
                    mem0[t].update(idx as int, f | 3),
                )) by {
                    assert(mem0.insert(f, zero_table())[t] == mem0[t]);
                }
                assert(self.mem()[f] == zero_table());
            }
            Ok(f)
        }
    }

    /// Maps `page` to `frame` with the present flag, and the writable
    /// flag when requested, creating missing intermediate tables from
    /// `alloc`. Succeeds exactly when no huge-page entry blocks the
    /// walk, the page is still unmapped, and the allocator covers the
    /// missing intermediate tables; every other translation is left
    /// unchanged. The returned receipt obliges the caller to flush the
    /// page's cached translation before relying on the mapping.
    pub fn map_to(&mut self, page: u64, frame: u64, writable: bool, alloc: &mut FrameAllocator) -> (r:
        Result<MapperFlush, MapError>)
        requires
            old(self).wf(),
            page_ok(page),
            frame % 4096 == 0,
            frame < MAX_PHYS_ADDR,
            old(alloc).map_spec().wf(),
            old(alloc).issued_spec() as int + 3 < u64::MAX as int,
            forall|a: int, b: int|
                0 <= a < b < old(alloc).map_spec().frames().len() ==> old(
                    alloc,
                ).map_spec().frames()[a] != old(alloc).map_spec().frames()[b],
            forall|i: int|
                old(alloc).issued_spec() <= i < old(alloc).map_spec().frames().len()
                    ==> !old(self).mem().dom().contains(
                    #[trigger] old(alloc).map_spec().frames()[i],
                ),
        ensures
            final(self).wf(),
            final(self).l4() == old(self).l4(),
            final(self).spec_phys_offset() == old(self).spec_phys_offset(),
            final(alloc).map_spec() == old(alloc).map_spec(),
            old(alloc).issued_spec() <= final(alloc).issued_spec() <= old(alloc).issued_spec()
                + 3,
            forall|i: int|
                final(alloc).issued_spec() <= i < old(alloc).map_spec().frames().len()
                    ==> !final(self).mem().dom().contains(
                    #[trigger] old(alloc).map_spec().frames()[i],
                ),
            r.is_ok() <==> {
                &&& !huge_blocked(old(self).mem(), old(self).l4(), page)
                &&& translate(old(self).mem(), old(self).l4(), page) == None::<u64>
                &&& (missing_tables(old(self).mem(), old(self).l4(), page) == 0 || old(
                    alloc,
                ).issued_spec() as int + missing_tables(old(self).mem(), old(self).l4(), page)
                    <= old(alloc).map_spec().frames().len())
            },
            match r {
                Ok(fl) => {
                    &&& fl.page == page
                    &&& translate(final(self).mem(), final(self).l4(), page) == Some(frame)
                    &&& forall|q: u64|
                        page_ok(q) && q != page ==> translate(final(self).mem(), final(self).l4(), q)
                            == translate(old(self).mem(), old(self).l4(), q)
                    &&& final(alloc).issued_spec() == old(alloc).issued_spec() + missing_tables(
                        old(self).mem(),
                        old(self).l4(),
                        page,
                    )
                },
                Err(e) => {
                    &&& forall|q: u64|
                        translate(final(self).mem(), final(self).l4(), q) == translate(
                            old(self).mem(),
                            old(self).l4(),
                            q,
                        )
                    &&& (e == MapError::ParentEntryHugePage <==> huge_blocked(
                        old(self).mem(),
                        old(self).l4(),
                        page,
                    ))
                    &&& (e == MapError::AlreadyMapped <==> !huge_blocked(
                        old(self).mem(),
                        old(self).l4(),
                        page,
                    ) && translate(old(self).mem(), old(self).l4(), page).is_some())
                    &&& ((e == MapError::ParentEntryHugePage || e == MapError::AlreadyMapped)
                        ==> final(self).mem() == old(self).mem() && final(alloc).issued_spec()
                        == old(alloc).issued_spec())
                    &&& (e == MapError::FrameAllocationFailed ==> old(
                        alloc,
                    ).map_spec().frames().len() < final(alloc).issued_spec() as int)
                },
            },
    {
        proof {
            lemma_index_bounds(page);
        }
        let i4 = ((page >> 39) & 0x1ff) as usize;
        let i3 = ((page >> 30) & 0x1ff) as usize;
        let i2 = ((page >> 21) & 0x1ff) as usize;
        let i1 = ((page >> 12) & 0x1ff) as usize;
        let ghost mem0 = self.mem();
        let ghost l4g = self.l4();
        let ghost n0 = old(alloc).issued_spec() as int;
        let ghost frames = old(alloc).map_spec().frames();
        let l4a = self.l4_addr;
        let t3 = match self.ensure_next(l4a, i4, Ghost(4int), alloc) {
            Ok(t) => t,
            Err(e) => {
                proof {
                    if e == MapError::FrameAllocationFailed {
                        assert(next_table(mem0, l4g, i4 as int) == None::<u64>);
                        assert(missing_tables(mem0, l4g, page) == 3);
                        assert(!huge_blocked(mem0, l4g, page));
                        assert(translate(mem0, l4g, page) == None::<u64>);
                    }
                }
                return Err(e);
            },
        };
        let ghost mem1 = self.mem();
        let ghost n1 = alloc.issued_spec() as int;
        let ghost c1 = !is_present(mem0[l4g][i4 as int]);
        proof {
            if c1 {
                assert(next_table(mem0, l4g, i4 as int) == None::<u64>);
                assert(missing_tables(mem0, l4g, page) == 3);
                assert(next_table(mem1, l4a, i4 as int) == Some(t3));
                assert(mem1[t3] == zero_table());
                lemma_zero_entry();
            } else {
                assert(mem1 == mem0);
                assert(next_table(mem0, l4g, i4 as int) == Some(t3));
            }
        }
        let t2 = match self.ensure_next(t3, i3, Ghost(3int), alloc) {
            Ok(t) => t,
            Err(e) => {
                proof {
                    assert(forall|q: u64| translate(self.mem(), l4g, q) == translate(mem0, l4g, q));
                    if e == MapError::ParentEntryHugePage {
                        assert(!c1);
                        assert(huge_at(mem0, t3, i3 as int));
                        assert(huge_blocked(mem0, l4g, page));
                    } else {
                        assert(e == MapError::FrameAllocationFailed);
                        assert(!is_present(mem1[t3][i3 as int]));
                        assert(n1 >= frames.len());
                        if c1 {
                            assert(missing_tables(mem0, l4g, page) == 3);
                            assert(n1 == n0 + 1);
                        } else {
                            assert(next_table(mem0, t3, i3 as int) == None::<u64>);
                            assert(missing_tables(mem0, l4g, page) == 2);
                            assert(!huge_blocked(mem0, l4g, page));
                            assert(n1 == n0);
                        }
                        assert(translate(mem0, l4g, page) == None::<u64>);
                        assert(frames.len() < alloc.issued_spec() as int);
                    }
                }
                return Err(e);
            },
        };
        let ghost mem2 = self.mem();
        let ghost n2 = alloc.issued_spec() as int;
        let ghost c2 = !is_present(mem1[t3][i3 as int]);
        proof {
            if c2 {
                assert(c1 ==> mem1[t3] == zero_table());
                if !c1 {
                    assert(next_table(mem0, t3, i3 as int) == None::<u64>);
                    assert(missing_tables(mem0, l4g, page) == 2);
                }
                assert(mem2[t2] == zero_table());
                lemma_zero_entry();
                assert(n2 == n1 + 1);
            } else {
                assert(!c1) by {
                    if c1 {
                        lemma_zero_entry();
                        assert(mem1[t3][i3 as int] == 0u64);
                    }
                }
                assert(mem2 == mem1 && mem1 == mem0);
                assert(next_table(mem0, t3, i3 as int) == Some(t2));
                assert(n2 == n1);
            }
            // The root link survives the second step.
            assert(next_table(mem2, l4a, i4 as int) == Some(t3)) by {
                if c2 {
                    assert(!mem1.dom().contains(t2));
                    assert(mem1.dom().contains(l4a));
                    assert(self.levels()[t3] == 3);
                    assert(l4a != t3);
                    assert(mem2[l4a] == mem1[l4a]);
                }
                assert(next_table(mem1, l4a, i4 as int) == Some(t3));
            }
        }
        let t1 = match self.ensure_next(t2, i2, Ghost(2int), alloc) {
            Ok(t) => t,
            Err(e) => {
                proof {
                    assert(forall|q: u64| translate(self.mem(), l4g, q) == translate(mem0, l4g, q));
                    if e == MapError::ParentEntryHugePage {
                        assert(!c2);
                        assert(!c1);
                        assert(huge_at(mem0, t2, i2 as int));
                        assert(huge_blocked(mem0, l4g, page));
                    } else {
                        assert(e == MapError::FrameAllocationFailed);
                        assert(!is_present(mem2[t2][i2 as int]));
                        assert(n2 >= frames.len());
                        if c2 {
                        } else {
                            assert(next_table(mem0, t2, i2 as int) == None::<u64>);
                            assert(missing_tables(mem0, l4g, page) == 1);
                            assert(!huge_blocked(mem0, l4g, page));
                        }
                        assert(translate(mem0, l4g, page) == None::<u64>);
                        assert(frames.len() < alloc.issued_spec() as int);
                        assert(missing_tables(mem0, l4g, page) >= 1);
                        assert(n0 + missing_tables(mem0, l4g, page) > frames.len());
                    }
                }
                return Err(e);
            },
        };
        let ghost mem3 = self.mem();
        let ghost n3 = alloc.issued_spec() as int;
        let ghost c3 = !is_present(mem2[t2][i2 as int]);
        proof {
            if c3 {
                if !c2 && !c1 {
                    assert(next_table(mem0, t2, i2 as int) == None::<u64>);
                    assert(missing_tables(mem0, l4g, page) == 1);
                }
                assert(mem3[t1] == zero_table());
                lemma_zero_entry();
                assert(n3 == n2 + 1);
            } else {
                assert(!c2) by {
                    if c2 {
                        lemma_zero_entry();
                        assert(mem2[t2][i2 as int] == 0u64);
                    }
                }
                assert(!c1);
                assert(mem3 == mem0);
                assert(next_table(mem0, t2, i2 as int) == Some(t1));
                assert(missing_tables(mem0, l4g, page) == 0);
                assert(n3 == n0);
            }
            // The two upper links survive the third step.
            assert(next_table(mem3, l4a, i4 as int) == Some(t3) && next_table(mem3, t3, i3 as int)
                == Some(t2)) by {
                if c3 {
                    assert(!mem2.dom().contains(t1));
                    assert(self.levels()[t2] == 2);
                    assert(l4a != t2 && t3 != t2);
                    assert(mem3[l4a] == mem2[l4a] && mem3[t3] == mem2[t3]);
                }
                assert(next_table(mem2, t3, i3 as int) == Some(t2));
            }
            assert(next_table(mem3, t2, i2 as int) == Some(t1));
            assert(l1_table_of(mem3, l4g, page) == Some(t1));
            assert(!huge_blocked(mem0, l4g, page)) by {
                if !c1 {
                    assert(!huge_at(mem0, t3, i3 as int));
                    if !c2 {
                        assert(!huge_at(mem0, t2, i2 as int));
                    } else {
                        assert(next_table(mem0, t3, i3 as int) == None::<u64>);
                    }
                } else {
                    assert(next_table(mem0, l4g, i4 as int) == None::<u64>);
                }
            }
            assert(self.wf());
            assert(mem3.dom().contains(t1));
        }
        let e1 = self.read_entry(t1, i1);
        if e1 & PRESENT == PRESENT {
            proof {
                assert(translate(mem3, l4g, page) == Some(entry_addr(mem3[t1][i1 as int])));
                assert(translate(mem0, l4g, page).is_some());
                assert(!c3 && !c2 && !c1);
                assert(mem3 == mem0 && n3 == n0);
            }
            return Err(MapError::AlreadyMapped);
        }
        let val = if writable {
            frame | PRESENT | WRITABLE
        } else {
            frame | PRESENT
        };
        proof {
            lemma_link_entry_bits(frame);
            assert(translate(mem3, l4g, page) == None::<u64>);
            assert(translate(mem0, l4g, page) == None::<u64>);
            lemma_install_leaf(mem3, self.lv@, l4g, page, val);
            // The allocator covered exactly the missing tables.
            if c1 {
                assert(c2 && c3) by {
                    lemma_zero_entry();
                }
                assert(missing_tables(mem0, l4g, page) == 3);
                assert(n3 == n0 + 3);
                assert(n2 < frames.len());
            } else if c2 {
                assert(c3) by {
                    lemma_zero_entry();
                }
                assert(missing_tables(mem0, l4g, page) == 2);
                assert(n3 == n0 + 2);
                assert(n2 < frames.len());
            } else if c3 {
                assert(missing_tables(mem0, l4g, page) == 1);
                assert(n3 == n0 + 1);
                assert(n2 < frames.len());
            } else {
                assert(missing_tables(mem0, l4g, page) == 0);
                assert(n3 == n0);
            }
        }
        self.write_entry(t1, i1, val);
        proof {
            assert(self.mem() == mem3.insert(t1, mem3[t1].update(i1 as int, val)));
            assert(translate(self.mem(), l4g, page) == Some(frame));
        }
        Ok(MapperFlush { page })
    }

    /// Marks an absent root-table entry as an in-use huge-page mapping,
    /// as a boot loader that mapped physical memory with huge pages
    /// leaves it. Returns whether the entry was absent and is now huge;
    /// no translation changes either way.
    pub fn set_huge_root_entry(&mut self, idx: usize) -> (r: bool)
        requires
            old(self).wf(),
            idx < 512,
        ensures
            final(self).wf(),
            final(self).l4() == old(self).l4(),
            final(self).spec_phys_offset() == old(self).spec_phys_offset(),
            r == !is_present(old(self).mem()[old(self).l4()][idx as int]),
            forall|q: u64|
                translate(final(self).mem(), final(self).l4(), q) == translate(
                    old(self).mem(),
                    old(self).l4(),
                    q,
                ),
            r ==> forall|q: u64|
                l4_index(q) == idx ==> huge_blocked(final(self).mem(), final(self).l4(), q),
            !r ==> final(self).mem() == old(self).mem(),
    {
        let ghost mem0 = self.mem();
        let ghost lv0 = self.lv@;
        let ghost l4 = self.l4_addr;
        let e = self.read_entry(self.l4_addr, idx);
        if e & PRESENT == PRESENT {
            return false;
        }
        let v = PRESENT | HUGE_PAGE;
        proof {
            assert((1u64 | 0x80u64) & 1u64 == 1u64 && (1u64 | 0x80u64) & 0x80u64 == 0x80u64)
                by (bit_vector);
            assert(is_present(v) && is_huge(v));
        }
        self.write_entry(self.l4_addr, idx, v);
        proof {
            let mem2 = self.mem();
            assert(mem2 == mem0.insert(l4, mem0[l4].update(idx as int, v)));
            assert(mem2.dom() =~= mem0.dom());
            assert(forall|k: u64, j: int|
                mem0.dom().contains(k) && !(k == l4 && j == idx as int) && 0 <= j < 512
                    ==> mem2[k][j] == mem0[k][j]);
            assert forall|k: u64, j: int| #[trigger] links(mem2, lv0, k, j) implies links(
                mem0,
                lv0,
                k,
                j,
            ) && mem2[k][j] == mem0[k][j] by {
                if k == l4 && j == idx as int {
                    assert(is_huge(mem2[k][j]));
                }
            }
            assert(wf_mem(mem2, lv0, l4));
            assert forall|q: u64| translate(mem2, l4, q) == translate(mem0, l4, q) by {
                lemma_index_bounds(q);
                if l4_index(q) == idx as int {
                    assert(!is_present(mem0[l4][l4_index(q)]));
                    assert(next_table(mem0, l4, l4_index(q)) == None::<u64>);
                    assert(is_huge(mem2[l4][l4_index(q)]));
                    assert(next_table(mem2, l4, l4_index(q)) == None::<u64>);
                } else {
                    assert(mem2[l4][l4_index(q)] == mem0[l4][l4_index(q)]);
                    match next_table(mem0, l4, l4_index(q)) {
                        None => {},
                        Some(t3) => {
                            assert(links(mem0, lv0, l4, l4_index(q)));
                            assert(lv0[t3] == 3 && t3 != l4);
                            assert(mem2[t3] == mem0[t3]);
                            match next_table(mem0, t3, l3_index(q)) {
                                None => {},
                                Some(t2) => {
                                    assert(links(mem0, lv0, t3, l3_index(q)));
                                    assert(lv0[t2] == 2 && t2 != l4);
                                    assert(mem2[t2] == mem0[t2]);
                                    match next_table(mem0, t2, l2_index(q)) {
                                        None => {},
                                        Some(t1) => {
                                            assert(links(mem0, lv0, t2, l2_index(q)));
                                            assert(lv0[t1] == 1 && t1 != l4);
                                            assert(mem2[t1] == mem0[t1]);
                                        },
                                    }
                                },
                            }
                        },
                    }
                }
            }
            assert forall|q: u64| l4_index(q) == idx implies huge_blocked(mem2, l4, q) by {
                assert(huge_at(mem2, l4, l4_index(q)));
            }
        }
        true
    }

    /// Looks up the frame a page is currently mapped to by walking all
    /// four levels.
    pub fn translate_page(&self, p: u64) -> (r: Option<u64>)
        requires
            self.wf(),
        ensures
            r == translate(self.mem(), self.l4(), p),
    {
        proof {
            lemma_index_bounds(p);
        }
        let i4 = ((p >> 39) & 0x1ff) as usize;
        let i3 = ((p >> 30) & 0x1ff) as usize;
        let i2 = ((p >> 21) & 0x1ff) as usize;
        let i1 = ((p >> 12) & 0x1ff) as usize;
        let e4 = self.read_entry(self.l4_addr, i4);
        if e4 & PRESENT != PRESENT || e4 & HUGE_PAGE == HUGE_PAGE {
            return None;
        }
        let t3 = e4 & ADDR_MASK;
        proof {
            assert(links(self.mem(), self.lv@, self.l4_addr, i4 as int));
        }
        let e3 = self.read_entry(t3, i3);
        if e3 & PRESENT != PRESENT || e3 & HUGE_PAGE == HUGE_PAGE {
            return None;
        }
        let t2 = e3 & ADDR_MASK;
        proof {
            assert(links(self.mem(), self.lv@, t3, i3 as int));
        }
        let e2 = self.read_entry(t2, i2);
        if e2 & PRESENT != PRESENT || e2 & HUGE_PAGE == HUGE_PAGE {
            return None;
        }
        let t1 = e2 & ADDR_MASK;
        proof {
            assert(links(self.mem(), self.lv@, t2, i2 as int));
        }
        let e1 = self.read_entry(t1, i1);
        if e1 & PRESENT != PRESENT {
            return None;
        }
        Some(e1 & ADDR_MASK)
    }
}

/// Builds one zeroed table.
fn zero_table_exec() -> (t: Vec<u64>)
    ensures
        t@ == zero_table(),
{
    let mut t: Vec<u64> = Vec::new();
    let mut i: usize = 0;
    while i < ENTRY_COUNT
        invariant
            i <= 512,
            t@ == zero_table().take(i as int),
        decreases 512 - i,
    {
        t.push(0);
        assert(t@ =~= zero_table().take(i as int + 1));
        i = i + 1;
    }
    assert(t@ =~= zero_table());
    t
}

} // verus!
