//! What an address space means, and what keeps it consistent.
use super::address::{low, VA_SPACE};
use super::frame_allocator::{FrameTracker, MemoryModel};
use super::map_area::{only_freed, pages_mapped, AreaModel, MapType};
use super::page_table::PageTableEntry;
use crate::config::{PAGE_SIZE, TRAMPOLINE};
use vstd::prelude::*;

verus! {

/// An address space: the entries of its page table, its areas, and the frame of the root
/// of its page table.
#[verifier::ext_equal]
pub struct SpaceModel {
    pub table: Map<usize, PageTableEntry>,
    pub areas: Seq<AreaModel>,
    pub root: int,
}

/// The page of the trampoline, which belongs to no area.
pub open spec fn trampoline_page() -> int {
    low(TRAMPOLINE, VA_SPACE) as int / PAGE_SIZE as int
}

/// Some area covers the page.
pub open spec fn covered(areas: Seq<AreaModel>, v: int) -> bool {
    exists|i: int| 0 <= i < areas.len() && (#[trigger] areas[i]).covers(v)
}

/// No page belongs to two areas.
pub open spec fn areas_disjoint(areas: Seq<AreaModel>) -> bool {
    forall|i: int, j: int, v: int|
        0 <= i < areas.len() && 0 <= j < areas.len() && i != j && #[trigger] areas[i].covers(v)
            ==> !#[trigger] areas[j].covers(v)
}

/// The page table maps the pages of the areas as the areas say, and no other page but the
/// trampoline.
pub open spec fn table_matches(s: SpaceModel) -> bool {
    &&& forall|i: int, k: usize|
        0 <= i < s.areas.len() && #[trigger] s.areas[i].covers(k as int) ==> s.table.contains_key(k)
            && s.table[k] == s.areas[i].entry(k)
    &&& forall|k: usize|
        #[trigger] s.table.contains_key(k) ==> k == trampoline_page() || covered(
            s.areas,
            k as int,
        )
    &&& forall|i: int| 0 <= i < s.areas.len() ==> !(#[trigger] s.areas[i]).covers(trampoline_page())
}

/// The frames of the areas are in use, no two pages share one, and none is the root.
pub open spec fn frames_match(s: SpaceModel, m: MemoryModel) -> bool {
    &&& m.in_use(s.root)
    &&& forall|i: int, k: usize|
        0 <= i < s.areas.len() && #[trigger] s.areas[i].frames.contains_key(k) ==> m.in_use(
            s.areas[i].frames[k].ppn.0 as int,
        ) && s.areas[i].frames[k].ppn.0 != s.root
    &&& forall|i: int, k: usize, j: int, h: usize|
        0 <= i < s.areas.len() && 0 <= j < s.areas.len() && (i != j || k != h)
            && #[trigger] s.areas[i].frames.contains_key(k)
            && #[trigger] s.areas[j].frames.contains_key(h) ==> s.areas[i].frames[k].ppn.0
            != s.areas[j].frames[h].ppn.0
}

impl SpaceModel {
    /// The address space is consistent with itself and with the memory.
    #[verifier::opaque]
    pub open spec fn wf(self, m: MemoryModel) -> bool {
        &&& forall|i: int| 0 <= i < self.areas.len() ==> (#[trigger] self.areas[i]).wf()
        &&& areas_disjoint(self.areas)
        &&& table_matches(self)
        &&& frames_match(self, m)
    }
}

/// What a consistent address space says of one area.
pub proof fn lemma_area(s: SpaceModel, m: MemoryModel, i: int)
    requires
        s.wf(m),
        0 <= i < s.areas.len(),
    ensures
        s.areas[i].wf(),
        !s.areas[i].covers(trampoline_page()),
        m.in_use(s.root),
        forall|k: usize|
            s.areas[i].covers(k as int) ==> #[trigger] s.table.contains_key(k) && s.table[k]
                == s.areas[i].entry(k),
        forall|k: usize|
            #[trigger] s.areas[i].frames.contains_key(k) ==> m.in_use(
                s.areas[i].frames[k].ppn.0 as int,
            ),
        forall|a: int, b: int|
            #[trigger] super::map_area::frames_ok(s.areas[i].frames, m, a, b),
{
    reveal(SpaceModel::wf);
    assert(s.areas[i].wf());
    assert forall|k: usize| s.areas[i].covers(k as int) implies #[trigger] s.table.contains_key(k)
        && s.table[k] == s.areas[i].entry(k) by {
        assert(s.areas[i].covers(k as int));
    }
    assert forall|a: int, b: int| #[trigger] super::map_area::frames_ok(
        s.areas[i].frames,
        m,
        a,
        b,
    ) by {
        let f = s.areas[i].frames;
        assert forall|k: usize, j: usize|
            a <= k < b && a <= j < b && k != j && #[trigger] f.contains_key(k)
                && #[trigger] f.contains_key(j) implies f[k].ppn.0 != f[j].ppn.0 by {
            assert(s.areas[i].frames.contains_key(k));
            assert(s.areas[i].frames.contains_key(j));
        }
    }
}

/// The consistency rests on which frames are in use, not on what is in them.
pub proof fn lemma_same_use(s: SpaceModel, m: MemoryModel, m2: MemoryModel)
    requires
        s.wf(m),
        forall|p: int| #[trigger] m.in_use(p) ==> m2.in_use(p),
    ensures
        s.wf(m2),
{
    reveal(SpaceModel::wf);
    assert forall|i: int, k: usize|
        0 <= i < s.areas.len() && #[trigger] s.areas[i].frames.contains_key(k) implies m2.in_use(
        s.areas[i].frames[k].ppn.0 as int,
    ) && s.areas[i].frames[k].ppn.0 != s.root by {
        assert(m.in_use(s.areas[i].frames[k].ppn.0 as int));
    }
}

/// Mapping a new area keeps the address space consistent.
pub proof fn lemma_push(
    s: SpaceModel,
    s2: SpaceModel,
    m: MemoryModel,
    m2: MemoryModel,
    a: AreaModel,
    a2: AreaModel,
)
    requires
        s.wf(m),
        0 <= a.l <= a.r <= usize::MAX,
        a.frames == Map::<usize, FrameTracker>::empty(),
        !a.covers(trampoline_page()),
        forall|k: usize| a.covers(k as int) ==> !#[trigger] s.table.contains_key(k),
        pages_mapped(a, a2, s.table, s2.table, m, m2, a.l, a.r),
        s2.areas == s.areas.push(a2),
        s2.root == s.root,
    ensures
        s2.wf(m2),
        a2.wf(),
{
    reveal(SpaceModel::wf);
    let n = s.areas.len() as int;
    assert(a2.wf());
    assert forall|i: int| 0 <= i < n implies s2.areas[i] == #[trigger] s.areas[i] by {}
    assert forall|i: int, v: int| 0 <= i < n && #[trigger] s.areas[i].covers(v) implies !a2.covers(
        v,
    ) by {
        assert(s.areas[i].wf());
        let k = v as usize;
        assert(s.areas[i].covers(k as int));
        assert(s.table.contains_key(k));
    }
    assert(areas_disjoint(s2.areas)) by {
        assert forall|i: int, j: int, v: int|
            0 <= i < s2.areas.len() && 0 <= j < s2.areas.len() && i != j
                && #[trigger] s2.areas[i].covers(v) implies !#[trigger] s2.areas[j].covers(v) by {
            if i < n {
                assert(s.areas[i].covers(v));
            }
            if j < n && s2.areas[j].covers(v) {
                assert(s.areas[j].covers(v));
            }
        }
    }
    assert(table_matches(s2)) by {
        assert forall|i: int, k: usize|
            0 <= i < s2.areas.len() && #[trigger] s2.areas[i].covers(k as int) implies s2.table.contains_key(
            k,
        ) && s2.table[k] == s2.areas[i].entry(k) by {
            if i < n {
                assert(s.areas[i].covers(k as int));
                assert(!a2.covers(k as int));
            }
        }
        assert forall|k: usize| #[trigger] s2.table.contains_key(k) implies k == trampoline_page()
            || covered(s2.areas, k as int) by {
            if a.l <= k < a.r {
                assert(s2.areas[n].covers(k as int));
            } else if k != trampoline_page() {
                assert(s.table.contains_key(k));
                let i = choose|i: int|
                    0 <= i < s.areas.len() && (#[trigger] s.areas[i]).covers(k as int);
                assert(s2.areas[i].covers(k as int));
            }
        }
        assert forall|i: int| 0 <= i < s2.areas.len() implies !(#[trigger] s2.areas[i]).covers(
            trampoline_page(),
        ) by {
            if i < n {
                assert(!s.areas[i].covers(trampoline_page()));
            }
        }
    }
    assert(frames_match(s2, m2)) by {
        assert forall|i: int, k: usize|
            0 <= i < s2.areas.len() && #[trigger] s2.areas[i].frames.contains_key(k) implies m2.in_use(
            s2.areas[i].frames[k].ppn.0 as int,
        ) && s2.areas[i].frames[k].ppn.0 != s2.root && (i == n ==> !m.in_use(
            s2.areas[i].frames[k].ppn.0 as int,
        )) && (i < n ==> m.in_use(s2.areas[i].frames[k].ppn.0 as int)) by {
            if i < n {
                assert(s.areas[i].frames.contains_key(k));
                assert(m.in_use(s.areas[i].frames[k].ppn.0 as int));
            } else {
                let f = a2.frames[k];
                assert(a.l <= k < a.r);
                assert(m.in_use(s.root));
            }
        }
        assert(m.in_use(s.root));
        assert forall|i: int, k: usize, j: int, h: usize|
            0 <= i < s2.areas.len() && 0 <= j < s2.areas.len() && (i != j || k != h)
                && #[trigger] s2.areas[i].frames.contains_key(k)
                && #[trigger] s2.areas[j].frames.contains_key(h) implies s2.areas[i].frames[k].ppn.0
            != s2.areas[j].frames[h].ppn.0 by {
            if i < n && j < n {
                assert(s.areas[i].frames.contains_key(k));
                assert(s.areas[j].frames.contains_key(h));
            } else if i == n && j == n {
                let f = a2.frames[k];
                let g = a2.frames[h];
                assert(a.l <= k < a.r && a.l <= h < a.r);
                assert(k < h || h < k);
            }
        }
    }
}

/// One area is a piece of another: fewer pages, with the same frames and permissions.
pub open spec fn piece_of(p: AreaModel, a: AreaModel) -> bool {
    &&& a.l <= p.l <= p.r <= a.r
    &&& p.map_type == a.map_type
    &&& p.perm == a.perm
    &&& forall|k: usize|
        #[trigger] p.frames.contains_key(k) <==> a.frames.contains_key(k) && p.covers(k as int)
    &&& forall|k: usize| #[trigger] p.frames.contains_key(k) ==> p.frames[k] == a.frames[k]
}

/// A piece is well formed, and its pages have the entries that they had.
pub proof fn lemma_piece(p: AreaModel, a: AreaModel)
    requires
        a.wf(),
        piece_of(p, a),
    ensures
        p.wf(),
        forall|k: usize| p.covers(k as int) ==> #[trigger] p.entry(k) == a.entry(k),
{
    assert forall|k: usize| p.covers(k as int) implies #[trigger] p.entry(k) == a.entry(k) by {
        assert(p.frames.contains_key(k) <==> a.frames.contains_key(k) && p.covers(k as int));
    }
}

/// The address space after the pages from `a` to `b` were taken from area `i`, so that
/// two pieces of it are left: one before and one behind these pages. The first stands in
/// its place; the second, if `split`, at the end.
pub proof fn lemma_cut(
    s: SpaceModel,
    s2: SpaceModel,
    m: MemoryModel,
    m2: MemoryModel,
    i: int,
    a: int,
    b: int,
    left: AreaModel,
    right: AreaModel,
    split: bool,
)
    requires
        s.wf(m),
        0 <= i < s.areas.len(),
        s.areas[i].l <= a <= b <= s.areas[i].r,
        piece_of(left, s.areas[i]),
        forall|v: int|
            #[trigger] left.covers(v) ==> s.areas[i].covers(v) && !(a <= v < b),
        split ==> piece_of(right, s.areas[i]),
        split ==> forall|v: int|
            #[trigger] right.covers(v) ==> s.areas[i].covers(v) && !(a <= v < b) && !left.covers(v),
        forall|v: int|
            #[trigger] s.areas[i].covers(v) && !(a <= v < b) ==> left.covers(v) || (split
                && right.covers(v)),
        s2.areas == if split {
            s.areas.update(i, left).push(right)
        } else {
            s.areas.update(i, left)
        },
        s2.root == s.root,
        forall|k: usize|
            #[trigger] s2.table.contains_key(k) <==> s.table.contains_key(k) && !(a <= k < b),
        forall|k: usize| #[trigger] s2.table.contains_key(k) ==> s2.table[k] == s.table[k],
        only_freed(m, m2),
        forall|p: int|
            #[trigger] m.in_use(p) && (forall|k: usize|
                a <= k < b && #[trigger] s.areas[i].frames.contains_key(k)
                    ==> s.areas[i].frames[k].ppn.0 != p) ==> m2.in_use(p),
    ensures
        s2.wf(m2),
{
    reveal(SpaceModel::wf);
    let ai = s.areas[i];
    let n = s.areas.len() as int;
    assert(ai.wf());
    lemma_piece(left, ai);
    if split {
        lemma_piece(right, ai);
    }
    // every area of the new list is a piece of an area of the old one
    let from = |j: int| if j < n {
        j
    } else {
        i
    };
    assert forall|j: int| 0 <= j < s2.areas.len() implies piece_of(
        #[trigger] s2.areas[j],
        s.areas[from(j)],
    ) && s2.areas[j].wf() && (j != i && j < n ==> s2.areas[j] == s.areas[j]) by {
        if j < n && j != i {
            assert(s.areas[j].wf());
        }
    }
    assert forall|j: int, v: int| 0 <= j < s2.areas.len() && #[trigger] s2.areas[j].covers(v) implies
        s.areas[from(j)].covers(v) && !(a <= v < b && 0 <= v <= usize::MAX) by {
        if j == i {
            assert(left.covers(v));
        } else if j == n {
            assert(right.covers(v));
        } else {
            assert(s.areas[j].covers(v));
            if a <= v < b {
                assert(ai.covers(v));
            }
        }
    }
    assert(areas_disjoint(s2.areas)) by {
        assert forall|j: int, h: int, v: int|
            0 <= j < s2.areas.len() && 0 <= h < s2.areas.len() && j != h
                && #[trigger] s2.areas[j].covers(v) implies !#[trigger] s2.areas[h].covers(v) by {
            if s2.areas[h].covers(v) {
                assert(s.areas[from(j)].covers(v));
                assert(s.areas[from(h)].covers(v));
                assert(from(j) == from(h));
                if j == i {
                    assert(right.covers(v));
                } else {
                    assert(left.covers(v));
                }
            }
        }
    }
    assert(table_matches(s2)) by {
        assert forall|j: int, k: usize|
            0 <= j < s2.areas.len() && #[trigger] s2.areas[j].covers(k as int) implies s2.table.contains_key(
            k,
        ) && s2.table[k] == s2.areas[j].entry(k) by {
            assert(s.areas[from(j)].covers(k as int));
            assert(s.table.contains_key(k));
            assert(s2.table.contains_key(k));
            if j == i {
                assert(left.entry(k) == ai.entry(k));
            } else if j == n {
                assert(right.entry(k) == ai.entry(k));
            }
        }
        assert forall|k: usize| #[trigger] s2.table.contains_key(k) implies k == trampoline_page()
            || covered(s2.areas, k as int) by {
            if k != trampoline_page() {
                assert(s.table.contains_key(k));
                let j = choose|j: int|
                    0 <= j < s.areas.len() && (#[trigger] s.areas[j]).covers(k as int);
                if j != i {
                    assert(s2.areas[j].covers(k as int));
                } else {
                    assert(ai.covers(k as int));
                    if left.covers(k as int) {
                        assert(s2.areas[i].covers(k as int));
                    } else {
                        assert(s2.areas[n].covers(k as int));
                    }
                }
            }
        }
        assert forall|j: int| 0 <= j < s2.areas.len() implies !(#[trigger] s2.areas[j]).covers(
            trampoline_page(),
        ) by {
            if s2.areas[j].covers(trampoline_page()) {
                assert(s.areas[from(j)].covers(trampoline_page()));
            }
        }
    }
    assert(frames_match(s2, m2)) by {
        assert forall|j: int, k: usize|
            0 <= j < s2.areas.len() && #[trigger] s2.areas[j].frames.contains_key(k) implies
            s.areas[from(j)].frames.contains_key(k) && s2.areas[j].frames[k]
            == s.areas[from(j)].frames[k] && s2.areas[j].covers(k as int) by {
            assert(piece_of(s2.areas[j], s.areas[from(j)]));
        }
        assert forall|j: int, k: usize|
            0 <= j < s2.areas.len() && #[trigger] s2.areas[j].frames.contains_key(k) implies m2.in_use(
            s2.areas[j].frames[k].ppn.0 as int,
        ) && s2.areas[j].frames[k].ppn.0 != s2.root by {
            let p = s2.areas[j].frames[k].ppn.0 as int;
            assert(s.areas[from(j)].frames.contains_key(k));
            assert(m.in_use(p));
            assert(s2.areas[j].covers(k as int));
            assert forall|h: usize| a <= h < b && #[trigger] ai.frames.contains_key(h) implies ai.frames[h].ppn.0
                != p by {
                assert(s.areas[i].frames.contains_key(h));
            }
        }
        assert(m.in_use(s.root));
        assert forall|h: usize| a <= h < b && #[trigger] ai.frames.contains_key(h) implies ai.frames[h].ppn.0
            != s.root by {
            assert(s.areas[i].frames.contains_key(h));
        }
        assert(m2.in_use(s2.root));
        assert forall|j: int, k: usize, j2: int, h: usize|
            0 <= j < s2.areas.len() && 0 <= j2 < s2.areas.len() && (j != j2 || k != h)
                && #[trigger] s2.areas[j].frames.contains_key(k)
                && #[trigger] s2.areas[j2].frames.contains_key(h) implies s2.areas[j].frames[k].ppn.0
            != s2.areas[j2].frames[h].ppn.0 by {
            assert(s.areas[from(j)].frames.contains_key(k));
            assert(s.areas[from(j2)].frames.contains_key(h));
            if from(j) == from(j2) && k == h {
                assert(s2.areas[j].covers(k as int));
                assert(s2.areas[j2].covers(k as int));
                assert(j != j2);
            }
        }
    }
}

/// Removing an area without pages keeps the address space consistent.
pub proof fn lemma_remove_empty(s: SpaceModel, s2: SpaceModel, m: MemoryModel, i: int)
    requires
        s.wf(m),
        0 <= i < s.areas.len(),
        s.areas[i].l == s.areas[i].r,
        s2.areas == s.areas.remove(i),
        s2.table == s.table,
        s2.root == s.root,
    ensures
        s2.wf(m),
{
    reveal(SpaceModel::wf);
    let from = |j: int| if j < i {
        j
    } else {
        j + 1
    };
    assert forall|j: int| 0 <= j < s2.areas.len() implies #[trigger] s2.areas[j] == s.areas[from(
        j,
    )] by {}
    assert forall|j: int| 0 <= j < s2.areas.len() implies (#[trigger] s2.areas[j]).wf() by {
        assert(s.areas[from(j)].wf());
    }
    assert(areas_disjoint(s2.areas)) by {
        assert forall|j: int, h: int, v: int|
            0 <= j < s2.areas.len() && 0 <= h < s2.areas.len() && j != h
                && #[trigger] s2.areas[j].covers(v) implies !#[trigger] s2.areas[h].covers(v) by {
            assert(s.areas[from(j)].covers(v));
            assert(!s.areas[from(h)].covers(v));
        }
    }
    assert(table_matches(s2)) by {
        assert forall|j: int, k: usize|
            0 <= j < s2.areas.len() && #[trigger] s2.areas[j].covers(k as int) implies s2.table.contains_key(
            k,
        ) && s2.table[k] == s2.areas[j].entry(k) by {
            assert(s.areas[from(j)].covers(k as int));
        }
        assert forall|k: usize| #[trigger] s2.table.contains_key(k) implies k == trampoline_page()
            || covered(s2.areas, k as int) by {
            if k != trampoline_page() {
                let j = choose|j: int|
                    0 <= j < s.areas.len() && (#[trigger] s.areas[j]).covers(k as int);
                let h = if j < i {
                    j
                } else {
                    j - 1
                };
                assert(s2.areas[h].covers(k as int));
            }
        }
        assert forall|j: int| 0 <= j < s2.areas.len() implies !(#[trigger] s2.areas[j]).covers(
            trampoline_page(),
        ) by {
            assert(!s.areas[from(j)].covers(trampoline_page()));
        }
    }
    assert(frames_match(s2, m)) by {
        assert forall|j: int, k: usize|
            0 <= j < s2.areas.len() && #[trigger] s2.areas[j].frames.contains_key(k) implies m.in_use(
            s2.areas[j].frames[k].ppn.0 as int,
        ) && s2.areas[j].frames[k].ppn.0 != s2.root by {
            assert(s.areas[from(j)].frames.contains_key(k));
        }
        assert forall|j: int, k: usize, j2: int, h: usize|
            0 <= j < s2.areas.len() && 0 <= j2 < s2.areas.len() && (j != j2 || k != h)
                && #[trigger] s2.areas[j].frames.contains_key(k)
                && #[trigger] s2.areas[j2].frames.contains_key(h) implies s2.areas[j].frames[k].ppn.0
            != s2.areas[j2].frames[h].ppn.0 by {
            assert(s.areas[from(j)].frames.contains_key(k));
            assert(s.areas[from(j2)].frames.contains_key(h));
        }
    }
}

/// The pages from `lo` to `hi` are not mapped, and the trampoline is not among them.
pub open spec fn pages_free(s: SpaceModel, lo: int, hi: int) -> bool {
    forall|k: usize|
        lo <= k < hi ==> !#[trigger] s.table.contains_key(k) && k != trampoline_page()
}

/// Mapping more pages behind the end of area `i` keeps the address space consistent.
pub proof fn lemma_extend(
    s: SpaceModel,
    s2: SpaceModel,
    m: MemoryModel,
    m2: MemoryModel,
    i: int,
    a2: AreaModel,
    new_end: int,
)
    requires
        s.wf(m),
        0 <= i < s.areas.len(),
        s.areas[i].r <= new_end <= usize::MAX,
        pages_free(s, s.areas[i].r, new_end),
        pages_mapped(
            s.areas[i],
            AreaModel { r: s.areas[i].r, ..a2 },
            s.table,
            s2.table,
            m,
            m2,
            s.areas[i].r,
            new_end,
        ),
        a2.r == new_end,
        s2.areas == s.areas.update(i, a2),
        s2.root == s.root,
    ensures
        s2.wf(m2),
        a2.wf(),
{
    reveal(SpaceModel::wf);
    let ai = s.areas[i];
    let am = AreaModel { r: ai.r, ..a2 };
    assert(ai.wf());
    assert(!ai.covers(trampoline_page()));
    assert(a2.wf()) by {
        assert forall|k: usize|
            #[trigger] a2.frames.contains_key(k) <==> a2.map_type == MapType::Framed && a2.covers(
                k as int,
            ) by {
            assert(am.frames.contains_key(k) == a2.frames.contains_key(k));
            assert(ai.frames.contains_key(k) <==> ai.map_type == MapType::Framed && ai.covers(k as int));
        }
    }
    assert forall|k: usize| #[trigger] a2.entry(k) == am.entry(k) by {}
    assert forall|k: usize| ai.covers(k as int) implies #[trigger] a2.entry(k) == ai.entry(k) by {
        if ai.map_type == MapType::Framed {
            assert(ai.frames.contains_key(k));
            assert(am.frames[k] == ai.frames[k]);
        }
    }
    assert forall|j: int, v: int| 0 <= j < s.areas.len() && j != i && #[trigger] s.areas[j].covers(
        v,
    ) implies !a2.covers(v) by {
        assert(s.areas[j].wf());
        let k = v as usize;
        assert(s.areas[j].covers(k as int));
        assert(s.table.contains_key(k));
        if ai.covers(v) {
            assert(!s.areas[j].covers(v));
        }
    }
    assert(areas_disjoint(s2.areas)) by {
        assert forall|j: int, h: int, v: int|
            0 <= j < s2.areas.len() && 0 <= h < s2.areas.len() && j != h
                && #[trigger] s2.areas[j].covers(v) implies !#[trigger] s2.areas[h].covers(v) by {
            if s2.areas[h].covers(v) {
                if j != i {
                    assert(s.areas[j].covers(v));
                }
                if h != i {
                    assert(s.areas[h].covers(v));
                }
            }
        }
    }
    assert(table_matches(s2)) by {
        assert forall|j: int, k: usize|
            0 <= j < s2.areas.len() && #[trigger] s2.areas[j].covers(k as int) implies s2.table.contains_key(
            k,
        ) && s2.table[k] == s2.areas[j].entry(k) by {
            if j != i {
                assert(s.areas[j].covers(k as int));
                assert(s.table.contains_key(k));
                assert(!a2.covers(k as int));
            } else if ai.covers(k as int) {
                assert(s.areas[i].covers(k as int));
                assert(s.table.contains_key(k));
            }
            assert(s2.table.contains_key(k));
            assert(am.l == ai.l);
        }
        assert forall|k: usize| #[trigger] s2.table.contains_key(k) implies k == trampoline_page()
            || covered(s2.areas, k as int) by {
            if ai.r <= k < new_end {
                assert(s2.areas[i].covers(k as int));
            } else if k != trampoline_page() {
                assert(s.table.contains_key(k));
                let j = choose|j: int|
                    0 <= j < s.areas.len() && (#[trigger] s.areas[j]).covers(k as int);
                assert(s2.areas[j].covers(k as int));
            }
        }
        assert forall|j: int| 0 <= j < s2.areas.len() implies !(#[trigger] s2.areas[j]).covers(
            trampoline_page(),
        ) by {
            assert(!s.areas[j].covers(trampoline_page()));
            if j == i && a2.covers(trampoline_page()) {
                let k = trampoline_page() as usize;
                assert(am.l == ai.l);
                assert(ai.r <= k < new_end);
                assert(!s.table.contains_key(k));
                assert(k != trampoline_page());
            }
        }
    }
    assert(frames_match(s2, m2)) by {
        assert forall|j: int, k: usize|
            0 <= j < s2.areas.len() && #[trigger] s2.areas[j].frames.contains_key(k) implies {
            let p = s2.areas[j].frames[k].ppn.0 as int;
            let new = j == i && ai.r <= k < new_end;
            &&& m2.in_use(p)
            &&& p != s2.root
            &&& new ==> !m.in_use(p)
            &&& !new ==> s.areas[j].frames.contains_key(k) && s2.areas[j].frames[k]
                == s.areas[j].frames[k] && m.in_use(p)
        } by {
            assert(m.in_use(s.root));
            if j == i && ai.r <= k < new_end {
                let f = am.frames[k];
            } else {
                if j == i {
                    assert(am.frames.contains_key(k));
                    assert(am.frames[k] == ai.frames[k]);
                }
                assert(s.areas[j].frames.contains_key(k));
                assert(m.in_use(s.areas[j].frames[k].ppn.0 as int));
            }
        }
        assert(m.in_use(s.root));
        assert forall|j: int, k: usize, j2: int, h: usize|
            0 <= j < s2.areas.len() && 0 <= j2 < s2.areas.len() && (j != j2 || k != h)
                && #[trigger] s2.areas[j].frames.contains_key(k)
                && #[trigger] s2.areas[j2].frames.contains_key(h) implies s2.areas[j].frames[k].ppn.0
            != s2.areas[j2].frames[h].ppn.0 by {
            let new = j == i && ai.r <= k < new_end;
            let new2 = j2 == i && ai.r <= h < new_end;
            if new && new2 {
                let f = am.frames[k];
                let g = am.frames[h];
                assert(k < h || h < k);
            } else if !new && !new2 {
                assert(s.areas[j].frames.contains_key(k));
                assert(s.areas[j2].frames.contains_key(h));
            }
        }
    }
}

} // verus!
