//! A dense voxel grid of 16 × 100 × 16 cells, the world snapshot the demo
//! edits. It stores one block value per cell, remembers which coordinates the
//! latest batch of edits changed, and answers the mesh builder's snapshot
//! queries: block appearance (a fully transparent sentinel outside the grid),
//! the changed set as a membership test, and the changed set as a list.

use crate::terrain::{
    coord_interior, cv, BlockModel, IntCoord, TextureId, WorldInterface,
};
use vstd::prelude::*;

verus! {

/// The grid spans `0 <= x < 16`, `0 <= y < 100`, `0 <= z < 16`.
pub open spec fn in_chunk(c: (int, int, int)) -> bool {
    &&& 0 <= c.0 < 16
    &&& 0 <= c.1 < 100
    &&& 0 <= c.2 < 16
}

/// The flat storage index of an in-grid cell: a row per `x`, a layer per `y`.
pub open spec fn chunk_index(c: (int, int, int)) -> int {
    c.1 * 256 + c.0 * 16 + c.2
}

/// The mathematical value of an unsigned coordinate triple.
pub open spec fn ucv(a: [usize; 3]) -> (int, int, int) {
    (a[0] as int, a[1] as int, a[2] as int)
}

/// The unsigned triple addresses a cell of the grid.
pub open spec fn ucoord_in_chunk(a: [usize; 3]) -> bool {
    in_chunk(ucv(a))
}

/// The appearance of block value `v` in direction `d`: value `0` is air,
/// values `1` and `2` are solid blocks textured all around with their own
/// value, and any other value is treated as air.
pub open spec fn block_face_of(v: u32, d: int) -> Option<TextureId> {
    if v == 1 {
        Some(TextureId::spec_of(1))
    } else if v == 2 {
        Some(TextureId::spec_of(2))
    } else {
        None
    }
}

/// The integer coordinates of a sequence of cell coordinates.
pub open spec fn coords_view(s: Seq<IntCoord>) -> Seq<(int, int, int)> {
    s.map_values(|ic: IntCoord| cv(ic.0))
}

/// The grid contents after the writes of `list`, applied in order.
pub open spec fn apply_writes(data: Seq<u32>, list: Seq<([usize; 3], u32)>) -> Seq<u32>
    decreases list.len(),
{
    if list.len() == 0 {
        data
    } else {
        apply_writes(data, list.drop_last()).update(
            chunk_index(ucv(list.last().0)),
            list.last().1,
        )
    }
}

/// The coordinates that the writes of `list` actually change at the moment
/// they are applied: a write of the value already present changes nothing.
pub open spec fn writes_changed(data: Seq<u32>, list: Seq<([usize; 3], u32)>) -> Set<
    (int, int, int),
>
    decreases list.len(),
{
    if list.len() == 0 {
        Set::empty()
    } else {
        let prev = writes_changed(data, list.drop_last());
        if apply_writes(data, list.drop_last())[chunk_index(ucv(list.last().0))] != list.last().1 {
            prev.insert(ucv(list.last().0))
        } else {
            prev
        }
    }
}

/// A dense 16 × 100 × 16 voxel grid with the changed set of its latest batch
/// of edits.
pub struct SimpleChunk {
    data: Vec<u32>,
    updated: Vec<IntCoord>,
}

impl SimpleChunk {
    /// The stored block values, one per cell, in storage-index order.
    pub closed spec fn data_view(self) -> Seq<u32> {
        self.data@
    }

    /// The changed coordinates of the latest batch, in recording order.
    pub closed spec fn updated_view(self) -> Seq<(int, int, int)> {
        coords_view(self.updated@)
    }

    /// The block value at a cell; zero (air) outside the grid.
    pub open spec fn block_val(self, c: (int, int, int)) -> u32 {
        if in_chunk(c) {
            self.data_view()[chunk_index(c)]
        } else {
            0
        }
    }

    /// One value per cell; the changed list names in-grid cells, each once.
    pub open spec fn wf(self) -> bool {
        &&& self.data_view().len() == 25600
        &&& self.updated_view().no_duplicates()
        &&& forall|p: int|
            0 <= p < self.updated_view().len() ==> in_chunk(#[trigger] self.updated_view()[p])
    }

    /// An all-air grid with an empty changed set.
    pub fn new() -> (r: SimpleChunk)
        ensures
            r.wf(),
            r.data_view() == Seq::new(25600, |i: int| 0u32),
            r.updated_view() == Seq::<(int, int, int)>::empty(),
    {
        let data = vec![0u32; 25600];
        let r = SimpleChunk { data, updated: Vec::new() };
        proof {
            assert(r.data_view() =~= Seq::new(25600, |i: int| 0u32));
            assert(r.updated_view() =~= Seq::<(int, int, int)>::empty());
        }
        r
    }

    /// The storage index of an in-grid cell.
    fn index(coord: &[usize; 3]) -> (r: usize)
        requires
            ucoord_in_chunk(*coord),
        ensures
            r == chunk_index(ucv(*coord)),
            r < 25600,
    {
        coord[1] * 16 * 16 + coord[0] * 16 + coord[2]
    }

    /// The block value stored at an in-grid cell.
    pub fn get(&self, coord: &[usize; 3]) -> (r: u32)
        requires
            self.wf(),
            ucoord_in_chunk(*coord),
        ensures
            r == self.block_val(ucv(*coord)),
    {
        let idx = Self::index(coord);
        self.data[idx]
    }

    /// A mutable handle on the block value stored at an in-grid cell. Writing
    /// through it does not record the cell as changed: `update` is the edit
    /// entry point that maintains the changed set.
    pub fn get_mut(&mut self, coord: &[usize; 3]) -> (r: &mut u32)
        requires
            old(self).wf(),
            ucoord_in_chunk(*coord),
        ensures
            *r == old(self).data_view()[chunk_index(ucv(*coord))],
            final(self).data_view() == old(self).data_view().update(
                chunk_index(ucv(*coord)),
                *final(r),
            ),
            final(self).updated_view() == old(self).updated_view(),
            final(self).wf(),
    {
        let idx = Self::index(coord);
        &mut self.data[idx]
    }

    /// Applies a batch of edits: writes each listed value in order and records
    /// the set of coordinates whose stored value a write changed, replacing
    /// the previous batch's changed set.
    #[verifier::loop_isolation(false)]
    pub fn update(&mut self, list: &[([usize; 3], u32)])
        requires
            old(self).wf(),
            forall|k: int| 0 <= k < list@.len() ==> ucoord_in_chunk((#[trigger] list@[k]).0),
        ensures
            final(self).wf(),
            final(self).data_view() == apply_writes(old(self).data_view(), list@),
            final(self).updated_view().to_set() == writes_changed(old(self).data_view(), list@),
            final(self).updated_view().len() <= list@.len(),
    {
        let ghost old_data: Seq<u32> = self.data@;
        let mut updated: Vec<IntCoord> = Vec::new();
        proof {
            assert(self.data@ =~= apply_writes(old_data, list@.take(0)));
            assert(coords_view(updated@) =~= Seq::<(int, int, int)>::empty());
            assert(coords_view(updated@).to_set() =~= writes_changed(old_data, list@.take(0)));
        }
        let mut k: usize = 0;
        while k < list.len()
            invariant
                k <= list@.len(),
                updated@.len() <= k,
                self.data@.len() == 25600,
                self.updated == old(self).updated,
                self.data@ == apply_writes(old_data, list@.take(k as int)),
                coords_view(updated@).to_set() == writes_changed(old_data, list@.take(k as int)),
                coords_view(updated@).no_duplicates(),
                forall|p: int|
                    0 <= p < coords_view(updated@).len() ==> in_chunk(
                        #[trigger] coords_view(updated@)[p],
                    ),
            decreases list@.len() - k,
        {
            let (coord, v) = list[k];
            let ghost c: (int, int, int) = ucv(coord);
            proof {
                assert(ucoord_in_chunk((list@[k as int]).0));
            }
            let idx = Self::index(&coord);
            let cur = self.data[idx];
            proof {
                assert(list@.take(k + 1).drop_last() =~= list@.take(k as int));
                assert(list@.take(k + 1).last() == list@[k as int]);
            }
            if cur != v {
                self.data[idx] = v;
                let ic = IntCoord([coord[0] as i32, coord[1] as i32, coord[2] as i32]);
                proof {
                    assert(cv(ic.0) == c);
                }
                let present = contains_coord(&updated, &ic);
                let ghost before: Seq<IntCoord> = updated@;
                if !present {
                    updated.push(ic);
                    proof {
                        assert(coords_view(updated@) =~= coords_view(before).push(c));
                        assert forall|x: (int, int, int)|
                            coords_view(updated@).to_set().contains(x) == coords_view(
                                before,
                            ).to_set().insert(c).contains(x) by {
                            let s0 = coords_view(before);
                            let s1 = coords_view(updated@);
                            if s1.contains(x) {
                                let p = choose|p: int| 0 <= p < s1.len() && s1[p] == x;
                                if p < s0.len() {
                                    assert(s0[p] == x);
                                    assert(s0.contains(x));
                                } else {
                                    assert(x == c);
                                }
                            }
                            if s0.contains(x) {
                                let p = choose|p: int| 0 <= p < s0.len() && s0[p] == x;
                                assert(s1[p] == x);
                                assert(s1.contains(x));
                            }
                            if x == c {
                                assert(s1[s0.len() as int] == c);
                                assert(s1.contains(c));
                            }
                        }
                        assert(coords_view(updated@).to_set() =~= coords_view(
                            before,
                        ).to_set().insert(c));
                        assert forall|p: int| 0 <= p < coords_view(updated@).len() implies in_chunk(
                            #[trigger] coords_view(updated@)[p],
                        ) by {
                            if p < coords_view(before).len() {
                                assert(coords_view(updated@)[p] == coords_view(before)[p]);
                            }
                        }
                        assert(coords_view(updated@).no_duplicates()) by {
                            assert forall|p1: int, p2: int|
                                0 <= p1 < p2 < coords_view(updated@).len() implies coords_view(
                                updated@,
                            )[p1] != coords_view(updated@)[p2] by {
                                if p2 == coords_view(before).len() {
                                    assert(!coords_view(before).contains(c));
                                    assert(coords_view(updated@)[p1] == coords_view(before)[p1]);
                                }
                            }
                        }
                    }
                } else {
                    // the coordinate is already recorded: the changed set
                    // gains nothing
                    proof {
                        assert(coords_view(before).to_set().contains(c));
                        assert(coords_view(updated@).to_set() =~= coords_view(
                            before,
                        ).to_set().insert(c));
                    }
                }
                proof {
                    assert(self.data@ =~= apply_writes(old_data, list@.take(k + 1)));
                }
            } else {
                proof {
                    assert(self.data@ =~= apply_writes(old_data, list@.take(k + 1)));
                    assert(coords_view(updated@).to_set() =~= writes_changed(
                        old_data,
                        list@.take(k + 1),
                    ));
                }
            }
            k = k + 1;
        }
        self.updated = updated;
        proof {
            assert(list@.take(list@.len() as int) =~= list@);
        }
    }
}

/// Whether the list already holds a coordinate with the same cell value.
#[verifier::loop_isolation(false)]
fn contains_coord(v: &Vec<IntCoord>, c: &IntCoord) -> (r: bool)
    ensures
        r == coords_view(v@).contains(cv(c.0)),
{
    let mut k: usize = 0;
    while k < v.len()
        invariant
            k <= v@.len(),
            forall|p: int| 0 <= p < k ==> coords_view(v@)[p] != cv(c.0),
        decreases v@.len() - k,
    {
        let e = &v[k];
        if e.0[0] == c.0[0] && e.0[1] == c.0[1] && e.0[2] == c.0[2] {
            proof {
                assert(coords_view(v@)[k as int] == cv(c.0));
            }
            return true;
        }
        k = k + 1;
    }
    proof {
        if coords_view(v@).contains(cv(c.0)) {
            let p = choose|p: int|
                0 <= p < coords_view(v@).len() && coords_view(v@)[p] == cv(c.0);
            assert(false);
        }
    }
    false
}

impl WorldInterface for SimpleChunk {
    /// A snapshot is valid when its grid and changed list are.
    open spec fn inv(&self) -> bool {
        self.wf()
    }

    /// The appearance model: each cell shows the faces of its block value,
    /// with air outside the grid.
    open spec fn spec_face(&self, c: (int, int, int), d: int) -> Option<TextureId> {
        block_face_of(self.block_val(c), d)
    }

    open spec fn changed(&self) -> Set<(int, int, int)> {
        self.updated_view().to_set()
    }

    open spec fn changed_list(&self) -> Seq<(int, int, int)> {
        self.updated_view()
    }

    proof fn lemma_changed_consistent(&self) {
    }

    proof fn lemma_textures_nonzero(&self, c: (int, int, int), d: int) {
        crate::terrain::lemma_texture_id_val(1);
        crate::terrain::lemma_texture_id_val(2);
    }

    fn get_block(&self, coord: &IntCoord) -> (r: BlockModel) {
        let a = coord.0;
        let v: u32 = if a[0] >= 0 && a[0] < 16 && a[1] >= 0 && a[1] < 100 && a[2] >= 0 && a[2]
            < 16 {
            let u = [a[0] as usize, a[1] as usize, a[2] as usize];
            let idx = Self::index(&u);
            self.data[idx]
        } else {
            0
        };
        proof {
            assert(v == self.block_val(cv(coord.0)));
        }
        let face: Option<TextureId> = if v == 1 {
            TextureId::new(1)
        } else if v == 2 {
            TextureId::new(2)
        } else {
            None
        };
        let r = BlockModel { faces: [face, face, face, face, face, face] };
        proof {
            assert forall|d: int| 0 <= d < 6 implies r.faces@[d] == self.spec_face(
                cv(coord.0),
                d,
            ) by {
                assert(r.faces@[d] == face);
            }
        }
        r
    }

    fn is_updated(&self, coord: &IntCoord) -> (r: bool) {
        contains_coord(&self.updated, coord)
    }

    fn get_updated_block_coords(&self) -> (r: &[IntCoord]) {
        self.updated.as_slice()
    }
}

/// Every changed coordinate of a valid chunk lies strictly inside the
/// representable coordinate range, as the mesh builder's update requires.
pub proof fn lemma_chunk_changed_interior(chunk: &SimpleChunk)
    requires
        chunk.wf(),
    ensures
        forall|p: int|
            0 <= p < chunk.changed_list().len() ==> coord_interior(
                #[trigger] chunk.changed_list()[p],
            ),
{
}

} // verus!
