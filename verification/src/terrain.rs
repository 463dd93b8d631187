//! The face-culling mesh builder: coordinate and direction algebra, block
//! appearance, and the incrementally updated scene of visible faces.

use vstd::prelude::*;

verus! {

/// One of the six axis-aligned face directions of a voxel cell.
///
/// The value `d` indexes axis `d >> 1` and carries the sign in bit `d & 1`
/// (`0` = negative, `1` = positive). Only the values `0..6` denote directions;
/// this convention is load-bearing for the neighbor-offset computation.
#[derive(Clone, Copy, PartialEq, Eq, Structural)]
pub struct Direction(pub u8);

impl Direction {
    /// The direction denotes one of the six faces.
    pub open spec fn is_valid(self) -> bool {
        self.0 < 6
    }

    /// Flips the sign bit only; the axis is unchanged.
    pub fn opposite(self) -> (r: Self)
        ensures
            r.0 == self.0 ^ 1,
            self.is_valid() ==> r.is_valid(),
            (r.0 ^ 1) == self.0,
    {
        proof {
            lemma_direction_bits(self.0);
        }
        Self(self.0 ^ 1)
    }
}

/// Bit-level facts about a direction's axis and sign bits.
pub proof fn lemma_direction_bits(d: u8)
    ensures
        ((d ^ 1) ^ 1) == d,
        (d ^ 1) >> 1 == d >> 1,
        d < 6 ==> (d ^ 1) < 6,
        (d ^ 1) & 1 == 1 - (d & 1),
        d & 1 < 2,
        d < 6 ==> d >> 1 < 3,
        ((d & 1) << 1) == 2 * (d & 1),
        d < 6 ==> (d ^ 1) != d,
{
    assert(((d ^ 1) ^ 1) == d && (d ^ 1) >> 1 == d >> 1 && (d < 6 ==> (d ^ 1) < 6)
        && (d ^ 1) & 1 == 1 - (d & 1) && d & 1 < 2 && (d < 6 ==> d >> 1 < 3)
        && ((d & 1) << 1) == 2 * (d & 1) && (d < 6 ==> (d ^ 1) != d)) by (bit_vector);
}

/// An integer coordinate of a unit voxel cell.
#[derive(Clone, Copy)]
pub struct IntCoord(pub [i32; 3]);

/// The mathematical value of a coordinate, free of machine bounds.
pub open spec fn cv(a: [i32; 3]) -> (int, int, int) {
    (a[0] as int, a[1] as int, a[2] as int)
}

/// Every component fits in a 32-bit signed integer.
pub open spec fn coord_in_range(c: (int, int, int)) -> bool {
    &&& i32::MIN <= c.0 <= i32::MAX
    &&& i32::MIN <= c.1 <= i32::MAX
    &&& i32::MIN <= c.2 <= i32::MAX
}

/// Every component is strictly inside the 32-bit range, so every one of the
/// six neighbors is representable.
pub open spec fn coord_interior(c: (int, int, int)) -> bool {
    &&& i32::MIN < c.0 < i32::MAX
    &&& i32::MIN < c.1 < i32::MAX
    &&& i32::MIN < c.2 < i32::MAX
}

/// The neighbor of `c` one unit along direction `d`: axis `d >> 1` moves by
/// `-1` when the sign bit is `0` and by `+1` when it is `1`.
pub open spec fn next_of(c: (int, int, int), d: u8) -> (int, int, int) {
    let delta = 2 * ((d & 1) as int) - 1;
    if d >> 1 == 0 {
        (c.0 + delta, c.1, c.2)
    } else if d >> 1 == 1 {
        (c.0, c.1 + delta, c.2)
    } else {
        (c.0, c.1, c.2 + delta)
    }
}

/// Stepping to the neighbor and back along the opposite direction returns to
/// the starting cell.
pub proof fn lemma_next_involution(c: (int, int, int), d: u8)
    requires
        d < 6,
    ensures
        next_of(next_of(c, d), d ^ 1) == c,
        next_of(c, d) != c,
{
    lemma_direction_bits(d);
}

/// An interior coordinate has all six neighbors representable.
pub proof fn lemma_interior_next_in_range(c: (int, int, int), d: u8)
    requires
        d < 6,
        coord_interior(c),
    ensures
        coord_in_range(next_of(c, d)),
{
    lemma_direction_bits(d);
}

impl IntCoord {
    /// The coordinate offset by exactly one unit along `direction`'s axis, in
    /// `direction`'s sign.
    pub fn next(&self, direction: Direction) -> (r: Self)
        requires
            direction.is_valid(),
            coord_in_range(next_of(cv(self.0), direction.0)),
        ensures
            cv(r.0) == next_of(cv(self.0), direction.0),
    {
        proof {
            lemma_direction_bits(direction.0);
        }
        let axis: usize = (direction.0 >> 1) as usize;
        let delta: i32 = (((direction.0 & 1) << 1) as i32) - 1;
        let mut next = self.0;
        next[axis] = next[axis] + delta;
        assert(cv(next) == next_of(cv(self.0), direction.0));
        Self(next)
    }
}

/// A texture identifier: a small positive integer. Zero is reserved and never
/// denotes a texture.
#[derive(Clone, Copy, PartialEq, Eq, Structural)]
pub struct TextureId(u8);

impl TextureId {
    /// The numeric value of the identifier; never zero for a constructed id.
    pub closed spec fn val(self) -> u8 {
        self.0
    }

    /// The identifier with numeric value `v`, for specifications.
    pub closed spec fn spec_of(v: u8) -> TextureId {
        TextureId(v)
    }

    /// A texture identifier from its numeric value; zero is rejected.
    pub fn new(v: u8) -> (r: Option<TextureId>)
        ensures
            v == 0 <==> r is None,
            r matches Some(t) ==> t == TextureId::spec_of(v) && t.val() == v && v != 0,
    {
        if v == 0 {
            None
        } else {
            Some(TextureId(v))
        }
    }

    /// The numeric value of the identifier.
    pub fn get(self) -> (r: u8)
        ensures
            r == self.val(),
    {
        self.0
    }
}

/// The value of a specification-built texture identifier.
pub proof fn lemma_texture_id_val(v: u8)
    ensures
        TextureId::spec_of(v).val() == v,
{
}

/// The appearance of one block type: for each of the six directions, the
/// texture drawn on that face, or `None` when the block shows no face there
/// (air, or a side that is never drawn).
#[derive(Clone, Copy)]
pub struct BlockModel {
    pub faces: [Option<TextureId>; 6],
}

impl BlockModel {
    /// The texture of the face pointing in `direction`, if any.
    pub fn face(&self, direction: Direction) -> (r: Option<TextureId>)
        requires
            direction.is_valid(),
        ensures
            r == self.faces@[direction.0 as int],
    {
        self.faces[direction.0 as usize]
    }
}

/// The mathematical appearance of a whole world: for every cell and every
/// direction value `0..6`, the texture shown on that face, or `None`.
pub type WorldModel = spec_fn((int, int, int), int) -> Option<TextureId>;

/// No texture identifier of the model is the reserved value zero.
pub open spec fn model_wf(w: WorldModel) -> bool {
    forall|c: (int, int, int), d: int| (#[trigger] w(c, d)) matches Some(t) ==> t.val() != 0
}

/// The boundary beside cell `c` in direction `d` shows a face attributed to
/// `c`: the cell has a texture there and its neighbor does not occlude it.
pub open spec fn face_visible(w: WorldModel, c: (int, int, int), d: u8) -> bool {
    &&& w(c, d as int) is Some
    &&& w(next_of(c, d), (d ^ 1) as int) is None
}

/// The texture carried by the visible face of `c` in direction `d`, as the
/// 32-bit value stored in a face record.
pub open spec fn face_texture(w: WorldModel, c: (int, int, int), d: u8) -> u32 {
    (w(c, d as int))->0.val() as u32
}

/// One renderable quad: the boundary between `coord` and its neighbor in
/// `direction`, textured with `texture` and facing away from `coord`. A face
/// is a value: two faces with equal fields are the same face.
#[derive(Clone, Copy, PartialEq, Eq)]
pub struct Face {
    pub coord: [i32; 3],
    pub direction: u32,
    pub texture: u32,
}

/// The boundary a face stands for: its cell and its direction.
pub open spec fn face_key(f: Face) -> ((int, int, int), u8) {
    (cv(f.coord), f.direction as u8)
}

/// Some face in the list stands for the boundary `(c, d)`.
pub open spec fn has_face_at(faces: Seq<Face>, c: (int, int, int), d: u8) -> bool {
    exists|k: int| 0 <= k < faces.len() && face_key(#[trigger] faces[k]) == (c, d)
}

/// The update whose changed set is `changed` touches this face: one of the two
/// cells beside its boundary changed.
pub open spec fn face_touched(f: Face, changed: Set<(int, int, int)>) -> bool {
    ||| changed.contains(cv(f.coord))
    ||| changed.contains(next_of(cv(f.coord), f.direction as u8))
}

/// The faces that survive an update with changed set `changed`, in their
/// original order: exactly those that the update does not touch.
pub open spec fn retained_faces(faces: Seq<Face>, changed: Set<(int, int, int)>) -> Seq<Face> {
    faces.filter(|f: Face| !face_touched(f, changed))
}

/// Every face of the list stands for a visible boundary of the world `w`,
/// carries that boundary's texture, and has a representable neighbor.
pub open spec fn face_ok(w: WorldModel, f: Face) -> bool {
    &&& f.direction < 6
    &&& coord_in_range(next_of(cv(f.coord), f.direction as u8))
    &&& face_visible(w, cv(f.coord), f.direction as u8)
    &&& f.texture == face_texture(w, cv(f.coord), f.direction as u8)
}

/// Soundness: only visible faces, with the right texture.
pub open spec fn faces_sound(w: WorldModel, faces: Seq<Face>) -> bool {
    forall|k: int| 0 <= k < faces.len() ==> face_ok(w, #[trigger] faces[k])
}

/// Completeness: every visible boundary whose two cells are representable has
/// a face in the list.
pub open spec fn faces_complete(w: WorldModel, faces: Seq<Face>) -> bool {
    forall|c: (int, int, int), d: u8|
        coord_in_range(c) && d < 6 && coord_in_range(next_of(c, d)) && #[trigger] face_visible(
            w,
            c,
            d,
        ) ==> has_face_at(faces, c, d)
}

/// No two faces of the list stand for the same boundary.
pub open spec fn faces_distinct(faces: Seq<Face>) -> bool {
    forall|k1: int, k2: int|
        0 <= k1 < k2 < faces.len() ==> face_key(#[trigger] faces[k1]) != face_key(
            #[trigger] faces[k2],
        )
}

/// The four bytes of `v`, least significant first.
pub open spec fn le_bytes32(v: u32) -> Seq<u8> {
    seq![
        (v & 0xff) as u8,
        ((v >> 8) & 0xff) as u8,
        ((v >> 16) & 0xff) as u8,
        ((v >> 24) & 0xff) as u8,
    ]
}

/// The 20-byte record of one face: three signed 32-bit coordinates, the
/// direction, and the texture identifier, each little-endian.
pub open spec fn face_bytes(f: Face) -> Seq<u8> {
    le_bytes32(f.coord[0] as u32) + le_bytes32(f.coord[1] as u32) + le_bytes32(f.coord[2] as u32)
        + le_bytes32(f.direction) + le_bytes32(f.texture)
}

/// The flat instance array: the records of all faces, in list order.
pub open spec fn faces_bytes(s: Seq<Face>) -> Seq<u8>
    decreases s.len(),
{
    if s.len() == 0 {
        Seq::empty()
    } else {
        faces_bytes(s.drop_last()) + face_bytes(s.last())
    }
}

/// A face list serializes to 20 bytes per face.
pub proof fn lemma_faces_bytes_len(s: Seq<Face>)
    ensures
        faces_bytes(s).len() == 20 * s.len(),
    decreases s.len(),
{
    if s.len() > 0 {
        lemma_faces_bytes_len(s.drop_last());
    }
}

/// Appends the four little-endian bytes of `v`.
fn push_le32(out: &mut Vec<u8>, v: u32)
    ensures
        final(out)@ == old(out)@ + le_bytes32(v),
{
    out.push((v & 0xff) as u8);
    out.push(((v >> 8) & 0xff) as u8);
    out.push(((v >> 16) & 0xff) as u8);
    out.push(((v >> 24) & 0xff) as u8);
    assert(out@ =~= old(out)@ + le_bytes32(v));
}

/// Appends the 20-byte record of one face.
fn push_face_bytes(out: &mut Vec<u8>, f: Face)
    ensures
        final(out)@ == old(out)@ + face_bytes(f),
{
    push_le32(out, #[verifier::truncate] (f.coord[0] as u32));
    push_le32(out, #[verifier::truncate] (f.coord[1] as u32));
    push_le32(out, #[verifier::truncate] (f.coord[2] as u32));
    push_le32(out, f.direction);
    push_le32(out, f.texture);
    assert(out@ =~= old(out)@ + face_bytes(f));
}

/// Serializes the face list to its flat instance array.
fn encode_faces(faces: &Vec<Face>) -> (r: Vec<u8>)
    ensures
        r@ == faces_bytes(faces@),
        r@.len() == 20 * faces@.len(),
{
    let mut out: Vec<u8> = Vec::new();
    assert(out@ =~= faces_bytes(faces@.take(0)));
    let mut i: usize = 0;
    while i < faces.len()
        invariant
            i <= faces@.len(),
            out@ == faces_bytes(faces@.take(i as int)),
        decreases faces@.len() - i,
    {
        let f = faces[i];
        push_face_bytes(&mut out, f);
        proof {
            assert(faces@.take(i + 1).drop_last() =~= faces@.take(i as int));
            assert(faces@.take(i + 1).last() == faces@[i as int]);
        }
        i = i + 1;
    }
    proof {
        assert(faces@.take(faces@.len() as int) =~= faces@);
        lemma_faces_bytes_len(faces@);
    }
    out
}

/// What the mesh builder asks of a world snapshot: the appearance of any cell,
/// the changed set of the current batch as a membership test, and the same set
/// as a list. A snapshot must answer every coordinate, also cells beside the
/// changed ones that lie outside its real data (with a fully transparent
/// appearance there).
pub trait WorldInterface: Sized {
    /// The snapshot's own validity: what its constructors establish and its
    /// mutations preserve.
    spec fn inv(&self) -> bool;

    /// The appearance model this snapshot answers from: for every mathematical
    /// cell and direction value, the texture shown there, or `None`.
    spec fn spec_face(&self, c: (int, int, int), d: int) -> Option<TextureId>;

    /// The changed set of the current batch.
    spec fn changed(&self) -> Set<(int, int, int)>;

    /// The changed coordinates in the order the snapshot hands them out.
    spec fn changed_list(&self) -> Seq<(int, int, int)>;

    /// The list enumerates the changed set, each coordinate exactly once.
    proof fn lemma_changed_consistent(&self)
        requires
            self.inv(),
        ensures
            self.changed_list().to_set() == self.changed(),
            self.changed_list().no_duplicates(),
    ;

    /// The snapshot never uses the reserved texture identifier zero.
    proof fn lemma_textures_nonzero(&self, c: (int, int, int), d: int)
        requires
            self.inv(),
        ensures
            self.spec_face(c, d) matches Some(t) ==> t.val() != 0,
    ;

    /// The appearance of the block at `coord`.
    fn get_block(&self, coord: &IntCoord) -> (r: BlockModel)
        requires
            self.inv(),
        ensures
            forall|d: int| 0 <= d < 6 ==> r.faces@[d] == self.spec_face(cv(coord.0), d),
    ;

    /// Whether `coord` is in the changed set of the current batch.
    fn is_updated(&self, coord: &IntCoord) -> (r: bool)
        requires
            self.inv(),
        ensures
            r == self.changed().contains(cv(coord.0)),
    ;

    /// The changed coordinates of the current batch.
    fn get_updated_block_coords(&self) -> (r: &[IntCoord])
        requires
            self.inv(),
        ensures
            r@.len() == self.changed_list().len(),
            forall|i: int| 0 <= i < r@.len() ==> cv(#[trigger] r@[i].0) == self.changed_list()[i],
    ;
}

/// The mesh builder: the current list of visible faces of a mirrored world
/// model, kept in lockstep with a serialized byte image of the list.
pub struct Scene {
    faces: Vec<Face>,
    buffer: crate::utils::DynamicBuffer,
    model: Ghost<WorldModel>,
}

impl Scene {
    /// The current face list.
    pub closed spec fn faces_view(self) -> Seq<Face> {
        self.faces@
    }

    /// The world model the face list mirrors.
    pub closed spec fn world(self) -> WorldModel {
        self.model@
    }

    /// The staged byte image of the face list.
    pub closed spec fn buffer_payload(self) -> Seq<u8> {
        self.buffer.payload()
    }

    /// The capacity of the staging buffer.
    pub closed spec fn buffer_capacity(self) -> int {
        self.buffer.capacity()
    }

    /// The staging buffer is internally consistent.
    pub closed spec fn buffer_wf(self) -> bool {
        self.buffer.wf()
    }

    /// The scene is exactly the visible surface of its mirrored world: only
    /// visible faces, every representable visible boundary, no boundary twice,
    /// and the byte image in sync with the list.
    pub open spec fn wf(self) -> bool {
        &&& faces_sound(self.world(), self.faces_view())
        &&& faces_complete(self.world(), self.faces_view())
        &&& faces_distinct(self.faces_view())
        &&& model_wf(self.world())
        &&& self.buffer_wf()
        &&& self.buffer_payload() == faces_bytes(self.faces_view())
    }

    /// An empty scene mirroring an all-transparent world, with a small initial
    /// staging allocation.
    pub fn new() -> (r: Scene)
        ensures
            r.wf(),
            r.faces_view() == Seq::<Face>::empty(),
            r.buffer_capacity() == 512,
            forall|c: (int, int, int), d: int| #[trigger] r.world()(c, d) is None,
    {
        let faces: Vec<Face> = Vec::new();
        let buffer = crate::utils::DynamicBuffer::new(512);
        let r = Scene { faces, buffer, model: Ghost(|c: (int, int, int), d: int| None) };
        proof {
            assert(r.buffer_payload() =~= faces_bytes(r.faces_view()));
        }
        r
    }

    /// The number of faces, which is the instance count of the draw call.
    pub fn len(&self) -> (r: usize)
        ensures
            r == self.faces_view().len(),
    {
        self.faces.len()
    }

    /// The current face list.
    pub fn faces(&self) -> (r: &Vec<Face>)
        ensures
            r@ == self.faces_view(),
    {
        &self.faces
    }

    /// The staging buffer holding the serialized face list.
    pub fn buffer(&self) -> (r: &crate::utils::DynamicBuffer)
        requires
            self.wf(),
        ensures
            r.wf(),
            r.payload() == faces_bytes(self.faces_view()),
            r.capacity() == self.buffer_capacity(),
    {
        &self.buffer
    }
}

/// Every face record of a well-formed scene carries a texture identifier
/// other than the reserved value zero.
pub proof fn lemma_face_textures_nonzero(s: Scene)
    requires
        s.wf(),
    ensures
        forall|k: int| 0 <= k < s.faces_view().len() ==> (#[trigger] s.faces_view()[k]).texture != 0,
{
    assert forall|k: int|
        0 <= k < s.faces_view().len() implies (#[trigger] s.faces_view()[k]).texture != 0 by {
        let f = s.faces_view()[k];
        assert(face_ok(s.world(), f));
        let c = cv(f.coord);
        let dd = f.direction as u8;
        assert(s.world()(c, dd as int) is Some);
        assert((s.world()(c, dd as int))->0.val() != 0);
    }
}

/// Neither cell beside the boundary `(c, d)` is in the changed set `s`.
spec fn untouched_key(s: Set<(int, int, int)>, c: (int, int, int), d: u8) -> bool {
    !s.contains(c) && !s.contains(next_of(c, d))
}

/// The regeneration pass has reached coordinate index `j` of `s_list` and,
/// within it, direction `d`. This holds exactly of the boundaries `(c, dd)`
/// the pass has already considered: those attributed to an already-processed
/// changed cell, and those attributed to the unchanged neighbor `c` of an
/// already-processed changed cell.
spec fn regen_covered(
    s_list: Seq<(int, int, int)>,
    s_set: Set<(int, int, int)>,
    c: (int, int, int),
    dd: u8,
    j: int,
    d: int,
) -> bool {
    ||| (exists|p: int| 0 <= p < j && s_list[p] == c) || (0 <= j < s_list.len() && s_list[j] == c
        && (dd as int) < d)
    ||| (!s_set.contains(c) && {
        let u = next_of(c, dd);
        (exists|p: int| 0 <= p < j && s_list[p] == u) || (0 <= j < s_list.len() && s_list[j] == u
            && ((dd ^ 1) as int) < d)
    })
}

/// The running face list `cur` holds a face for a boundary exactly when the
/// boundary either survived the retain pass (untouched, and present before) or
/// is visible in the new world and already covered by the regeneration pass.
spec fn phase2_tracks(
    w: WorldModel,
    old_faces: Seq<Face>,
    cur: Seq<Face>,
    s_list: Seq<(int, int, int)>,
    s_set: Set<(int, int, int)>,
    j: int,
    d: int,
) -> bool {
    forall|c: (int, int, int), dd: u8|
        coord_in_range(c) && dd < 6 && coord_in_range(next_of(c, dd)) ==> ((#[trigger] has_face_at(
            cur,
            c,
            dd,
        )) <==> ((untouched_key(s_set, c, dd) && has_face_at(old_faces, c, dd)) || (face_visible(
            w,
            c,
            dd,
        ) && regen_covered(s_list, s_set, c, dd, j, d))))
}

/// Membership in a sequence is unchanged by a push, and the pushed element is
/// a member afterwards.
proof fn lemma_contains_after_push<A>(s: Seq<A>, x: A, y: A)
    ensures
        s.contains(y) ==> s.push(x).contains(y),
        s.push(x).contains(x),
{
    if s.contains(y) {
        let k = choose|k: int| 0 <= k < s.len() && s[k] == y;
        assert(s.push(x)[k] == y);
    }
    assert(s.push(x)[s.len() as int] == x);
}

/// A face list has a face for a boundary after a push exactly when it had one
/// before or the pushed face stands for that boundary.
proof fn lemma_has_face_push(s: Seq<Face>, f: Face, c: (int, int, int), dd: u8)
    ensures
        has_face_at(s.push(f), c, dd) <==> (has_face_at(s, c, dd) || face_key(f) == (c, dd)),
{
    if has_face_at(s.push(f), c, dd) {
        let k = choose|k: int|
            0 <= k < s.push(f).len() && face_key(#[trigger] s.push(f)[k]) == (c, dd);
        if k < s.len() {
            assert(s.push(f)[k] == s[k]);
            assert(face_key(s[k]) == (c, dd));
        } else {
            assert(s.push(f)[k] == f);
        }
    }
    if has_face_at(s, c, dd) {
        let k = choose|k: int| 0 <= k < s.len() && face_key(#[trigger] s[k]) == (c, dd);
        assert(s.push(f)[k] == s[k]);
        assert(face_key(s.push(f)[k]) == (c, dd));
    }
    if face_key(f) == (c, dd) {
        assert(face_key(s.push(f)[s.len() as int]) == (c, dd));
    }
}

/// Pushing a face whose boundary is fresh keeps the boundaries distinct.
proof fn lemma_distinct_push(s: Seq<Face>, f: Face)
    requires
        faces_distinct(s),
        !has_face_at(s, face_key(f).0, face_key(f).1),
    ensures
        faces_distinct(s.push(f)),
{
    assert forall|k1: int, k2: int| 0 <= k1 < k2 < s.push(f).len() implies face_key(
        s.push(f)[k1],
    ) != face_key(s.push(f)[k2]) by {
        assert(s.push(f)[k1] == s[k1]);
        if k2 < s.len() {
            assert(s.push(f)[k2] == s[k2]);
        } else {
            assert(s.push(f)[k2] == f);
            if face_key(s[k1]) == face_key(f) {
                assert(face_key(#[trigger] s[k1]) == (face_key(f).0, face_key(f).1));
                assert(has_face_at(s, face_key(f).0, face_key(f).1));
            }
        }
    }
}

/// Pushing a face that is correct for `w` keeps the list sound for `w`.
proof fn lemma_sound_push(w: WorldModel, s: Seq<Face>, f: Face)
    requires
        faces_sound(w, s),
        face_ok(w, f),
    ensures
        faces_sound(w, s.push(f)),
{
    assert forall|k: int| 0 <= k < s.push(f).len() implies face_ok(w, #[trigger] s.push(f)[k]) by {
        if k < s.len() {
            assert(s.push(f)[k] == s[k]);
        } else {
            assert(s.push(f)[k] == f);
        }
    }
}

/// One direction step of the regeneration pass preserves the tracking
/// invariant: exactly the face due at coordinate `j`, direction `d` was
/// appended. `f` is the appended face where one is due, and ignored otherwise.
proof fn lemma_tracks_step(
    w: WorldModel,
    old_faces: Seq<Face>,
    before: Seq<Face>,
    after: Seq<Face>,
    s_list: Seq<(int, int, int)>,
    s_set: Set<(int, int, int)>,
    j: int,
    d: u8,
    f: Face,
)
    requires
        0 <= j < s_list.len(),
        d < 6,
        s_list.to_set() == s_set,
        s_list.no_duplicates(),
        phase2_tracks(w, old_faces, before, s_list, s_set, j, d as int),
        ({
            let u = s_list[j];
            let v = next_of(u, d);
            if face_visible(w, u, d) {
                after == before.push(f) && face_key(f) == (u, d)
            } else if !s_set.contains(v) && face_visible(w, v, (d ^ 1) as u8) {
                after == before.push(f) && face_key(f) == (v, (d ^ 1) as u8)
            } else {
                after == before
            }
        }),
    ensures
        phase2_tracks(w, old_faces, after, s_list, s_set, j, (d as int) + 1),
{
    let u = s_list[j];
    let v = next_of(u, d);
    lemma_next_involution(u, d);
    lemma_direction_bits(d);
    assert(s_list.contains(u));
    assert(s_set.contains(u));
    assert forall|c: (int, int, int), dd: u8|
        coord_in_range(c) && dd < 6 && coord_in_range(next_of(c, dd)) implies ((has_face_at(
        after,
        c,
        dd,
    )) <==> ((untouched_key(s_set, c, dd) && has_face_at(old_faces, c, dd)) || (face_visible(
        w,
        c,
        dd,
    ) && regen_covered(s_list, s_set, c, dd, j, (d as int) + 1)))) by {
        lemma_direction_bits(dd);
        lemma_next_involution(c, dd);
        // the boundary attributed to the changed cell itself
        let own_key = c == u && dd == d;
        // the boundary attributed to the unchanged neighbor of the changed cell
        let nbr_key = c == v && dd == (d ^ 1) && !s_set.contains(c);
        if face_visible(w, u, d) {
            lemma_has_face_push(before, f, c, dd);
        } else if !s_set.contains(v) && face_visible(w, v, (d ^ 1) as u8) {
            lemma_has_face_push(before, f, c, dd);
        }
        if own_key {
            // not yet covered at (j, d): an earlier occurrence of u would
            // duplicate s_list, and u itself is in the changed set
            assert(!regen_covered(s_list, s_set, c, dd, j, d as int)) by {
                if exists|p: int| 0 <= p < j && s_list[p] == c {
                    let p = choose|p: int| 0 <= p < j && s_list[p] == c;
                    assert(s_list[p] == s_list[j]);
                    assert(false);
                }
            }
            assert(regen_covered(s_list, s_set, c, dd, j, (d as int) + 1));
            assert(!untouched_key(s_set, c, dd));
            assert(has_face_at(after, c, dd) <==> face_visible(w, c, dd));
        } else if nbr_key {
            // v is not a changed cell, so only the neighbor disjunct matters,
            // and it becomes covered exactly now
            assert(next_of(c, dd) == u);
            assert(!regen_covered(s_list, s_set, c, dd, j, d as int)) by {
                if exists|p: int| 0 <= p < j && s_list[p] == c {
                    let p = choose|p: int| 0 <= p < j && s_list[p] == c;
                    assert(s_list.contains(c));
                    assert(s_set.contains(c));
                    assert(false);
                }
                if exists|p: int| 0 <= p < j && s_list[p] == next_of(c, dd) {
                    let p = choose|p: int| 0 <= p < j && s_list[p] == next_of(c, dd);
                    assert(s_list[p] == s_list[j]);
                    assert(false);
                }
            }
            assert(regen_covered(s_list, s_set, c, dd, j, (d as int) + 1));
            assert(!untouched_key(s_set, c, dd));
            assert(face_visible(w, c, dd) <==> (!s_set.contains(v) && face_visible(
                w,
                v,
                (d ^ 1) as u8,
            )));
            assert(has_face_at(after, c, dd) <==> face_visible(w, c, dd));
        } else {
            // any other boundary: its coverage does not change in this step,
            // and no face for it was appended
            assert(regen_covered(s_list, s_set, c, dd, j, (d as int) + 1) == regen_covered(
                s_list,
                s_set,
                c,
                dd,
                j,
                d as int,
            )) by {
                if !s_set.contains(c) && next_of(c, dd) == u && ((dd ^ 1) as int) == d as int {
                    // then c would be exactly the neighbor v with dd == d ^ 1
                    assert(c == next_of(u, (dd ^ 1) as u8));
                    assert(c == v && dd == (d ^ 1));
                    assert(false);
                }
            }
            if face_visible(w, u, d) {
                assert(face_key(f) != (c, dd));
            } else if !s_set.contains(v) && face_visible(w, v, (d ^ 1) as u8) {
                assert(face_key(f) != (c, dd));
            }
            assert(has_face_at(after, c, dd) == has_face_at(before, c, dd));
        }
    }
}

/// Finishing the six directions of coordinate `j` covers exactly what starting
/// coordinate `j + 1` covers.
proof fn lemma_tracks_advance(
    w: WorldModel,
    old_faces: Seq<Face>,
    cur: Seq<Face>,
    s_list: Seq<(int, int, int)>,
    s_set: Set<(int, int, int)>,
    j: int,
)
    requires
        0 <= j < s_list.len(),
        phase2_tracks(w, old_faces, cur, s_list, s_set, j, 6),
    ensures
        phase2_tracks(w, old_faces, cur, s_list, s_set, j + 1, 0),
{
    assert forall|c: (int, int, int), dd: u8|
        coord_in_range(c) && dd < 6 && coord_in_range(next_of(c, dd)) implies ((has_face_at(
        cur,
        c,
        dd,
    )) <==> ((untouched_key(s_set, c, dd) && has_face_at(old_faces, c, dd)) || (face_visible(
        w,
        c,
        dd,
    ) && regen_covered(s_list, s_set, c, dd, j + 1, 0)))) by {
        lemma_direction_bits(dd);
        assert(regen_covered(s_list, s_set, c, dd, j + 1, 0) == regen_covered(
            s_list,
            s_set,
            c,
            dd,
            j,
            6,
        )) by {
            assert((exists|p: int| 0 <= p < j + 1 && s_list[p] == c) <==> ((exists|p: int|
                0 <= p < j && s_list[p] == c) || s_list[j] == c)) by {
                if s_list[j] == c {
                    assert(0 <= j < j + 1 && s_list[j] == c);
                }
                if exists|p: int| 0 <= p < j + 1 && s_list[p] == c {
                    let p = choose|p: int| 0 <= p < j + 1 && s_list[p] == c;
                    if p < j {
                        assert(exists|q: int| 0 <= q < j && s_list[q] == c);
                    }
                }
            }
            let u = next_of(c, dd);
            assert((exists|p: int| 0 <= p < j + 1 && s_list[p] == u) <==> ((exists|p: int|
                0 <= p < j && s_list[p] == u) || s_list[j] == u)) by {
                if s_list[j] == u {
                    assert(0 <= j < j + 1 && s_list[j] == u);
                }
                if exists|p: int| 0 <= p < j + 1 && s_list[p] == u {
                    let p = choose|p: int| 0 <= p < j + 1 && s_list[p] == u;
                    if p < j {
                        assert(exists|q: int| 0 <= q < j && s_list[q] == u);
                    }
                }
            }
        }
        assert(has_face_at(cur, c, dd) <==> ((untouched_key(s_set, c, dd) && has_face_at(
            old_faces,
            c,
            dd,
        )) || (face_visible(w, c, dd) && regen_covered(s_list, s_set, c, dd, j, 6))));
    }
}

/// After the whole regeneration pass, the face list is complete for the new
/// world: every visible representable boundary either kept its old face or was
/// regenerated from a changed cell beside it.
proof fn lemma_tracks_complete(
    w: WorldModel,
    w_old: WorldModel,
    old_faces: Seq<Face>,
    cur: Seq<Face>,
    s_list: Seq<(int, int, int)>,
    s_set: Set<(int, int, int)>,
)
    requires
        phase2_tracks(w, old_faces, cur, s_list, s_set, s_list.len() as int, 0),
        s_list.to_set() == s_set,
        faces_complete(w_old, old_faces),
        forall|c: (int, int, int), d: int| !s_set.contains(c) ==> #[trigger] w(c, d) == w_old(c, d),
    ensures
        faces_complete(w, cur),
{
    assert forall|c: (int, int, int), dd: u8|
        coord_in_range(c) && dd < 6 && coord_in_range(next_of(c, dd)) && #[trigger] face_visible(
        w,
        c,
        dd,
    ) implies has_face_at(cur, c, dd) by {
        lemma_direction_bits(dd);
        let n = next_of(c, dd);
        if s_set.contains(c) {
            assert(s_list.contains(c));
            let p = choose|p: int| 0 <= p < s_list.len() && s_list[p] == c;
            assert(regen_covered(s_list, s_set, c, dd, s_list.len() as int, 0));
        } else if s_set.contains(n) {
            assert(s_list.contains(n));
            let p = choose|p: int| 0 <= p < s_list.len() && s_list[p] == n;
            assert(regen_covered(s_list, s_set, c, dd, s_list.len() as int, 0));
        } else {
            assert(w(c, dd as int) == w_old(c, dd as int));
            assert(w(n, (dd ^ 1) as int) == w_old(n, (dd ^ 1) as int));
            assert(face_visible(w_old, c, dd));
            assert(has_face_at(old_faces, c, dd));
            assert(untouched_key(s_set, c, dd));
        }
        assert(has_face_at(cur, c, dd) <==> ((untouched_key(s_set, c, dd) && has_face_at(
            old_faces,
            c,
            dd,
        )) || (face_visible(w, c, dd) && regen_covered(
            s_list,
            s_set,
            c,
            dd,
            s_list.len() as int,
            0,
        ))));
    }
}

impl Scene {
    /// Recomputes the visible faces touched by the snapshot's changed set and
    /// re-serializes the list into the staging buffer.
    ///
    /// Retain pass: a face survives exactly when neither of its two cells is
    /// in the changed set. Regenerate pass: every boundary beside a changed
    /// cell is reconsidered against the new world; a boundary visible from the
    /// changed cell's own side is attributed to it, one visible only from an
    /// unchanged neighbor's side is attributed to the neighbor. Afterwards the
    /// scene is exactly the visible surface of the new world (`wf`), the
    /// untouched faces stand first in their old order with the regenerated
    /// ones after them, an empty changed set changes nothing, and the staging
    /// capacity has not shrunk.
    #[verifier::loop_isolation(false)]
    pub fn update<W: WorldInterface>(&mut self, world: &W)
        requires
            old(self).wf(),
            world.inv(),
            // the changed set covers every cell whose appearance differs from
            // the world mirrored so far
            forall|c: (int, int, int), d: int|
                !world.changed().contains(c) ==> #[trigger] world.spec_face(c, d) == old(
                    self,
                ).world()(c, d),
            // changed cells are strictly inside the representable range, so
            // each of their neighbors exists
            forall|p: int|
                0 <= p < world.changed_list().len() ==> coord_interior(
                    #[trigger] world.changed_list()[p],
                ),
            // machine limit: the rebuilt face list fits the byte arena
            20 * (old(self).faces_view().len() + 6 * world.changed_list().len()) <= usize::MAX / 2,
        ensures
            final(self).wf(),
            // the scene now mirrors the snapshot's world
            forall|c: (int, int, int), d: int|
                #[trigger] final(self).world()(c, d) == world.spec_face(c, d),
            // incrementality: an untouched face survives unchanged
            forall|f: Face|
                old(self).faces_view().contains(f) && !face_touched(f, world.changed())
                    ==> final(self).faces_view().contains(f),
            // the retained faces stand first, in their old order
            final(self).faces_view().take(
                retained_faces(old(self).faces_view(), world.changed()).len() as int,
            ) == retained_faces(old(self).faces_view(), world.changed()),
            // an empty changed set leaves the face list unchanged
            world.changed_list().len() == 0 ==> final(self).faces_view() == old(self).faces_view(),
            // the staging buffer's capacity never shrinks
            final(self).buffer_capacity() >= old(self).buffer_capacity(),
    {
        let ghost w_old: WorldModel = old(self).world();
        let ghost w_new: WorldModel = |c: (int, int, int), d: int| world.spec_face(c, d);
        let ghost s_set: Set<(int, int, int)> = world.changed();
        let ghost s_list: Seq<(int, int, int)> = world.changed_list();
        let ghost old_faces: Seq<Face> = old(self).faces_view();
        proof {
            world.lemma_changed_consistent();
            reveal(Seq::filter);
            assert(old_faces.take(0) =~= Seq::<Face>::empty());
            assert(retained_faces(old_faces.take(0), s_set) =~= Seq::<Face>::empty());
            assert forall|c: (int, int, int), d: int| (#[trigger] w_new(c, d)) is Some implies (
            w_new(c, d))->0.val() != 0 by {
                world.lemma_textures_nonzero(c, d);
            }
            assert(model_wf(w_new));
        }
        // Phase 1 — retain: keep exactly the faces that no changed cell
        // touches.
        let mut kept: Vec<Face> = Vec::new();
        let n = self.faces.len();
        let mut i: usize = 0;
        while i < n
            invariant
                i <= n,
                kept@.len() <= i,
                faces_distinct(kept@),
                forall|k: int| 0 <= k < kept@.len() ==> !face_touched(#[trigger] kept@[k], s_set),
                forall|k: int|
                    0 <= k < kept@.len() ==> exists|p: int|
                        0 <= p < i && #[trigger] kept@[k] == old_faces[p],
                forall|p: int|
                    0 <= p < i && !face_touched(#[trigger] old_faces[p], s_set)
                        ==> kept@.contains(old_faces[p]),
                kept@ == retained_faces(old_faces.take(i as int), s_set),
                s_list.len() == 0 ==> kept@ == old_faces.take(i as int),
            decreases n - i,
        {
            let f = self.faces[i];
            proof {
                assert(old_faces[i as int] == f);
                assert(face_ok(w_old, old_faces[i as int]));
            }
            let coord = IntCoord(f.coord);
            let own_changed = world.is_updated(&coord);
            let mut keep_it = false;
            if !own_changed {
                let dir = Direction(f.direction as u8);
                let facing = coord.next(dir);
                let nbr_changed = world.is_updated(&facing);
                keep_it = !nbr_changed;
            }
            if keep_it {
                proof {
                    let ghost kept_before = kept@;
                    assert(!face_touched(f, s_set));
                    assert forall|k: int| 0 <= k < kept_before.len() implies face_key(
                        kept_before[k],
                    ) != face_key(f) by {
                        let p = choose|p: int| 0 <= p < i && kept_before[k] == old_faces[p];
                        if face_key(kept_before[k]) == face_key(f) {
                            assert(face_key(#[trigger] old_faces[p]) == face_key(
                                old_faces[i as int],
                            ));
                            assert(false);
                        }
                    }
                    if has_face_at(kept_before, face_key(f).0, face_key(f).1) {
                        let k = choose|k: int|
                            0 <= k < kept_before.len() && face_key(#[trigger] kept_before[k]) == (
                            face_key(f).0,
                            face_key(f).1,
                            );
                        assert(false);
                    }
                }
                let ghost kept_before = kept@;
                kept.push(f);
                proof {
                    lemma_distinct_push(kept_before, f);
                    assert forall|p: int|
                        0 <= p < i + 1 && !face_touched(#[trigger] old_faces[p], s_set) implies kept@.contains(
                        old_faces[p],
                    ) by {
                        if p < i {
                            lemma_contains_after_push(kept_before, f, old_faces[p]);
                        } else {
                            lemma_contains_after_push(kept_before, f, f);
                        }
                    }
                    assert forall|k: int| 0 <= k < kept@.len() implies exists|p: int|
                        0 <= p < i + 1 && #[trigger] kept@[k] == old_faces[p] by {
                        if k < kept_before.len() {
                            assert(kept@[k] == kept_before[k]);
                            let p = choose|p: int|
                                0 <= p < i && #[trigger] kept_before[k] == old_faces[p];
                            assert(0 <= p < i + 1 && kept@[k] == old_faces[p]);
                        } else {
                            assert(kept@[k] == f);
                            assert(0 <= i < i + 1 && kept@[k] == old_faces[i as int]);
                        }
                    }
                    reveal(Seq::filter);
                    assert(old_faces.take(i + 1).drop_last() =~= old_faces.take(i as int));
                    assert(old_faces.take(i + 1).last() == f);
                    assert(kept@ == retained_faces(old_faces.take(i + 1), s_set));
                    if s_list.len() == 0 {
                        assert(kept@ =~= old_faces.take(i + 1));
                    }
                }
            } else {
                proof {
                    assert(face_touched(f, s_set));
                    reveal(Seq::filter);
                    assert(old_faces.take(i + 1).drop_last() =~= old_faces.take(i as int));
                    assert(old_faces.take(i + 1).last() == f);
                    assert(kept@ == retained_faces(old_faces.take(i + 1), s_set));
                    if s_list.len() == 0 {
                        assert(s_set =~= Set::<(int, int, int)>::empty());
                        assert(false);
                    }
                }
            }
            i = i + 1;
        }
        // Phase 1 is done: carry its faces over to the new world and start the
        // tracking invariant of phase 2.
        let ghost kept0: Seq<Face> = kept@;
        proof {
            assert(old_faces.take(n as int) =~= old_faces);
            assert(kept0 == retained_faces(old_faces, s_set));
            assert forall|k: int| 0 <= k < kept0.len() implies face_ok(w_new, #[trigger] kept0[k]) by {
                let p = choose|p: int| 0 <= p < n && #[trigger] kept0[k] == old_faces[p];
                assert(face_ok(w_old, old_faces[p]));
                let f = kept0[k];
                let c = cv(f.coord);
                let dd = f.direction as u8;
                assert(!s_set.contains(c) && !s_set.contains(next_of(c, dd)));
                assert(world.spec_face(c, dd as int) == w_old(c, dd as int));
                assert(world.spec_face(next_of(c, dd), (dd ^ 1) as int) == w_old(
                    next_of(c, dd),
                    (dd ^ 1) as int,
                ));
                assert(w_new(c, dd as int) == w_old(c, dd as int));
                assert(w_new(next_of(c, dd), (dd ^ 1) as int) == w_old(
                    next_of(c, dd),
                    (dd ^ 1) as int,
                ));
            }
            assert(faces_sound(w_new, kept0));
            assert forall|c: (int, int, int), dd: u8|
                coord_in_range(c) && dd < 6 && coord_in_range(next_of(c, dd)) implies ((
            has_face_at(kept0, c, dd)) <==> ((untouched_key(s_set, c, dd) && has_face_at(
                old_faces,
                c,
                dd,
            )) || (face_visible(w_new, c, dd) && regen_covered(s_list, s_set, c, dd, 0, 0)))) by {
                assert(!regen_covered(s_list, s_set, c, dd, 0, 0));
                if has_face_at(kept0, c, dd) {
                    let k = choose|k: int|
                        0 <= k < kept0.len() && face_key(#[trigger] kept0[k]) == (c, dd);
                    let f = kept0[k];
                    assert(!face_touched(f, s_set));
                    assert(untouched_key(s_set, c, dd));
                    let p = choose|p: int| 0 <= p < n && #[trigger] kept0[k] == old_faces[p];
                    assert(face_key(old_faces[p]) == (c, dd));
                    assert(has_face_at(old_faces, c, dd));
                }
                if untouched_key(s_set, c, dd) && has_face_at(old_faces, c, dd) {
                    let p = choose|p: int|
                        0 <= p < old_faces.len() && face_key(#[trigger] old_faces[p]) == (c, dd);
                    assert(!face_touched(old_faces[p], s_set));
                    assert(kept0.contains(old_faces[p]));
                    let k = choose|k: int| 0 <= k < kept0.len() && kept0[k] == old_faces[p];
                    assert(face_key(kept0[k]) == (c, dd));
                    assert(has_face_at(kept0, c, dd));
                }
            }
            assert(phase2_tracks(w_new, old_faces, kept0, s_list, s_set, 0, 0));
        }
        // Phase 2 — regenerate: reconsider all six boundaries of every changed
        // cell against the new world.
        let changed_coords = world.get_updated_block_coords();
        let m = changed_coords.len();
        let mut j: usize = 0;
        while j < m
            invariant
                j <= m,
                kept@.len() <= kept0.len() + 6 * j,
                kept@.len() >= kept0.len(),
                kept@.take(kept0.len() as int) == kept0,
                faces_sound(w_new, kept@),
                faces_distinct(kept@),
                phase2_tracks(w_new, old_faces, kept@, s_list, s_set, j as int, 0),
                s_list.len() == 0 ==> kept@ == kept0,
            decreases m - j,
        {
            let coord = changed_coords[j];
            let ghost u: (int, int, int) = s_list[j as int];
            proof {
                assert(cv(coord.0) == u);
                assert(coord_interior(u));
            }
            let block = world.get_block(&coord);
            let mut d: u8 = 0;
            while d < 6
                invariant
                    d <= 6,
                    j < m,
                    kept@.len() <= kept0.len() + 6 * j + d,
                    kept@.len() >= kept0.len(),
                    kept@.take(kept0.len() as int) == kept0,
                    faces_sound(w_new, kept@),
                    faces_distinct(kept@),
                    phase2_tracks(w_new, old_faces, kept@, s_list, s_set, j as int, d as int),
                decreases 6 - d,
            {
                let dir = Direction(d);
                proof {
                    lemma_interior_next_in_range(u, d);
                    lemma_direction_bits(d);
                    lemma_next_involution(u, d);
                }
                let facing = coord.next(dir);
                let ghost v: (int, int, int) = next_of(u, d);
                let facing_block = world.get_block(&facing);
                let face_here = block.face(dir);
                let oppo = dir.opposite();
                let face_there = facing_block.face(oppo);
                proof {
                    assert(face_here == w_new(u, d as int));
                    assert(face_there == w_new(v, (d ^ 1) as int));
                }
                let ghost kept_before: Seq<Face> = kept@;
                let ghost unused_face: Face = Face { coord: [0, 0, 0], direction: 0, texture: 0 };
                match face_here {
                    Some(t) => {
                        match face_there {
                            Some(_) => {
                                // both sides textured: an interior boundary,
                                // culled from both sides
                                proof {
                                    assert(!face_visible(w_new, u, d));
                                    assert(!face_visible(w_new, v, (d ^ 1) as u8));
                                    lemma_tracks_step(
                                        w_new,
                                        old_faces,
                                        kept_before,
                                        kept@,
                                        s_list,
                                        s_set,
                                        j as int,
                                        d,
                                        unused_face,
                                    );
                                }
                            },
                            None => {
                                // visible from the changed cell's own side
                                let newf = Face {
                                    coord: coord.0,
                                    direction: d as u32,
                                    texture: t.get() as u32,
                                };
                                proof {
                                    assert(face_visible(w_new, u, d));
                                    assert(face_key(newf) == (u, d));
                                    assert(face_ok(w_new, newf));
                                }
                                kept.push(newf);
                                proof {
                                    assert(kept@ == kept_before.push(newf));
                                    lemma_tracks_step(
                                        w_new,
                                        old_faces,
                                        kept_before,
                                        kept@,
                                        s_list,
                                        s_set,
                                        j as int,
                                        d,
                                        newf,
                                    );
                                    assert(!has_face_at(kept_before, u, d)) by {
                                        assert(!regen_covered(
                                            s_list,
                                            s_set,
                                            u,
                                            d,
                                            j as int,
                                            d as int,
                                        )) by {
                                            if exists|p: int| 0 <= p < j && s_list[p] == u {
                                                let p = choose|p: int|
                                                    0 <= p < j && s_list[p] == u;
                                                assert(s_list[p] == s_list[j as int]);
                                                assert(false);
                                            }
                                        }
                                        assert(s_list.contains(u));
                                        assert(!untouched_key(s_set, u, d));
                                    }
                                    lemma_distinct_push(kept_before, newf);
                                    lemma_sound_push(w_new, kept_before, newf);
                                    assert(kept@.take(kept0.len() as int) =~= kept0);
                                }
                            },
                        }
                    },
                    None => {
                        match face_there {
                            Some(t2) => {
                                let nbr_changed = world.is_updated(&facing);
                                if !nbr_changed {
                                    // the changed cell is transparent here and
                                    // unblocks its neighbor's face: attribute
                                    // the boundary to the unchanged neighbor
                                    let newf = Face {
                                        coord: facing.0,
                                        direction: oppo.0 as u32,
                                        texture: t2.get() as u32,
                                    };
                                    proof {
                                        assert(!s_set.contains(v));
                                        assert(face_visible(w_new, v, (d ^ 1) as u8)) by {
                                            assert(next_of(v, (d ^ 1) as u8) == u);
                                        }
                                        assert(!face_visible(w_new, u, d));
                                        assert(face_key(newf) == (v, (d ^ 1) as u8));
                                        assert(face_ok(w_new, newf)) by {
                                            assert(coord_in_range(next_of(v, (d ^ 1) as u8)));
                                        }
                                    }
                                    kept.push(newf);
                                    proof {
                                        assert(kept@ == kept_before.push(newf));
                                        lemma_tracks_step(
                                            w_new,
                                            old_faces,
                                            kept_before,
                                            kept@,
                                            s_list,
                                            s_set,
                                            j as int,
                                            d,
                                            newf,
                                        );
                                        assert(!has_face_at(kept_before, v, (d ^ 1) as u8)) by {
                                            assert(!regen_covered(
                                                s_list,
                                                s_set,
                                                v,
                                                (d ^ 1) as u8,
                                                j as int,
                                                d as int,
                                            )) by {
                                                lemma_direction_bits(d);
                                                if exists|p: int| 0 <= p < j && s_list[p] == v {
                                                    let p = choose|p: int|
                                                        0 <= p < j && s_list[p] == v;
                                                    assert(s_list.contains(v));
                                                    assert(false);
                                                }
                                                assert(next_of(v, (d ^ 1) as u8) == u);
                                                if exists|p: int|
                                                    0 <= p < j && s_list[p] == next_of(
                                                        v,
                                                        (d ^ 1) as u8,
                                                    ) {
                                                    let p = choose|p: int|
                                                        0 <= p < j && s_list[p] == next_of(
                                                            v,
                                                            (d ^ 1) as u8,
                                                        );
                                                    assert(s_list[p] == s_list[j as int]);
                                                    assert(false);
                                                }
                                            }
                                            assert(next_of(v, (d ^ 1) as u8) == u);
                                            assert(s_list.contains(u));
                                            assert(!untouched_key(s_set, v, (d ^ 1) as u8));
                                        }
                                        lemma_distinct_push(kept_before, newf);
                                        lemma_sound_push(w_new, kept_before, newf);
                                        assert(kept@.take(kept0.len() as int) =~= kept0);
                                    }
                                } else {
                                    // the neighbor changed too: it will emit
                                    // this boundary from its own side
                                    proof {
                                        assert(!face_visible(w_new, u, d));
                                        assert(s_set.contains(v));
                                        lemma_tracks_step(
                                            w_new,
                                            old_faces,
                                            kept_before,
                                            kept@,
                                            s_list,
                                            s_set,
                                            j as int,
                                            d,
                                            unused_face,
                                        );
                                    }
                                }
                            },
                            None => {
                                // neither side textured: no geometry
                                proof {
                                    assert(!face_visible(w_new, u, d));
                                    assert(!face_visible(w_new, v, (d ^ 1) as u8)) by {
                                        assert(face_there == w_new(v, (d ^ 1) as int));
                                    }
                                    lemma_tracks_step(
                                        w_new,
                                        old_faces,
                                        kept_before,
                                        kept@,
                                        s_list,
                                        s_set,
                                        j as int,
                                        d,
                                        unused_face,
                                    );
                                }
                            },
                        }
                    },
                }
                d = d + 1;
            }
            proof {
                lemma_tracks_advance(w_new, old_faces, kept@, s_list, s_set, j as int);
            }
            j = j + 1;
        }
        // The new face list is exactly the visible surface of the new world.
        let ghost final_faces: Seq<Face> = kept@;
        proof {
            lemma_tracks_complete(w_new, w_old, old_faces, final_faces, s_list, s_set);
        }
        self.faces = kept;
        self.model = Ghost(w_new);
        let bytes = encode_faces(&self.faces);
        proof {
            assert(bytes@.len() <= usize::MAX / 2);
        }
        self.buffer.update(bytes.as_slice());
        proof {
            assert(self.faces@ == final_faces);
            assert(self.buffer_payload() == faces_bytes(self.faces_view()));
            assert(final_faces.take(kept0.len() as int) == kept0);
            assert(retained_faces(old_faces, world.changed()) == kept0);
            assert forall|f: Face|
                old_faces.contains(f) && !face_touched(f, s_set) implies final_faces.contains(
                f,
            ) by {
                let p = choose|p: int| 0 <= p < old_faces.len() && old_faces[p] == f;
                assert(!face_touched(old_faces[p], s_set));
                assert(kept0.contains(old_faces[p]));
                let k = choose|k: int| 0 <= k < kept0.len() && kept0[k] == old_faces[p];
                assert(final_faces.take(kept0.len() as int)[k] == final_faces[k]);
                assert(final_faces[k] == f);
            }
            if s_list.len() == 0 {
                assert(final_faces == kept0);
                assert(old_faces.take(n as int) =~= old_faces);
            }
        }
    }
}

} // verus!
