use vstd::arithmetic::div_mod::{
    lemma_add_mod_noop_right, lemma_fundamental_div_mod, lemma_mul_mod_noop_right,
};
use vstd::prelude::*;
use vstd::wrapping::u32_specs;

use crate::error::WorldError;
use crate::gpu_hash::{empty_slot, hash_of, GPUHashTable, NONE, TABLE_CAPACITY};
use crate::util::{IVec3, UVec3};

verus! {

/// Number of object slots of the registry; slot 0 stands for "no object".
pub const OBJECT_SLOTS: usize = 166;

/// Added to each world coordinate so that every voxel key is non-negative.
pub const WORLD_BIAS: i64 = 100;

/// Block size of the registry's table along each axis.
pub const BLOCK_EDGE: u32 = 200;

/// The kind of a registered object.
#[derive(Debug, Clone, Copy, PartialEq, Eq, Structural)]
pub enum ObjectType {
    /// Filled cube that can only stand at integer positions.
    CubeWall,
    /// Infinitesimally thin square wall.
    SquareWall,
    /// Infinitesimally thin round wall.
    RoundWall,
    /// Sphere that represents a light source.
    LightSource,
    /// A cube described by a Jones matrix.
    OpticalObjectCube,
    /// A square wall described by a Jones matrix.
    OpticalObjectSquareWall,
    /// A round wall described by a Jones matrix.
    OpticalObjectRoundWall,
}

/// The axis of the anchor along which an aligned object is placed.
#[derive(Debug, Clone, Copy, PartialEq, Eq, Structural)]
pub enum Alignment {
    Front,
    Right,
    Up,
}

/// What the registry reads of an object: its kind, its center truncated
/// to integers, its extent (the largest of width, height and radius,
/// rounded up) and its alignment links. Index 0 in a link means "none".
#[derive(Debug, Clone, Copy, PartialEq, Eq, Structural)]
pub struct WorldObject {
    pub object_type: ObjectType,
    pub center: IVec3,
    pub extent: u32,
    pub aligned_to_object: usize,
    pub alignment: Alignment,
    pub object_aligned_to_self: usize,
}

pub open spec fn default_object() -> WorldObject {
    WorldObject {
        object_type: ObjectType::CubeWall,
        center: IVec3 { x: 0, y: 0, z: 0 },
        extent: 1,
        aligned_to_object: 0,
        alignment: Alignment::Front,
        object_aligned_to_self: 0,
    }
}

/// The record of `o` once every alignment link to object `idx` is cleared;
/// a record aligned to `idx` falls back to the front axis.
pub open spec fn detached(o: WorldObject, idx: usize) -> WorldObject {
    WorldObject {
        aligned_to_object: if o.aligned_to_object == idx {
            0
        } else {
            o.aligned_to_object
        },
        alignment: if o.aligned_to_object == idx {
            Alignment::Front
        } else {
            o.alignment
        },
        object_aligned_to_self: if o.object_aligned_to_self == idx {
            0
        } else {
            o.object_aligned_to_self
        },
        ..o
    }
}

/// The record of `o` moved to the center and extent of `to`.
pub open spec fn relocated(o: WorldObject, to: WorldObject) -> WorldObject {
    WorldObject { center: to.center, extent: to.extent, ..o }
}

/// The record with both alignment links cleared.
pub open spec fn unaligned(o: WorldObject) -> WorldObject {
    WorldObject { aligned_to_object: 0, alignment: Alignment::Front, object_aligned_to_self: 0, ..o }
}

pub open spec fn world_block() -> UVec3 {
    UVec3 { x: BLOCK_EDGE, y: BLOCK_EDGE, z: BLOCK_EDGE }
}

/// The table entry that says that voxel `k` holds object `v`.
pub open spec fn voxel_pair(v: u32, k: UVec3) -> (u32, u32) {
    (hash_of(world_block(), k), v)
}

pub open spec fn pair_with(v: u32) -> spec_fn(UVec3) -> (u32, u32) {
    |k: UVec3| voxel_pair(v, k)
}

/// The table entries that the voxels `keys` of object `v` make.
pub open spec fn pairs_of(keys: Seq<UVec3>, v: u32) -> Set<(u32, u32)> {
    keys.map_values(pair_with(v)).to_set()
}

/// Objects that occupy exactly one voxel.
pub open spec fn is_point_like(t: ObjectType) -> bool {
    t == ObjectType::CubeWall || t == ObjectType::OpticalObjectCube
}

/// The world position around which an object is voxelized: the requested
/// position for point-like objects, the record's center for the others.
pub open spec fn footprint_center(position: IVec3, o: WorldObject) -> IVec3 {
    if is_point_like(o.object_type) {
        position
    } else {
        o.center
    }
}

/// Half the edge of the voxel cube of an object: 0 for point-like objects,
/// else its extent plus one.
pub open spec fn footprint_half(o: WorldObject) -> int {
    if is_point_like(o.object_type) {
        0
    } else {
        o.extent + 1
    }
}

/// Every voxel key of the cube of the given half-width around the biased
/// center `c`.
pub open spec fn footprint(c: IVec3, half: int) -> Set<UVec3> {
    Set::new(
        |k: UVec3|
            {
                &&& c.x + WORLD_BIAS - half <= k.x <= c.x + WORLD_BIAS + half
                &&& c.y + WORLD_BIAS - half <= k.y <= c.y + WORLD_BIAS + half
                &&& c.z + WORLD_BIAS - half <= k.z <= c.z + WORLD_BIAS + half
            },
    )
}

/// Every key of that cube is a valid unsigned key.
pub open spec fn footprint_fits(c: IVec3, half: int) -> bool {
    &&& 0 <= c.x + WORLD_BIAS - half
    &&& c.x + WORLD_BIAS + half <= u32::MAX
    &&& 0 <= c.y + WORLD_BIAS - half
    &&& c.y + WORLD_BIAS + half <= u32::MAX
    &&& 0 <= c.z + WORLD_BIAS - half
    &&& c.z + WORLD_BIAS + half <= u32::MAX
}

/// Number of voxels in a cube of the given half-width.
pub open spec fn footprint_volume(half: int) -> int {
    (2 * half + 1) * (2 * half + 1) * (2 * half + 1)
}

/// No two keys of `keys` share a hash in the registry's table.
pub open spec fn hash_injective_on(keys: Set<UVec3>) -> bool {
    forall|k1: UVec3, k2: UVec3|
        #[trigger] keys.contains(k1) && #[trigger] keys.contains(k2) && hash_of(world_block(), k1)
            == hash_of(world_block(), k2) ==> k1 == k2
}

/// The keys `k` with `lo <= k < lo + side` on each axis.
pub open spec fn box_keys(lo: UVec3, side: int) -> Set<UVec3> {
    Set::new(
        |k: UVec3|
            {
                &&& lo.x <= k.x < lo.x + side
                &&& lo.y <= k.y < lo.y + side
                &&& lo.z <= k.z < lo.z + side
            },
    )
}

spec fn lex_lt(a: (int, int, int), b: (int, int, int)) -> bool {
    a.0 < b.0 || (a.0 == b.0 && (a.1 < b.1 || (a.1 == b.1 && a.2 < b.2)))
}

/// The keys of the box that an x-major walk visits before offset
/// `(dx, dy, dz)`.
spec fn box_prefix(lo: UVec3, side: int, dx: int, dy: int, dz: int) -> Set<UVec3> {
    Set::new(
        |k: UVec3|
            box_keys(lo, side).contains(k) && lex_lt(
                (k.x - lo.x, k.y - lo.y, k.z - lo.z),
                (dx, dy, dz),
            ),
    )
}

proof fn lemma_volume_bound(side: int, a: int, b: int, c: int)
    requires
        0 <= a < side,
        0 <= b < side,
        0 <= c < side,
    ensures
        a * side * side + b * side + c < side * side * side,
        a * side * side + b * side + c + 1 <= side * side * side,
{
    assert(a * side * side + b * side + c < side * side * side) by (nonlinear_arith)
        requires
            0 <= a < side,
            0 <= b < side,
            0 <= c < side,
    ;
}

/// Inserts into `table` the entry of `val` for every key of the box of
/// edge `side` at `lo`, walking x-major. Returns one key for each entry
/// that it added.
fn fill_box(table: &mut GPUHashTable, lo: UVec3, side: u32, val: u32) -> (positions: Vec<UVec3>)
    requires
        old(table).wf(),
        old(table).block() == world_block(),
        side >= 1,
        lo.x + side <= u32::MAX + 1,
        lo.y + side <= u32::MAX + 1,
        lo.z + side <= u32::MAX + 1,
        side * side * side <= old(table).free_count(),
        forall|p: (u32, u32)| #[trigger] old(table).contents().contains(p) ==> p.1 != val,
    ensures
        final(table).wf(),
        final(table).block() == old(table).block(),
        final(table).bucket_count() == old(table).bucket_count(),
        final(table).capacity() == old(table).capacity(),
        final(table).contents() == old(table).contents().union(
            box_keys(lo, side as int).map(pair_with(val)),
        ),
        pairs_of(positions@, val) == box_keys(lo, side as int).map(pair_with(val)),
        positions@.map_values(pair_with(val)).no_duplicates(),
        final(table).free_count() == old(table).free_count() - positions@.len(),
        positions@.len() <= side * side * side,
        forall|n: int|
            0 <= n < positions@.len() ==> box_keys(lo, side as int).contains(#[trigger] positions@[n]),
        hash_injective_on(box_keys(lo, side as int)) ==> positions@.to_set() == box_keys(
            lo,
            side as int,
        ) && positions@.len() == side * side * side,
{
    let ghost c0 = table.contents();
    let ghost free0 = table.free_count();
    let ghost s = side as int;
    let ghost f = pair_with(val);
    let mut positions: Vec<UVec3> = Vec::new();
    let mut dx: u32 = 0;
    assert(box_prefix(lo, s, 0, 0, 0) =~= Set::empty());
    while dx < side
        invariant
            table.wf(),
            table.block() == world_block(),
            table.bucket_count() == old(table).bucket_count(),
            table.capacity() == old(table).capacity(),
            c0 == old(table).contents(),
            free0 == old(table).free_count(),
            s == side,
            f == pair_with(val),
            side >= 1,
            lo.x + side <= u32::MAX + 1,
            lo.y + side <= u32::MAX + 1,
            lo.z + side <= u32::MAX + 1,
            s * s * s <= free0,
            forall|p: (u32, u32)| #[trigger] c0.contains(p) ==> p.1 != val,
            dx <= side,
            table.contents() == c0.union(positions@.map_values(f).to_set()),
            positions@.map_values(f).to_set() == box_prefix(lo, s, dx as int, 0, 0).map(f),
            positions@.map_values(f).no_duplicates(),
            table.free_count() == free0 - positions@.len(),
            positions@.len() <= dx * s * s,
            forall|n: int|
                0 <= n < positions@.len() ==> box_prefix(lo, s, dx as int, 0, 0).contains(
                    #[trigger] positions@[n],
                ),
            hash_injective_on(box_keys(lo, s)) ==> positions@.to_set() == box_prefix(
                lo,
                s,
                dx as int, 0, 0,
            ) && positions@.len() == dx * s * s,
        decreases side - dx,
    {
        let mut dy: u32 = 0;
        while dy < side
            invariant
                table.wf(),
                table.block() == world_block(),
                table.bucket_count() == old(table).bucket_count(),
                table.capacity() == old(table).capacity(),
                c0 == old(table).contents(),
                free0 == old(table).free_count(),
                s == side,
                f == pair_with(val),
                side >= 1,
                lo.x + side <= u32::MAX + 1,
                lo.y + side <= u32::MAX + 1,
                lo.z + side <= u32::MAX + 1,
                s * s * s <= free0,
                forall|p: (u32, u32)| #[trigger] c0.contains(p) ==> p.1 != val,
                dx < side,
                dy <= side,
                table.contents() == c0.union(positions@.map_values(f).to_set()),
                positions@.map_values(f).to_set() == box_prefix(
                    lo,
                    s,
                    dx as int,
                    dy as int,
                    0,
                ).map(f),
                positions@.map_values(f).no_duplicates(),
                table.free_count() == free0 - positions@.len(),
                positions@.len() <= dx * s * s + dy * s,
                forall|n: int|
                    0 <= n < positions@.len() ==> box_prefix(lo, s, dx as int, dy as int, 0).contains(
                        #[trigger] positions@[n],
                    ),
                hash_injective_on(box_keys(lo, s)) ==> positions@.to_set() == box_prefix(
                    lo,
                    s,
                    dx as int, dy as int, 0,
                ) && positions@.len() == dx * s * s + dy * s,
            decreases side - dy,
        {
            let mut dz: u32 = 0;
            while dz < side
                invariant
                    table.wf(),
                    table.block() == world_block(),
                    table.bucket_count() == old(table).bucket_count(),
                    table.capacity() == old(table).capacity(),
                    c0 == old(table).contents(),
                    free0 == old(table).free_count(),
                    s == side,
                    f == pair_with(val),
                    side >= 1,
                    lo.x + side <= u32::MAX + 1,
                    lo.y + side <= u32::MAX + 1,
                    lo.z + side <= u32::MAX + 1,
                    s * s * s <= free0,
                    forall|p: (u32, u32)| #[trigger] c0.contains(p) ==> p.1 != val,
                    dx < side,
                    dy < side,
                    dz <= side,
                    table.contents() == c0.union(positions@.map_values(f).to_set()),
                    positions@.map_values(f).to_set() == box_prefix(
                        lo,
                        s,
                        dx as int,
                        dy as int,
                        dz as int,
                    ).map(f),
                    positions@.map_values(f).no_duplicates(),
                    table.free_count() == free0 - positions@.len(),
                    positions@.len() <= dx * s * s + dy * s + dz,
                    forall|n: int|
                        0 <= n < positions@.len() ==> box_prefix(lo, s, dx as int, dy as int, dz as int).contains(
                            #[trigger] positions@[n],
                        ),
                    hash_injective_on(box_keys(lo, s)) ==> positions@.to_set() == box_prefix(
                        lo,
                        s,
                        dx as int, dy as int, dz as int,
                    ) && positions@.len() == dx * s * s + dy * s + dz,
                decreases side - dz,
            {
                let key = UVec3 { x: lo.x + dx, y: lo.y + dy, z: lo.z + dz };
                let ghost pre = positions@;
                let ghost prefix = box_prefix(lo, s, dx as int, dy as int, dz as int);
                proof {
                    assert(box_prefix(lo, s, dx as int, dy as int, dz + 1) =~= prefix.insert(key));
                    prefix.lemma_set_map_insert_commute(key, f);
                }
                if !table.contains(key, val) {
                    proof {
                        lemma_volume_bound(s, dx as int, dy as int, dz as int);
                    }
                    let _ = table.insert(key, val);
                    positions.push(key);
                    proof {
                        pre.lemma_push_map_commute(f, key);
                        pre.map_values(f).lemma_push_to_set_commute(f(key));
                        assert(!pre.map_values(f).contains(f(key)));
                        assert forall|m: int, n: int|
                            0 <= m < positions@.map_values(f).len() && 0 <= n
                                < positions@.map_values(f).len() && m != n implies positions@.map_values(
                            f,
                        )[m] != positions@.map_values(f)[n] by {
                            if m == pre.len() {
                                assert(pre.map_values(f)[n] == positions@.map_values(f)[n]);
                            } else if n == pre.len() {
                                assert(pre.map_values(f)[m] == positions@.map_values(f)[m]);
                            } else {
                                assert(pre.map_values(f)[m] == positions@.map_values(f)[m]);
                                assert(pre.map_values(f)[n] == positions@.map_values(f)[n]);
                            }
                        }
                        assert(table.contents() =~= c0.union(positions@.map_values(f).to_set()));
                        pre.lemma_push_to_set_commute(key);
                        assert(positions@ == pre.push(key));
                        assert forall|n: int| 0 <= n < positions@.len() implies box_prefix(
                            lo,
                            s,
                            dx as int,
                            dy as int,
                            dz + 1,
                        ).contains(#[trigger] positions@[n]) by {
                            if n < pre.len() {
                                assert(prefix.contains(pre[n]));
                            }
                        }
                    }
                } else {
                    proof {
                        assert(!c0.contains(f(key)));
                        assert(pre.map_values(f).to_set().contains(f(key)));
                        assert(prefix.map(f).insert(f(key)) =~= prefix.map(f));
                        if hash_injective_on(box_keys(lo, s)) {
                            let n = choose|n: int| 0 <= n < pre.len() && pre.map_values(f)[n] == f(key);
                            assert(prefix.contains(pre[n]));
                            assert(box_keys(lo, s).contains(pre[n]));
                            assert(box_keys(lo, s).contains(key));
                            assert(pre[n] == key);
                        }
                    }
                }
                dz = dz + 1;
            }
            assert(box_prefix(lo, s, dx as int, dy as int, s) =~= box_prefix(
                lo,
                s,
                dx as int,
                dy as int + 1,
                0,
            ));
            assert(dx * s * s + dy * s + s == dx * s * s + (dy + 1) * s) by (nonlinear_arith);
            dy = dy + 1;
        }
        assert(box_prefix(lo, s, dx as int, s, 0) =~= box_prefix(lo, s, dx as int + 1, 0, 0));
        assert(dx * s * s + s * s == (dx + 1) * s * s) by (nonlinear_arith);
        dx = dx + 1;
    }
    assert(box_prefix(lo, s, s, 0, 0) =~= box_keys(lo, s));
    assert(s * s * s == side * side * side);
    assert forall|n: int| 0 <= n < positions@.len() implies box_keys(lo, side as int).contains(
        #[trigger] positions@[n],
    ) by {
        assert(box_prefix(lo, s, s, 0, 0).contains(positions@[n]));
    }
    positions
}

proof fn lemma_pairs_value(keys: Seq<UVec3>, v: u32, p: (u32, u32))
    ensures
        pairs_of(keys, v).contains(p) ==> p.1 == v,
{
    if pairs_of(keys, v).contains(p) {
        let m = choose|m: int| 0 <= m < keys.len() && #[trigger] keys.map_values(pair_with(v))[m] == p;
    }
}

/// Removes from `table` the entry of `val` for every key of `keys`.
fn remove_pairs(table: &mut GPUHashTable, keys: &Vec<UVec3>, val: u32)
    requires
        old(table).wf(),
        old(table).block() == world_block(),
        keys@.map_values(pair_with(val)).no_duplicates(),
        pairs_of(keys@, val).subset_of(old(table).contents()),
    ensures
        final(table).wf(),
        final(table).block() == old(table).block(),
        final(table).bucket_count() == old(table).bucket_count(),
        final(table).capacity() == old(table).capacity(),
        final(table).contents() == old(table).contents().difference(pairs_of(keys@, val)),
        final(table).free_count() == old(table).free_count() + keys@.len(),
{
    let ghost c0 = table.contents();
    let ghost free0 = table.free_count();
    let ghost f = pair_with(val);
    let mut n: usize = 0;
    assert(keys@.take(0).map_values(f).to_set() =~= Set::empty());
    while n < keys.len()
        invariant
            table.wf(),
            table.block() == world_block(),
            table.bucket_count() == old(table).bucket_count(),
            table.capacity() == old(table).capacity(),
            c0 == old(table).contents(),
            free0 == old(table).free_count(),
            f == pair_with(val),
            keys@.map_values(f).no_duplicates(),
            keys@.map_values(f).to_set().subset_of(c0),
            n <= keys@.len(),
            table.contents() == c0.difference(keys@.take(n as int).map_values(f).to_set()),
            table.free_count() == free0 + n,
        decreases keys@.len() - n,
    {
        let key = keys[n];
        let ghost pre = keys@.take(n as int);
        proof {
            assert(keys@.take(n + 1) =~= pre.push(key));
            pre.lemma_push_map_commute(f, key);
            pre.map_values(f).lemma_push_to_set_commute(f(key));
            assert(keys@.map_values(f)[n as int] == f(key));
            assert(c0.contains(f(key)));
            assert(!pre.map_values(f).to_set().contains(f(key))) by {
                if pre.map_values(f).to_set().contains(f(key)) {
                    let m = choose|m: int| 0 <= m < pre.len() && pre.map_values(f)[m] == f(key);
                    assert(keys@.map_values(f)[m] == f(key));
                }
            }
        }
        let _ = table.remove(key, val);
        proof {
            assert(table.contents() =~= c0.difference(keys@.take(n + 1).map_values(f).to_set()));
        }
        n = n + 1;
    }
    assert(keys@.take(keys@.len() as int) =~= keys@);
}

/// Inserts into `table` the entry of `val` for every voxel of the cube of
/// half-width `half` around the biased world position `c`. Returns one key
/// for each entry that it added.
fn fill_footprint(table: &mut GPUHashTable, c: IVec3, half: u64, val: u32) -> (positions: Vec<
    UVec3,
>)
    requires
        old(table).wf(),
        old(table).block() == world_block(),
        footprint_fits(c, half as int),
        footprint_volume(half as int) <= old(table).free_count(),
        forall|p: (u32, u32)| #[trigger] old(table).contents().contains(p) ==> p.1 != val,
    ensures
        final(table).wf(),
        final(table).block() == old(table).block(),
        final(table).bucket_count() == old(table).bucket_count(),
        final(table).capacity() == old(table).capacity(),
        final(table).contents() == old(table).contents().union(
            footprint(c, half as int).map(pair_with(val)),
        ),
        pairs_of(positions@, val) == footprint(c, half as int).map(pair_with(val)),
        positions@.map_values(pair_with(val)).no_duplicates(),
        final(table).free_count() == old(table).free_count() - positions@.len(),
        positions@.len() <= footprint_volume(half as int),
        forall|n: int|
            0 <= n < positions@.len() ==> footprint(c, half as int).contains(#[trigger] positions@[n]),
        hash_injective_on(footprint(c, half as int)) ==> positions@.to_set() == footprint(
            c,
            half as int,
        ) && positions@.len() == footprint_volume(half as int),
{
    let h = half as i64;
    let lo = UVec3 {
        x: (c.x as i64 + WORLD_BIAS - h) as u32,
        y: (c.y as i64 + WORLD_BIAS - h) as u32,
        z: (c.z as i64 + WORLD_BIAS - h) as u32,
    };
    let side = (2 * half + 1) as u32;
    assert(footprint(c, half as int) =~= box_keys(lo, side as int));
    fill_box(table, lo, side, val)
}

/// The registry: a fixed array of object slots, a stack of free slot
/// indices, the voxel table, the voxels that each object holds in it, and
/// the list of light sources.
pub struct World {
    hash_map: GPUHashTable,
    objects: Vec<WorldObject>,
    light_sources: Vec<u32>,
    objects_stack: Vec<usize>,
    objects_associations: Vec<Vec<UVec3>>,
}

impl World {
    pub closed spec fn table(&self) -> GPUHashTable {
        self.hash_map
    }

    pub closed spec fn object(&self, i: int) -> WorldObject {
        self.objects@[i]
    }

    /// The voxel keys through which object `i` is held in the table: one
    /// for each of its entries.
    pub closed spec fn voxels(&self, i: int) -> Seq<UVec3> {
        self.objects_associations@[i]@
    }

    pub closed spec fn lights(&self) -> Seq<u32> {
        self.light_sources@
    }

    /// The free object indices; the last one is handed out next.
    pub closed spec fn free_indices(&self) -> Seq<usize> {
        self.objects_stack@
    }

    pub open spec fn is_live(&self, i: int) -> bool {
        0 < i < OBJECT_SLOTS && !self.free_indices().contains(i as usize)
    }

    /// The alignment links of object `i` go both ways: its anchor is a
    /// different registered object whose dependent is `i`, and its dependent
    /// is a different registered object aligned to `i`.
    pub open spec fn links_ok(&self, i: int) -> bool {
        let o = self.object(i);
        let a = o.aligned_to_object as int;
        let d = o.object_aligned_to_self as int;
        &&& a != 0 ==> self.is_live(a) && a != i && self.object(a).object_aligned_to_self == i
        &&& d != 0 ==> self.is_live(d) && d != i && self.object(d).aligned_to_object == i
    }

    /// Free slots are blank and hold no voxel; the table holds exactly the
    /// entries that the live objects' voxel lists make; the light list holds
    /// each live light source once; alignment links go both ways between
    /// live objects.
    pub closed spec fn wf(&self) -> bool {
        let stack = self.objects_stack@;
        &&& self.hash_map.wf()
        &&& self.hash_map.block() == world_block()
        &&& self.hash_map.bucket_count() == TABLE_CAPACITY
        &&& self.hash_map.capacity() == TABLE_CAPACITY
        &&& self.objects@.len() == OBJECT_SLOTS
        &&& self.objects_associations@.len() == OBJECT_SLOTS
        &&& stack.no_duplicates()
        &&& forall|k: int| 0 <= k < stack.len() ==> 0 < #[trigger] stack[k] < OBJECT_SLOTS
        &&& forall|i: int|
            0 <= i < OBJECT_SLOTS && !#[trigger] self.is_live(i) ==> self.objects@[i]
                == default_object() && self.objects_associations@[i]@.len() == 0
        &&& forall|i: int|
            0 <= i < OBJECT_SLOTS ==> (#[trigger] self.voxels(i)).map_values(
                pair_with(i as u32),
            ).no_duplicates()
        &&& forall|p: (u32, u32)| #[trigger]
            self.hash_map.contents().contains(p) <==> (p.1 < OBJECT_SLOTS && pairs_of(
                self.voxels(p.1 as int),
                p.1,
            ).contains(p))
        &&& self.light_sources@.no_duplicates()
        &&& forall|k: int|
            0 <= k < self.light_sources@.len() ==> self.is_live(#[trigger] self.light_sources@[k] as int)
                && self.objects@[self.light_sources@[k] as int].object_type == ObjectType::LightSource
        &&& forall|i: int|
            #[trigger] self.is_live(i) && self.objects@[i].object_type == ObjectType::LightSource
                ==> self.light_sources@.contains(i as u32)
        &&& forall|i: int| #[trigger] self.is_live(i) ==> self.links_ok(i)
    }

    /// An empty registry over an empty table with blocks of 200; indices
    /// are handed out from 165 down to 1.
    pub fn new() -> (r: World)
        ensures
            r.wf(),
            r.free_indices() == Seq::new((OBJECT_SLOTS - 1) as nat, |k: int| (k + 1) as usize),
            r.lights() == Seq::<u32>::empty(),
            r.table().contents() == Set::<(u32, u32)>::empty(),
            r.table().free_count() == TABLE_CAPACITY,
            r.table().wf(),
            r.table().block() == world_block(),
            r.table().bucket_count() == TABLE_CAPACITY,
            r.table().capacity() == TABLE_CAPACITY,
            r.table().free_stack() == Seq::new(TABLE_CAPACITY as nat, |k: int| k as usize),
            forall|b: int| 0 <= b < TABLE_CAPACITY ==> #[trigger] r.table().heads()[b] == NONE,
            forall|k: int| 0 <= k < TABLE_CAPACITY ==> #[trigger] r.table().slots()[k] == empty_slot(),
            forall|b: int| 0 <= b < TABLE_CAPACITY ==> #[trigger] r.table().chain(b).len() == 0,
            forall|i: int| 0 <= i < OBJECT_SLOTS ==> #[trigger] r.object(i) == default_object(),
            forall|i: int| 0 <= i < OBJECT_SLOTS ==> #[trigger] r.voxels(i).len() == 0,
    {
        let hash_map = GPUHashTable::new(UVec3 { x: BLOCK_EDGE, y: BLOCK_EDGE, z: BLOCK_EDGE });
        let mut objects: Vec<WorldObject> = Vec::new();
        let mut objects_associations: Vec<Vec<UVec3>> = Vec::new();
        let mut n: usize = 0;
        while n < OBJECT_SLOTS
            invariant
                n <= OBJECT_SLOTS,
                objects@.len() == n,
                objects_associations@.len() == n,
                forall|i: int| 0 <= i < n ==> #[trigger] objects@[i] == default_object(),
                forall|i: int| 0 <= i < n ==> (#[trigger] objects_associations@[i])@.len() == 0,
            decreases OBJECT_SLOTS - n,
        {
            objects.push(WorldObject::new());
            objects_associations.push(Vec::new());
            n = n + 1;
        }
        let mut objects_stack: Vec<usize> = Vec::new();
        let mut k: usize = 1;
        while k < OBJECT_SLOTS
            invariant
                1 <= k <= OBJECT_SLOTS,
                objects_stack@.len() == k - 1,
                forall|m: int| 0 <= m < k - 1 ==> #[trigger] objects_stack@[m] == m + 1,
            decreases OBJECT_SLOTS - k,
        {
            objects_stack.push(k);
            k = k + 1;
        }
        let r = World {
            hash_map,
            objects,
            light_sources: Vec::new(),
            objects_stack,
            objects_associations,
        };
        assert(r.objects_stack@ =~= Seq::new((OBJECT_SLOTS - 1) as nat, |k: int| (k + 1) as usize));
        assert forall|i: int| 0 <= i < OBJECT_SLOTS implies !#[trigger] r.is_live(i) by {
            if 0 < i {
                assert(r.objects_stack@[i - 1] == i);
            }
        }
        assert forall|i: int| 0 <= i < OBJECT_SLOTS implies (#[trigger] r.voxels(i)).map_values(
            pair_with(i as u32),
        ).no_duplicates() by {
            assert(r.voxels(i).len() == 0);
        }
        assert forall|p: (u32, u32)| #[trigger]
            r.hash_map.contents().contains(p) <==> (p.1 < OBJECT_SLOTS && pairs_of(
                r.voxels(p.1 as int),
                p.1,
            ).contains(p)) by {
            if p.1 < OBJECT_SLOTS {
                assert(r.voxels(p.1 as int).map_values(pair_with(p.1)).len() == 0);
                assert(!r.voxels(p.1 as int).map_values(pair_with(p.1)).contains(p));
            }
        }
        r
    }

    /// The registry's postcondition for `insert_object`.
    pub open spec fn inserted(
        pre: World,
        post: World,
        position: IVec3,
        object_definition: WorldObject,
        r: Result<usize, WorldError>,
    ) -> bool {
        let c = footprint_center(position, object_definition);
        let half = footprint_half(object_definition);
        if pre.free_indices().len() == 0 {
            r == Err::<usize, WorldError>(WorldError::RegistryFull) && post == pre
        } else if footprint_volume(half) > pre.table().free_count() {
            r == Err::<usize, WorldError>(WorldError::TableFull) && post == pre
        } else {
            let i = pre.free_indices().last();
            &&& r == Ok::<usize, WorldError>(i)
            &&& post.free_indices() == pre.free_indices().drop_last()
            &&& post.object(i as int) == unaligned(object_definition)
            &&& pairs_of(post.voxels(i as int), i as u32) == footprint(c, half).map(
                pair_with(i as u32),
            )
            &&& post.table().contents() == pre.table().contents().union(
                footprint(c, half).map(pair_with(i as u32)),
            )
            &&& post.is_live(i as int)
            &&& post.voxels(i as int).len() <= footprint_volume(half)
            &&& forall|n: int|
                0 <= n < post.voxels(i as int).len() ==> footprint(c, half).contains(
                    #[trigger] post.voxels(i as int)[n],
                )
            &&& post.voxels(i as int).to_set() == footprint(c, half)
            &&& post.voxels(i as int).len() == footprint_volume(half)
            &&& post.table().free_count() == pre.table().free_count() - post.voxels(i as int).len()
            &&& post.lights() == if object_definition.object_type == ObjectType::LightSource {
                pre.lights().push(i as u32)
            } else {
                pre.lights()
            }
            &&& forall|j: int|
                0 <= j < OBJECT_SLOTS && j != i ==> #[trigger] post.object(j) == pre.object(j)
                    && post.voxels(j) == pre.voxels(j)
        }
    }

    /// Registers an object: takes the most recently freed index, enters
    /// the object's voxels into the table and records them. Point-like
    /// objects take the one voxel at `position`; the others every voxel of
    /// the cube of half-width `extent + 1` around their center. The record is
    /// stored with its alignment links cleared. Fails with `RegistryFull`
    /// when no index is free, and with `TableFull` when the table has fewer
    /// free slots than the cube has voxels; a failure changes nothing.
    pub fn insert_object(&mut self, position: IVec3, object_definition: WorldObject) -> (r: Result<
        usize,
        WorldError,
    >)
        requires
            old(self).wf(),
            footprint_fits(
                footprint_center(position, object_definition),
                footprint_half(object_definition),
            ),
        ensures
            final(self).wf(),
            Self::inserted(*old(self), *final(self), position, object_definition, r),
    {
        if self.objects_stack.len() == 0 {
            return Err(WorldError::RegistryFull);
        }
        let point = object_definition.is_point_like();
        let c = if point {
            position
        } else {
            object_definition.center
        };
        let half: u64 = if point {
            0
        } else {
            object_definition.extent as u64 + 1
        };
        if !self.has_room_for(half, 0) {
            return Err(WorldError::TableFull);
        }
        let ghost pre = *self;
        let i = self.objects_stack.pop().unwrap();
        proof {
            assert(pre.objects_stack@[pre.objects_stack@.len() - 1] == i);
            assert(!self.objects_stack@.contains(i)) by {
                if self.objects_stack@.contains(i) {
                    let k = choose|k: int|
                        0 <= k < self.objects_stack@.len() && self.objects_stack@[k] == i;
                    assert(pre.objects_stack@[k] == pre.objects_stack@[pre.objects_stack@.len() - 1]);
                }
            }
            assert(pre.objects_stack@.contains(i));
            assert(!pre.is_live(i as int));
            assert forall|p: (u32, u32)| #[trigger] pre.hash_map.contents().contains(p) implies p.1
                != i as u32 by {
                if p.1 == i as u32 {
                    assert(pre.voxels(i as int).len() == 0);
                    assert(pre.voxels(i as int).map_values(pair_with(p.1)).len() == 0);
                }
            }
        }
        proof {
            self.hash_map.lemma_free_count_bound();
            lemma_fitting_cube_injective(c, half as int);
        }
        let positions = fill_footprint(&mut self.hash_map, c, half, i as u32);
        self.objects_associations[i] = positions;
        self.objects[i] = WorldObject {
            aligned_to_object: 0,
            alignment: Alignment::Front,
            object_aligned_to_self: 0,
            ..object_definition
        };
        if object_definition.object_type == ObjectType::LightSource {
            self.light_sources.push(i as u32);
        }
        proof {
            self.lemma_inserted(pre, i, object_definition);
        }
        Ok(i)
    }

    proof fn lemma_inserted(&self, pre: World, i: usize, o: WorldObject)
        requires
            pre.wf(),
            pre.objects_stack@.len() > 0,
            i == pre.objects_stack@.last(),
            self.objects_stack@ == pre.objects_stack@.drop_last(),
            !self.objects_stack@.contains(i),
            self.hash_map.wf(),
            self.hash_map.block() == world_block(),
            self.hash_map.bucket_count() == TABLE_CAPACITY,
            self.hash_map.capacity() == TABLE_CAPACITY,
            self.hash_map.contents() == pre.hash_map.contents().union(
                pairs_of(self.voxels(i as int), i as u32),
            ),
            self.voxels(i as int).map_values(pair_with(i as u32)).no_duplicates(),
            self.objects@ == pre.objects@.update(i as int, unaligned(o)),
            self.objects_associations@.len() == OBJECT_SLOTS,
            forall|j: int|
                0 <= j < OBJECT_SLOTS && j != i ==> #[trigger] self.objects_associations@[j]
                    == pre.objects_associations@[j],
            self.light_sources@ == if o.object_type == ObjectType::LightSource {
                pre.light_sources@.push(i as u32)
            } else {
                pre.light_sources@
            },
        ensures
            self.wf(),
            self.is_live(i as int),
    {
        assert(pre.objects_stack@.contains(i)) by {
            assert(pre.objects_stack@[pre.objects_stack@.len() - 1] == i);
        }
        assert(0 < i < OBJECT_SLOTS);
        assert(!pre.is_live(i as int));
        assert(self.is_live(i as int));
        assert forall|j: int| j != i implies #[trigger] self.is_live(j) == pre.is_live(j) by {
            if 0 < j < OBJECT_SLOTS {
                if pre.objects_stack@.contains(j as usize) {
                    let k = choose|k: int|
                        0 <= k < pre.objects_stack@.len() && pre.objects_stack@[k] == j as usize;
                    assert(self.objects_stack@[k] == j as usize);
                }
            }
        }
        assert forall|j: int| 0 <= j < OBJECT_SLOTS && j != i implies #[trigger] self.voxels(j)
            == pre.voxels(j) by {
            assert(self.objects_associations@[j] == pre.objects_associations@[j]);
        }
        assert forall|p: (u32, u32)| #[trigger]
            self.hash_map.contents().contains(p) <==> (p.1 < OBJECT_SLOTS && pairs_of(
                self.voxels(p.1 as int),
                p.1,
            ).contains(p)) by {
            if p.1 == i as u32 {
                assert(!pre.hash_map.contents().contains(p)) by {
                    if pre.hash_map.contents().contains(p) {
                        assert(pre.voxels(i as int).map_values(pair_with(p.1)).len() == 0);
                    }
                }
            } else if p.1 < OBJECT_SLOTS {
                assert(self.voxels(p.1 as int) == pre.voxels(p.1 as int));
                lemma_pairs_value(self.voxels(i as int), i as u32, p);
            } else {
                lemma_pairs_value(self.voxels(i as int), i as u32, p);
            }
        }
        assert forall|j: int|
            0 <= j < OBJECT_SLOTS implies (#[trigger] self.voxels(j)).map_values(
            pair_with(j as u32),
        ).no_duplicates() by {
            if j != i {
                assert(self.voxels(j) == pre.voxels(j));
            }
        }
        assert(!pre.light_sources@.contains(i as u32)) by {
            if pre.light_sources@.contains(i as u32) {
                let k = choose|k: int|
                    0 <= k < pre.light_sources@.len() && pre.light_sources@[k] == i as u32;
                assert(pre.is_live(pre.light_sources@[k] as int));
            }
        }
        assert forall|k: int|
            0 <= k < self.light_sources@.len() implies self.is_live(
            #[trigger] self.light_sources@[k] as int,
        ) && self.objects@[self.light_sources@[k] as int].object_type == ObjectType::LightSource by {
            if k < pre.light_sources@.len() {
                assert(pre.is_live(pre.light_sources@[k] as int));
            }
        }
        assert forall|j: int|
            #[trigger] self.is_live(j) && self.objects@[j].object_type == ObjectType::LightSource
                implies self.light_sources@.contains(j as u32) by {
            if j == i {
                assert(self.light_sources@[pre.light_sources@.len() as int] == i as u32);
            } else {
                assert(pre.is_live(j));
                assert(pre.light_sources@.contains(j as u32));
                let k = choose|k: int|
                    0 <= k < pre.light_sources@.len() && pre.light_sources@[k] == j as u32;
                assert(self.light_sources@[k] == j as u32);
            }
        }
        assert forall|j: int| #[trigger] self.is_live(j) implies self.links_ok(j) by {
            if j != i {
                assert(pre.is_live(j));
                assert(pre.links_ok(j));
                let a = pre.objects@[j].aligned_to_object as int;
                let d = pre.objects@[j].object_aligned_to_self as int;
                if a != 0 {
                    assert(self.is_live(a) == pre.is_live(a));
                }
                if d != 0 {
                    assert(self.is_live(d) == pre.is_live(d));
                }
            }
        }
    }

    /// The registry's postcondition for `remove_object`.
    pub open spec fn removed(pre: World, post: World, object_index: usize) -> bool {
        let v = object_index as u32;
        &&& post.free_indices() == pre.free_indices().push(object_index)
        &&& !post.is_live(object_index as int)
        &&& !post.lights().contains(v)
        &&& post.object(object_index as int) == default_object()
        &&& post.voxels(object_index as int).len() == 0
        &&& post.table().contents() == pre.table().contents().difference(
            pairs_of(pre.voxels(object_index as int), v),
        )
        &&& post.table().free_count() == pre.table().free_count() + pre.voxels(
            object_index as int,
        ).len()
        &&& forall|p: (u32, u32)| #[trigger] post.table().contents().contains(p) ==> p.1 != v
        &&& post.lights() == if pre.lights().contains(v) {
            pre.lights().remove(pre.lights().index_of(v))
        } else {
            pre.lights()
        }
        &&& forall|j: int|
            0 <= j < OBJECT_SLOTS && j != object_index ==> #[trigger] post.object(j) == detached(
                pre.object(j),
                object_index,
            ) && post.voxels(j) == pre.voxels(j)
    }

    /// Unregisters a live object: takes its voxels out of the table, drops
    /// it from the light list, clears every alignment link to it on the other
    /// objects (a dependent falls back to unaligned, along the front axis),
    /// blanks its slot and pushes its index on the free stack.
    pub fn remove_object(&mut self, object_index: usize)
        requires
            old(self).wf(),
            old(self).is_live(object_index as int),
        ensures
            final(self).wf(),
            Self::removed(*old(self), *final(self), object_index),
    {
        let ghost pre = *self;
        let v = object_index as u32;
        proof {
            assert(pairs_of(self.voxels(object_index as int), v).subset_of(self.hash_map.contents()))
                by {
                assert forall|p: (u32, u32)|
                    pairs_of(self.voxels(object_index as int), v).contains(p) implies #[trigger] self.hash_map.contents().contains(p) by {
                    lemma_pairs_value(self.voxels(object_index as int), v, p);
                }
            }
        }
        remove_pairs(&mut self.hash_map, &self.objects_associations[object_index], v);
        self.objects_associations[object_index] = Vec::new();
        let mut k: usize = 0;
        let n = self.light_sources.len();
        while k < n && self.light_sources[k] != v
            invariant
                n == self.light_sources@.len(),
                self.light_sources@ == pre.light_sources@,
                k <= n,
                forall|m: int| 0 <= m < k ==> self.light_sources@[m] != v,
            decreases n - k,
        {
            k = k + 1;
        }
        let ghost light_pos = k as int;
        if k < n {
            self.light_sources.remove(k);
        }
        let o = self.objects[object_index];
        if o.object_aligned_to_self != 0 {
            let d = o.object_aligned_to_self;
            proof {
                assert(pre.is_live(object_index as int));
                assert(pre.links_ok(object_index as int));
            }
            let mut od = self.objects[d];
            od.aligned_to_object = 0;
            od.alignment = Alignment::Front;
            self.objects[d] = od;
        }
        if o.aligned_to_object != 0 {
            let a = o.aligned_to_object;
            proof {
                assert(pre.links_ok(object_index as int));
            }
            let mut oa = self.objects[a];
            oa.object_aligned_to_self = 0;
            self.objects[a] = oa;
        }
        self.objects[object_index] = WorldObject::new();
        self.objects_stack.push(object_index);
        proof {
            assert(pre.links_ok(object_index as int));
            assert forall|j: int| 0 <= j < OBJECT_SLOTS && j != object_index implies #[trigger] self.objects@[j]
                == detached(pre.objects@[j], object_index) by {
                if pre.is_live(j) {
                    assert(pre.links_ok(j));
                } else {
                    assert(pre.objects@[j] == default_object());
                }
            }
            self.lemma_removed(pre, object_index, light_pos);
        }
    }

    proof fn lemma_removed(&self, pre: World, idx: usize, light_pos: int)
        requires
            pre.wf(),
            pre.is_live(idx as int),
            self.objects_stack@ == pre.objects_stack@.push(idx),
            self.hash_map.wf(),
            self.hash_map.block() == world_block(),
            self.hash_map.bucket_count() == TABLE_CAPACITY,
            self.hash_map.capacity() == TABLE_CAPACITY,
            self.hash_map.contents() == pre.hash_map.contents().difference(
                pairs_of(pre.voxels(idx as int), idx as u32),
            ),
            self.hash_map.free_count() == pre.hash_map.free_count() + pre.voxels(idx as int).len(),
            self.objects_associations@.len() == OBJECT_SLOTS,
            self.objects_associations@[idx as int]@.len() == 0,
            forall|j: int|
                0 <= j < OBJECT_SLOTS && j != idx ==> #[trigger] self.objects_associations@[j]
                    == pre.objects_associations@[j],
            self.objects@.len() == OBJECT_SLOTS,
            self.objects@[idx as int] == default_object(),
            forall|j: int|
                0 <= j < OBJECT_SLOTS && j != idx ==> #[trigger] self.objects@[j] == detached(
                    pre.objects@[j],
                    idx,
                ),
            0 <= light_pos <= pre.light_sources@.len(),
            forall|m: int| 0 <= m < light_pos ==> pre.light_sources@[m] != idx as u32,
            light_pos < pre.light_sources@.len() ==> pre.light_sources@[light_pos] == idx as u32
                && self.light_sources@ == pre.light_sources@.remove(light_pos),
            light_pos == pre.light_sources@.len() ==> self.light_sources@ == pre.light_sources@,
        ensures
            self.wf(),
            Self::removed(pre, *self, idx),
    {
        let v = idx as u32;
        assert(!pre.objects_stack@.contains(idx));
        assert(!self.is_live(idx as int)) by {
            assert(self.objects_stack@[pre.objects_stack@.len() as int] == idx);
        }
        assert forall|j: int| j != idx implies #[trigger] self.is_live(j) == pre.is_live(j) by {
            if 0 < j < OBJECT_SLOTS {
                if pre.objects_stack@.contains(j as usize) {
                    let k = choose|k: int|
                        0 <= k < pre.objects_stack@.len() && pre.objects_stack@[k] == j as usize;
                    assert(self.objects_stack@[k] == j as usize);
                }
                if self.objects_stack@.contains(j as usize) {
                    let k = choose|k: int|
                        0 <= k < self.objects_stack@.len() && self.objects_stack@[k] == j as usize;
                    assert(pre.objects_stack@[k] == j as usize);
                }
            }
        }
        assert forall|j: int| 0 <= j < OBJECT_SLOTS && j != idx implies #[trigger] self.voxels(j)
            == pre.voxels(j) by {
            assert(self.objects_associations@[j] == pre.objects_associations@[j]);
        }
        assert(self.objects_stack@.no_duplicates()) by {
            let s = self.objects_stack@;
            assert forall|m: int, n: int|
                0 <= m < s.len() && 0 <= n < s.len() && m != n implies s[m] != s[n] by {
                if m == pre.objects_stack@.len() {
                    assert(pre.objects_stack@[n] != idx);
                } else if n == pre.objects_stack@.len() {
                    assert(pre.objects_stack@[m] != idx);
                }
            }
        }
        assert forall|p: (u32, u32)| #[trigger]
            self.hash_map.contents().contains(p) <==> (p.1 < OBJECT_SLOTS && pairs_of(
                self.voxels(p.1 as int),
                p.1,
            ).contains(p)) by {
            lemma_pairs_value(pre.voxels(idx as int), v, p);
            if p.1 == v {
                assert(self.voxels(idx as int).map_values(pair_with(p.1)).len() == 0);
                if pre.hash_map.contents().contains(p) {
                    assert(pairs_of(pre.voxels(p.1 as int), p.1).contains(p));
                }
            } else if p.1 < OBJECT_SLOTS {
                assert(self.voxels(p.1 as int) == pre.voxels(p.1 as int));
            }
        }
        assert forall|p: (u32, u32)| #[trigger] self.hash_map.contents().contains(p) implies p.1
            != v by {
            if p.1 == v {
                assert(pre.hash_map.contents().contains(p));
                assert(pairs_of(pre.voxels(p.1 as int), p.1).contains(p));
            }
        }
        assert forall|j: int|
            0 <= j < OBJECT_SLOTS implies (#[trigger] self.voxels(j)).map_values(
            pair_with(j as u32),
        ).no_duplicates() by {
            if j != idx {
                assert(self.voxels(j) == pre.voxels(j));
            } else {
                assert(self.voxels(j).map_values(pair_with(j as u32)).len() == 0);
            }
        }
        assert forall|j: int|
            0 <= j < OBJECT_SLOTS && !#[trigger] self.is_live(j) implies self.objects@[j]
            == default_object() && self.objects_associations@[j]@.len() == 0 by {
            if j != idx {
                assert(!pre.is_live(j));
            }
        }
        // the light list
        let ls = pre.light_sources@;
        if light_pos < ls.len() {
            assert(ls.contains(v));
            assert(ls.index_of(v) == light_pos) by {
                let q = ls.index_of(v);
                assert(ls[q] == v);
            }
            assert forall|m: int| 0 <= m < ls.len() && m != light_pos implies #[trigger] ls[m]
                != v by {
            }
        } else {
            assert(!ls.contains(v));
        }
        assert forall|m: int| 0 <= m < ls.len() && ls[m] != v implies #[trigger] self.light_sources@.contains(ls[m]) by {
            if light_pos < ls.len() {
                if m < light_pos {
                    assert(self.light_sources@[m] == ls[m]);
                } else {
                    assert(self.light_sources@[m - 1] == ls[m]);
                }
            } else {
                assert(self.light_sources@[m] == ls[m]);
            }
        }
        assert forall|k: int|
            0 <= k < self.light_sources@.len() implies #[trigger] self.light_sources@[k] != v
            && exists|m: int| 0 <= m < ls.len() && ls[m] == self.light_sources@[k] by {
            if light_pos < ls.len() && k >= light_pos {
                assert(ls[k + 1] == self.light_sources@[k]);
                assert(ls[k + 1] != ls[light_pos]);
            } else {
                assert(ls[k] == self.light_sources@[k]);
            }
        }
        assert(self.light_sources@.no_duplicates()) by {
            let t = self.light_sources@;
            assert forall|m: int, n: int|
                0 <= m < t.len() && 0 <= n < t.len() && m != n implies t[m] != t[n] by {
                if light_pos < ls.len() {
                    let m2 = if m < light_pos { m } else { m + 1 };
                    let n2 = if n < light_pos { n } else { n + 1 };
                    assert(t[m] == ls[m2]);
                    assert(t[n] == ls[n2]);
                }
            }
        }
        assert forall|k: int|
            0 <= k < self.light_sources@.len() implies self.is_live(
            #[trigger] self.light_sources@[k] as int,
        ) && self.objects@[self.light_sources@[k] as int].object_type == ObjectType::LightSource by {
            let m = choose|m: int| 0 <= m < ls.len() && ls[m] == self.light_sources@[k];
            assert(pre.is_live(ls[m] as int));
        }
        assert forall|j: int|
            #[trigger] self.is_live(j) && self.objects@[j].object_type == ObjectType::LightSource
                implies self.light_sources@.contains(j as u32) by {
            assert(pre.is_live(j));
            assert(ls.contains(j as u32));
            let m = choose|m: int| 0 <= m < ls.len() && ls[m] == j as u32;
            assert(self.light_sources@.contains(ls[m]));
        }
        // alignment links
        assert forall|j: int| #[trigger] self.is_live(j) implies self.links_ok(j) by {
            assert(pre.is_live(j));
            assert(pre.links_ok(j));
            let a = pre.objects@[j].aligned_to_object as int;
            let d = pre.objects@[j].object_aligned_to_self as int;
            if a != 0 && a != idx {
                assert(self.is_live(a) == pre.is_live(a));
            }
            if d != 0 && d != idx {
                assert(self.is_live(d) == pre.is_live(d));
            }
        }
    }

    /// The registry's postcondition for `update_object_position`.
    pub open spec fn moved(
        pre: World,
        post: World,
        object_index: usize,
        object_definition: WorldObject,
        r: Result<(), WorldError>,
    ) -> bool {
        let i = object_index as int;
        let v = object_index as u32;
        let o = relocated(pre.object(i), object_definition);
        let half = footprint_half(o);
        if footprint_volume(half) > pre.table().free_count() + pre.voxels(i).len() {
            r == Err::<(), WorldError>(WorldError::TableFull) && post == pre
        } else {
            &&& r == Ok::<(), WorldError>(())
            &&& post.object(i) == o
            &&& pairs_of(post.voxels(i), v) == footprint(o.center, half).map(pair_with(v))
            &&& post.table().contents() == pre.table().contents().difference(
                pairs_of(pre.voxels(i), v),
            ).union(footprint(o.center, half).map(pair_with(v)))
            &&& post.voxels(i).len() <= footprint_volume(half)
            &&& forall|n: int|
                0 <= n < post.voxels(i).len() ==> footprint(o.center, half).contains(
                    #[trigger] post.voxels(i)[n],
                )
            &&& post.voxels(i).to_set() == footprint(o.center, half)
            &&& post.voxels(i).len() == footprint_volume(half)
            &&& forall|p: (u32, u32)|
                #[trigger] post.table().contents().contains(p) && p.1 == v ==> footprint(
                    o.center,
                    half,
                ).map(pair_with(v)).contains(p)
            &&& post.table().free_count() == pre.table().free_count() + pre.voxels(i).len()
                - post.voxels(i).len()
            &&& post.free_indices() == pre.free_indices()
            &&& post.lights() == pre.lights()
            &&& forall|j: int|
                0 <= j < OBJECT_SLOTS && j != i ==> #[trigger] post.object(j) == pre.object(j)
                    && post.voxels(j) == pre.voxels(j)
        }
    }

    /// Moves a live object: takes its voxels out of the table, then enters
    /// those of the cube around `object_definition`'s center and extent (one
    /// voxel for a point-like object), and stores that center and extent in
    /// its record. The index is not reallocated. Fails with `TableFull`, and
    /// changes nothing, when the table, once the old voxels are out, has fewer
    /// free slots than the new cube has voxels.
    pub fn update_object_position(&mut self, object_index: usize, object_definition: WorldObject) -> (r:
        Result<(), WorldError>)
        requires
            old(self).wf(),
            old(self).is_live(object_index as int),
            footprint_fits(
                object_definition.center,
                footprint_half(relocated(old(self).object(object_index as int), object_definition)),
            ),
        ensures
            final(self).wf(),
            Self::moved(*old(self), *final(self), object_index, object_definition, r),
    {
        let ghost pre = *self;
        let v = object_index as u32;
        let o = self.objects[object_index];
        let half: u64 = if o.is_point_like() {
            0
        } else {
            object_definition.extent as u64 + 1
        };
        let reclaimed = self.objects_associations[object_index].len();
        if !self.has_room_for(half, reclaimed) {
            return Err(WorldError::TableFull);
        }
        proof {
            assert(pairs_of(self.voxels(object_index as int), v).subset_of(self.hash_map.contents()))
                by {
                assert forall|p: (u32, u32)|
                    pairs_of(self.voxels(object_index as int), v).contains(p) implies #[trigger] self.hash_map.contents().contains(p) by {
                    lemma_pairs_value(self.voxels(object_index as int), v, p);
                }
            }
        }
        remove_pairs(&mut self.hash_map, &self.objects_associations[object_index], v);
        proof {
            assert forall|p: (u32, u32)| #[trigger] self.hash_map.contents().contains(p) implies p.1
                != v by {
                if p.1 == v {
                    assert(pre.hash_map.contents().contains(p));
                    assert(pairs_of(pre.voxels(p.1 as int), p.1).contains(p));
                }
            }
        }
        proof {
            self.hash_map.lemma_free_count_bound();
            lemma_fitting_cube_injective(object_definition.center, half as int);
        }
        let positions = fill_footprint(&mut self.hash_map, object_definition.center, half, v);
        self.objects_associations[object_index] = positions;
        self.objects[object_index] = WorldObject {
            center: object_definition.center,
            extent: object_definition.extent,
            ..o
        };
        proof {
            assert forall|j: int| 0 <= j < OBJECT_SLOTS && j != object_index implies #[trigger] self.voxels(j)
                == pre.voxels(j) by {
            }
            assert forall|j: int| #[trigger] self.is_live(j) == pre.is_live(j) by {
            }
            assert forall|p: (u32, u32)| #[trigger]
                self.hash_map.contents().contains(p) <==> (p.1 < OBJECT_SLOTS && pairs_of(
                    self.voxels(p.1 as int),
                    p.1,
                ).contains(p)) by {
                lemma_pairs_value(pre.voxels(object_index as int), v, p);
                lemma_pairs_value(self.voxels(object_index as int), v, p);
                if p.1 != v && p.1 < OBJECT_SLOTS {
                    assert(self.voxels(p.1 as int) == pre.voxels(p.1 as int));
                }
            }
            assert forall|j: int|
                0 <= j < OBJECT_SLOTS implies (#[trigger] self.voxels(j)).map_values(
                pair_with(j as u32),
            ).no_duplicates() by {
                if j != object_index {
                    assert(self.voxels(j) == pre.voxels(j));
                }
            }
            assert forall|j: int| #[trigger] self.is_live(j) implies self.links_ok(j) by {
                assert(pre.links_ok(j));
            }
            assert forall|j: int|
                #[trigger] self.is_live(j) && self.objects@[j].object_type == ObjectType::LightSource
                    implies self.light_sources@.contains(j as u32) by {
                assert(pre.is_live(j));
            }
        }
        Ok(())
    }

    /// Whether `index` names a registered object.
    pub fn is_object(&self, index: usize) -> (r: bool)
        requires
            self.wf(),
        ensures
            r == self.is_live(index as int),
    {
        if index == 0 || index >= OBJECT_SLOTS {
            return false;
        }
        let n = self.objects_stack.len();
        let mut k: usize = 0;
        while k < n
            invariant
                n == self.objects_stack@.len(),
                k <= n,
                forall|m: int| 0 <= m < k ==> self.objects_stack@[m] != index,
            decreases n - k,
        {
            if self.objects_stack[k] == index {
                return false;
            }
            k = k + 1;
        }
        true
    }

    /// When `dependent` may be aligned to `anchor`: both are registered
    /// objects, they differ, the anchor is not aligned to the dependent, and
    /// the anchor has no other dependent.
    pub open spec fn can_align(&self, dependent: usize, anchor: usize) -> bool {
        &&& self.is_live(dependent as int)
        &&& self.is_live(anchor as int)
        &&& dependent != anchor
        &&& self.object(dependent as int).object_aligned_to_self != anchor
        &&& (self.object(anchor as int).object_aligned_to_self == 0 || self.object(
            anchor as int,
        ).object_aligned_to_self == dependent)
    }

    /// The registry's postcondition for `align_object`.
    pub open spec fn aligned(
        pre: World,
        post: World,
        dependent: usize,
        anchor: usize,
        axis: Alignment,
        r: Result<(), WorldError>,
    ) -> bool {
        let prev = pre.object(dependent as int).aligned_to_object;
        if !pre.can_align(dependent, anchor) {
            r == Err::<(), WorldError>(WorldError::InvalidAlignment) && post == pre
        } else {
            &&& r == Ok::<(), WorldError>(())
            &&& post.object(dependent as int) == (WorldObject {
                aligned_to_object: anchor,
                alignment: axis,
                ..pre.object(dependent as int)
            })
            &&& post.object(anchor as int) == (WorldObject {
                object_aligned_to_self: dependent,
                ..pre.object(anchor as int)
            })
            &&& prev != 0 && prev != anchor ==> post.object(prev as int) == (WorldObject {
                object_aligned_to_self: 0,
                ..pre.object(prev as int)
            })
            &&& forall|j: int|
                0 <= j < OBJECT_SLOTS && j != dependent && j != anchor && j != prev
                    ==> #[trigger] post.object(j) == pre.object(j)
            &&& post.same_except_objects(pre)
        }
    }

    /// The table, the voxel lists, the free stack and the light list are
    /// those of `other`.
    pub open spec fn same_except_objects(&self, other: World) -> bool {
        &&& self.table() == other.table()
        &&& self.free_indices() == other.free_indices()
        &&& self.lights() == other.lights()
        &&& forall|j: int| 0 <= j < OBJECT_SLOTS ==> #[trigger] self.voxels(j) == other.voxels(j)
    }

    /// Aligns `dependent` to `anchor` along `axis`. A previous anchor of
    /// `dependent` loses its back-link first. Fails with `InvalidAlignment`,
    /// and changes nothing, when either index is not a registered object,
    /// when they are the same object, when the anchor is aligned to the
    /// dependent, or when the anchor already has another dependent (which the
    /// caller must detach first).
    pub fn align_object(&mut self, dependent: usize, anchor: usize, axis: Alignment) -> (r: Result<
        (),
        WorldError,
    >)
        requires
            old(self).wf(),
        ensures
            final(self).wf(),
            Self::aligned(*old(self), *final(self), dependent, anchor, axis, r),
    {
        if dependent == anchor || !self.is_object(dependent) || !self.is_object(anchor) {
            return Err(WorldError::InvalidAlignment);
        }
        let current = self.objects[anchor].object_aligned_to_self;
        if (current != 0 && current != dependent) || self.objects[dependent].object_aligned_to_self
            == anchor {
            return Err(WorldError::InvalidAlignment);
        }
        let ghost pre = *self;
        let prev = self.objects[dependent].aligned_to_object;
        proof {
            assert(pre.links_ok(dependent as int));
            assert(pre.links_ok(anchor as int));
            if prev != 0 {
                assert(pre.links_ok(prev as int));
            }
        }
        if prev != 0 && prev != anchor {
            let mut op = self.objects[prev];
            op.object_aligned_to_self = 0;
            self.objects[prev] = op;
        }
        let mut od = self.objects[dependent];
        od.aligned_to_object = anchor;
        od.alignment = axis;
        self.objects[dependent] = od;
        let mut oa = self.objects[anchor];
        oa.object_aligned_to_self = dependent;
        self.objects[anchor] = oa;
        proof {
            self.lemma_align_links(pre, dependent, anchor, axis);
            self.lemma_relinked(pre);
        }
        Ok(())
    }

    proof fn lemma_align_links(&self, pre: World, dep: usize, anchor: usize, axis: Alignment)
        requires
            pre.wf(),
            pre.can_align(dep, anchor),
            self.objects_stack == pre.objects_stack,
            self.objects@.len() == OBJECT_SLOTS,
            ({
                let prev = pre.objects@[dep as int].aligned_to_object;
                &&& self.objects@[dep as int] == (WorldObject {
                    aligned_to_object: anchor,
                    alignment: axis,
                    ..pre.objects@[dep as int]
                })
                &&& self.objects@[anchor as int] == (WorldObject {
                    object_aligned_to_self: dep,
                    ..pre.objects@[anchor as int]
                })
                &&& prev != 0 && prev != anchor ==> self.objects@[prev as int] == (WorldObject {
                    object_aligned_to_self: 0,
                    ..pre.objects@[prev as int]
                })
                &&& forall|j: int|
                    0 <= j < OBJECT_SLOTS && j != dep && j != anchor && j != prev
                        ==> #[trigger] self.objects@[j] == pre.objects@[j]
            }),
        ensures
            forall|j: int| #[trigger] self.is_live(j) ==> self.links_ok(j),
    {
        let prev = pre.objects@[dep as int].aligned_to_object as int;
        assert(pre.links_ok(dep as int));
        assert(pre.links_ok(anchor as int));
        if prev != 0 {
            assert(pre.links_ok(prev));
        }
        assert forall|j: int| #[trigger] self.is_live(j) implies self.links_ok(j) by {
            assert(pre.is_live(j));
            assert(pre.links_ok(j));
            let a = pre.objects@[j].aligned_to_object as int;
            let d = pre.objects@[j].object_aligned_to_self as int;
            if a != 0 {
                assert(pre.links_ok(a));
            }
            if d != 0 {
                assert(pre.links_ok(d));
            }
        }
    }

    /// A change of alignment links alone keeps the registry well formed
    /// once the links of the live objects go both ways.
    proof fn lemma_relinked(&self, pre: World)
        requires
            pre.wf(),
            self.hash_map == pre.hash_map,
            self.objects_stack == pre.objects_stack,
            self.objects_associations == pre.objects_associations,
            self.light_sources == pre.light_sources,
            self.objects@.len() == OBJECT_SLOTS,
            forall|j: int|
                0 <= j < OBJECT_SLOTS ==> (#[trigger] self.objects@[j]).object_type
                    == pre.objects@[j].object_type,
            forall|j: int|
                0 <= j < OBJECT_SLOTS && !pre.is_live(j) ==> #[trigger] self.objects@[j]
                    == pre.objects@[j],
            forall|j: int| #[trigger] self.is_live(j) ==> self.links_ok(j),
        ensures
            self.wf(),
    {
        assert forall|j: int| #[trigger] self.is_live(j) == pre.is_live(j) by {
        }
        assert forall|j: int|
            0 <= j < OBJECT_SLOTS && !#[trigger] self.is_live(j) implies self.objects@[j]
            == default_object() && self.objects_associations@[j]@.len() == 0 by {
            assert(!pre.is_live(j));
        }
        assert forall|j: int|
            #[trigger] self.is_live(j) && self.objects@[j].object_type == ObjectType::LightSource
                implies self.light_sources@.contains(j as u32) by {
            assert(pre.is_live(j));
        }
        assert forall|k: int|
            0 <= k < self.light_sources@.len() implies self.is_live(
            #[trigger] self.light_sources@[k] as int,
        ) && self.objects@[self.light_sources@[k] as int].object_type == ObjectType::LightSource by {
            assert(pre.is_live(pre.light_sources@[k] as int));
        }
        assert forall|j: int| 0 <= j < OBJECT_SLOTS implies #[trigger] self.voxels(j) == pre.voxels(
            j,
        ) by {
        }
    }

    /// Clears the alignment of a registered object: it becomes unaligned
    /// (front axis) and its anchor loses its back-link.
    pub fn remove_alignment(&mut self, dependent: usize)
        requires
            old(self).wf(),
            old(self).is_live(dependent as int),
        ensures
            final(self).wf(),
            final(self).same_except_objects(*old(self)),
            final(self).object(dependent as int) == (WorldObject {
                aligned_to_object: 0,
                alignment: Alignment::Front,
                ..old(self).object(dependent as int)
            }),
            ({
                let a = old(self).object(dependent as int).aligned_to_object;
                &&& a != 0 ==> final(self).object(a as int) == (WorldObject {
                    object_aligned_to_self: 0,
                    ..old(self).object(a as int)
                })
                &&& forall|j: int|
                    0 <= j < OBJECT_SLOTS && j != dependent && j != a
                        ==> #[trigger] final(self).object(j) == old(self).object(j)
            }),
    {
        let ghost pre = *self;
        let a = self.objects[dependent].aligned_to_object;
        proof {
            assert(pre.links_ok(dependent as int));
        }
        if a != 0 {
            let mut oa = self.objects[a];
            oa.object_aligned_to_self = 0;
            self.objects[a] = oa;
        }
        let mut od = self.objects[dependent];
        od.aligned_to_object = 0;
        od.alignment = Alignment::Front;
        self.objects[dependent] = od;
        proof {
            assert forall|j: int| #[trigger] self.is_live(j) implies self.links_ok(j) by {
                assert(pre.is_live(j));
                assert(pre.links_ok(j));
                let x = pre.objects@[j].aligned_to_object as int;
                let d = pre.objects@[j].object_aligned_to_self as int;
                if x != 0 {
                    assert(pre.links_ok(x));
                }
                if d != 0 {
                    assert(pre.links_ok(d));
                }
            }
            self.lemma_relinked(pre);
        }
    }

    /// The registered objects that are aligned to another object, in
    /// increasing index order: those that a resolution tick repositions.
    pub fn aligned_objects(&self) -> (r: Vec<usize>)
        requires
            self.wf(),
        ensures
            forall|x: usize| #[trigger]
                r@.contains(x) <==> (self.is_live(x as int) && self.object(x as int).aligned_to_object
                    != 0),
            forall|m: int, n: int| 0 <= m < n < r@.len() ==> r@[m] < r@[n],
    {
        let mut r: Vec<usize> = Vec::new();
        let mut i: usize = 1;
        while i < OBJECT_SLOTS
            invariant
                self.wf(),
                1 <= i <= OBJECT_SLOTS,
                forall|x: usize| #[trigger]
                    r@.contains(x) <==> (x < i && self.is_live(x as int) && self.object(
                        x as int,
                    ).aligned_to_object != 0),
                forall|m: int, n: int| 0 <= m < n < r@.len() ==> r@[m] < r@[n],
                forall|m: int| 0 <= m < r@.len() ==> r@[m] < i,
            decreases OBJECT_SLOTS - i,
        {
            if self.is_object(i) && self.objects[i].aligned_to_object != 0 {
                let ghost pre = r@;
                r.push(i);
                proof {
                    assert forall|x: usize| #[trigger]
                        r@.contains(x) <==> (x < i + 1 && self.is_live(x as int) && self.object(
                            x as int,
                        ).aligned_to_object != 0) by {
                        if x == i {
                            assert(r@[pre.len() as int] == i);
                        } else {
                            if r@.contains(x) {
                                let m = choose|m: int| 0 <= m < r@.len() && r@[m] == x;
                                assert(pre[m] == x);
                                assert(pre.contains(x));
                            }
                            if pre.contains(x) {
                                let m = choose|m: int| 0 <= m < pre.len() && pre[m] == x;
                                assert(r@[m] == x);
                            }
                        }
                    }
                }
            }
            i = i + 1;
        }
        r
    }

    /// The record in slot `index`.
    pub fn get_object(&self, index: usize) -> (r: WorldObject)
        requires
            self.wf(),
            index < OBJECT_SLOTS,
        ensures
            r == self.object(index as int),
    {
        self.objects[index]
    }

    /// The voxel keys through which object `index` is held in the table.
    pub fn voxels_of(&self, index: usize) -> (r: &Vec<UVec3>)
        requires
            self.wf(),
            index < OBJECT_SLOTS,
        ensures
            r@ == self.voxels(index as int),
    {
        &self.objects_associations[index]
    }

    /// The indices of the registered light sources, in registration order.
    pub fn light_sources(&self) -> (r: &Vec<u32>)
        ensures
            r@ == self.lights(),
    {
        &self.light_sources
    }

    /// The voxel table, as the renderer reads it.
    pub fn hash_map(&self) -> (r: &GPUHashTable)
        ensures
            *r == self.table(),
    {
        &self.hash_map
    }

    /// Whether the table has a free slot for every voxel of a cube of
    /// half-width `half`, once `reclaimed` more slots are freed.
    fn has_room_for(&self, half: u64, reclaimed: usize) -> (r: bool)
        requires
            self.hash_map.wf(),
            half <= u32::MAX,
        ensures
            r == (footprint_volume(half as int) <= self.table().free_count() + reclaimed),
    {
        let side = (2 * half + 1) as u128;
        assert(side * side <= 0x10_0000_0000_0000_0000 && side * side * side
            <= 0x1_0000_0000_0000_0000_0000_0000_0000) by (nonlinear_arith)
            requires
                side <= 0x2_0000_0001,
        ;
        let volume = side * side * side;
        let free = self.hash_map.free_slots() as u128 + reclaimed as u128;
        volume <= free
    }
}

impl ObjectType {
    /// The number by which the renderer tells the kinds apart.
    pub fn tag(&self) -> (r: u32)
        ensures
            r == match *self {
                ObjectType::CubeWall => 0u32,
                ObjectType::SquareWall => 1,
                ObjectType::RoundWall => 2,
                ObjectType::LightSource => 3,
                ObjectType::OpticalObjectCube => 4,
                ObjectType::OpticalObjectSquareWall => 5,
                ObjectType::OpticalObjectRoundWall => 6,
            },
    {
        match self {
            ObjectType::CubeWall => 0,
            ObjectType::SquareWall => 1,
            ObjectType::RoundWall => 2,
            ObjectType::LightSource => 3,
            ObjectType::OpticalObjectCube => 4,
            ObjectType::OpticalObjectSquareWall => 5,
            ObjectType::OpticalObjectRoundWall => 6,
        }
    }

    /// The name shown in the object creation list.
    pub fn label(&self) -> (r: &'static str)
        ensures
            r@ == match *self {
                ObjectType::CubeWall => "Wall (cube)"@,
                ObjectType::SquareWall => "Wall (square)"@,
                ObjectType::RoundWall => "Wall (round)"@,
                ObjectType::LightSource => "Light source (sphere)"@,
                ObjectType::OpticalObjectCube => "Optical object (cube)"@,
                ObjectType::OpticalObjectSquareWall => "Optical object (square)"@,
                ObjectType::OpticalObjectRoundWall => "Optical object (round)"@,
            },
    {
        match self {
            ObjectType::CubeWall => "Wall (cube)",
            ObjectType::SquareWall => "Wall (square)",
            ObjectType::RoundWall => "Wall (round)",
            ObjectType::LightSource => "Light source (sphere)",
            ObjectType::OpticalObjectCube => "Optical object (cube)",
            ObjectType::OpticalObjectSquareWall => "Optical object (square)",
            ObjectType::OpticalObjectRoundWall => "Optical object (round)",
        }
    }
}

impl Alignment {
    /// The name shown in the alignment list.
    pub fn label(&self) -> (r: &'static str)
        ensures
            r@ == match *self {
                Alignment::Front => "Front"@,
                Alignment::Right => "Right"@,
                Alignment::Up => "Up"@,
            },
    {
        match self {
            Alignment::Front => "Front",
            Alignment::Right => "Right",
            Alignment::Up => "Up",
        }
    }
}

impl WorldObject {
    /// The blank record of a free slot.
    pub fn new() -> (r: WorldObject)
        ensures
            r == default_object(),
    {
        WorldObject {
            object_type: ObjectType::CubeWall,
            center: IVec3 { x: 0, y: 0, z: 0 },
            extent: 1,
            aligned_to_object: 0,
            alignment: Alignment::Front,
            object_aligned_to_self: 0,
        }
    }

    pub fn is_point_like(&self) -> (r: bool)
        ensures
            r == is_point_like(self.object_type),
    {
        match self.object_type {
            ObjectType::CubeWall | ObjectType::OpticalObjectCube => true,
            _ => false,
        }
    }
}

/// Voxelization depends on the footprint alone: two successful insertions
/// whose objects have the same voxelization center and half-width record,
/// whatever registries they were made in and in whichever order, the same
/// voxel keys: every key of the cube around that center, once each.
pub proof fn lemma_voxelization_deterministic(
    pre1: World,
    post1: World,
    position1: IVec3,
    object1: WorldObject,
    i1: usize,
    pre2: World,
    post2: World,
    position2: IVec3,
    object2: WorldObject,
    i2: usize,
)
    requires
        World::inserted(pre1, post1, position1, object1, Ok(i1)),
        World::inserted(pre2, post2, position2, object2, Ok(i2)),
        footprint_center(position1, object1) == footprint_center(position2, object2),
        footprint_half(object1) == footprint_half(object2),
    ensures
        post1.voxels(i1 as int).to_set() == post2.voxels(i2 as int).to_set(),
        post1.voxels(i1 as int).to_set() == footprint(
            footprint_center(position1, object1),
            footprint_half(object1),
        ),
        post1.voxels(i1 as int).len() == post2.voxels(i2 as int).len(),
        post1.voxels(i1 as int).len() == footprint_volume(footprint_half(object1)),
{
}

/// Indices are reused last-in first-out: right after object `i` is removed,
/// the next successful insertion hands out `i` again, and the registry is
/// not full.
pub proof fn lemma_index_reuse_lifo(
    w0: World,
    w1: World,
    w2: World,
    i: usize,
    position: IVec3,
    object_definition: WorldObject,
    r: Result<usize, WorldError>,
)
    requires
        w0.wf(),
        w0.is_live(i as int),
        World::removed(w0, w1, i),
        World::inserted(w1, w2, position, object_definition, r),
    ensures
        r != Err::<usize, WorldError>(WorldError::RegistryFull),
        r is Ok ==> r == Ok::<usize, WorldError>(i),
{
    assert(w1.free_indices().last() == i);
}

/// Removing an anchor leaves the object that was aligned to it unaligned.
pub proof fn lemma_removed_anchor_unaligns(w0: World, w1: World, anchor: usize, dependent: usize)
    requires
        w0.wf(),
        w0.is_live(anchor as int),
        World::removed(w0, w1, anchor),
        dependent < OBJECT_SLOTS,
        w0.object(dependent as int).aligned_to_object == anchor,
    ensures
        w1.object(dependent as int).aligned_to_object == 0,
{
    if dependent == anchor {
        assert(w1.object(dependent as int) == default_object());
    } else {
        assert(w1.object(dependent as int) == detached(w0.object(dependent as int), anchor));
    }
}

/// Aligning an object to a new anchor clears the back-link of its previous
/// anchor.
pub proof fn lemma_realign_clears_previous_anchor(
    w0: World,
    w1: World,
    dependent: usize,
    anchor: usize,
    axis: Alignment,
    r: Result<(), WorldError>,
)
    requires
        w0.wf(),
        World::aligned(w0, w1, dependent, anchor, axis, r),
        r is Ok,
        w0.object(dependent as int).aligned_to_object != 0,
        w0.object(dependent as int).aligned_to_object != anchor,
    ensures
        w1.object(w0.object(dependent as int).aligned_to_object as int).object_aligned_to_self == 0,
        w1.object(dependent as int).aligned_to_object == anchor,
{
}

impl World {
    /// What the registry's invariant says, over its public views.
    pub proof fn lemma_registry_facts(&self)
        requires
            self.wf(),
        ensures
            self.table().wf(),
            self.table().block() == world_block(),
            self.table().bucket_count() == TABLE_CAPACITY,
            self.table().capacity() == TABLE_CAPACITY,
            self.free_indices().no_duplicates(),
            forall|k: int|
                0 <= k < self.free_indices().len() ==> 0 < #[trigger] self.free_indices()[k]
                    < OBJECT_SLOTS,
            forall|i: int|
                0 <= i < OBJECT_SLOTS && !#[trigger] self.is_live(i) ==> self.object(i)
                    == default_object() && self.voxels(i).len() == 0,
            forall|p: (u32, u32)| #[trigger]
                self.table().contents().contains(p) <==> (p.1 < OBJECT_SLOTS && pairs_of(
                    self.voxels(p.1 as int),
                    p.1,
                ).contains(p)),
            forall|i: int|
                0 <= i < OBJECT_SLOTS ==> (#[trigger] self.voxels(i)).map_values(
                    pair_with(i as u32),
                ).no_duplicates(),
            self.lights().no_duplicates(),
            forall|k: int|
                0 <= k < self.lights().len() ==> self.is_live(#[trigger] self.lights()[k] as int)
                    && self.object(self.lights()[k] as int).object_type == ObjectType::LightSource,
            forall|i: int|
                #[trigger] self.is_live(i) && self.object(i).object_type == ObjectType::LightSource
                    ==> self.lights().contains(i as u32),
            forall|i: int| #[trigger] self.is_live(i) ==> self.links_ok(i),
            forall|j: int|
                0 <= j < OBJECT_SLOTS && #[trigger] self.object(j).aligned_to_object != 0
                    ==> self.is_live(self.object(j).aligned_to_object as int),
            forall|j: int|
                0 <= j < OBJECT_SLOTS && #[trigger] self.object(j).object_aligned_to_self != 0
                    ==> self.is_live(self.object(j).object_aligned_to_self as int),
    {
        assert forall|j: int|
            0 <= j < OBJECT_SLOTS && #[trigger] self.object(j).aligned_to_object != 0 implies self.is_live(
            self.object(j).aligned_to_object as int,
        ) by {
            if !self.is_live(j) {
                assert(self.objects@[j] == default_object());
            } else {
                assert(self.links_ok(j));
            }
        }
        assert forall|j: int|
            0 <= j < OBJECT_SLOTS && #[trigger] self.object(j).object_aligned_to_self != 0 implies self.is_live(
            self.object(j).object_aligned_to_self as int,
        ) by {
            if !self.is_live(j) {
                assert(self.objects@[j] == default_object());
            } else {
                assert(self.links_ok(j));
            }
        }
    }
}

/// The hash of a key is its linearization reduced modulo 2^32.
proof fn lemma_hash_mod(k: UVec3)
    ensures
        hash_of(world_block(), k) as int == (k.x + 200 * k.y + 40000 * k.z) % 0x1_0000_0000,
{
    let m: int = 0x1_0000_0000;
    let (x, y, z) = (k.x as int, k.y as int, k.z as int);
    let w = (200 * z) % m;
    assert(u32_specs::wrapping_mul(BLOCK_EDGE, k.z) as int == w);
    let v = (y + w) % m;
    assert(u32_specs::wrapping_add(k.y, u32_specs::wrapping_mul(BLOCK_EDGE, k.z)) as int == v);
    lemma_add_mod_noop_right(y, 200 * z, m);
    assert(v == (y + 200 * z) % m);
    let u = (200 * v) % m;
    assert(u32_specs::wrapping_mul(
        BLOCK_EDGE,
        u32_specs::wrapping_add(k.y, u32_specs::wrapping_mul(BLOCK_EDGE, k.z)),
    ) as int == u);
    lemma_mul_mod_noop_right(200, y + 200 * z, m);
    assert(u == (200 * (y + 200 * z)) % m);
    lemma_add_mod_noop_right(x, 200 * (y + 200 * z), m);
    assert(hash_of(world_block(), k) as int == (x + u) % m);
    assert(x + 200 * (y + 200 * z) == x + 200 * y + 40000 * z);
}

/// Every cube of at most 1000 voxels whose keys are valid has distinct key
/// hashes, wherever it stands in the key space: two of its keys differ by
/// less than 10 on each axis, far less than what would make their
/// linearizations collide modulo 2^32.
pub proof fn lemma_fitting_cube_injective(c: IVec3, half: int)
    requires
        0 <= half,
        footprint_fits(c, half),
        footprint_volume(half) <= TABLE_CAPACITY,
    ensures
        hash_injective_on(footprint(c, half)),
{
    assert(half <= 4) by (nonlinear_arith)
        requires
            0 <= half,
            (2 * half + 1) * (2 * half + 1) * (2 * half + 1) <= 1000,
    ;
    let m: int = 0x1_0000_0000;
    assert forall|k1: UVec3, k2: UVec3|
        #[trigger] footprint(c, half).contains(k1) && #[trigger] footprint(c, half).contains(k2)
            && hash_of(world_block(), k1) == hash_of(world_block(), k2) implies k1 == k2 by {
        lemma_hash_mod(k1);
        lemma_hash_mod(k2);
        let a1 = k1.x + 200 * k1.y + 40000 * k1.z;
        let a2 = k2.x + 200 * k2.y + 40000 * k2.z;
        lemma_fundamental_div_mod(a1, m);
        lemma_fundamental_div_mod(a2, m);
        let q1 = a1 / m;
        let q2 = a2 / m;
        assert(a1 - a2 == m * (q1 - q2));
        assert(-330000 < a1 - a2 < 330000);
        assert(q1 == q2) by (nonlinear_arith)
            requires
                a1 - a2 == m * (q1 - q2),
                -330000 < a1 - a2 < 330000,
                m == 0x1_0000_0000,
        ;
        assert(a1 == a2);
    }
}

} // verus!
