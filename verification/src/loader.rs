//! Mesh assembly from glTF primitives: which primitives contribute
//! triangles, how their vertex indices are offset into the mesh's merged
//! vertex arrays, and how index lists are cut into triangles.
use vstd::prelude::*;
use std::collections::HashMap;

verus! {

/// What the mesh loader reads of one primitive before building triangles.
pub struct PrimitiveIndices {
    /// The primitive draws a triangle list.
    pub is_triangles: bool,
    /// Number of vertex positions it has.
    pub vertex_count: usize,
    /// Its index list; `None` when it has none and draws its vertices in
    /// order.
    pub indices: Option<Vec<u32>>,
}

/// One triangle: the primitive it comes from and the positions of its three
/// corners in the mesh's merged vertex arrays.
#[derive(Clone, Copy, PartialEq, Eq, Debug, Structural)]
pub struct TriangleCorners {
    pub primitive: usize,
    pub a: usize,
    pub b: usize,
    pub c: usize,
}

/// A primitive adds vertices and triangles when it is a triangle list with
/// at least one vertex.
pub open spec fn contributes(p: PrimitiveIndices) -> bool {
    p.is_triangles && p.vertex_count > 0
}

/// The vertex count as the 32-bit index arithmetic sees it.
pub open spec fn count_u32(p: PrimitiveIndices) -> int {
    (p.vertex_count as u32) as int
}

/// The index list a primitive is drawn with: its own, or `0, 1, 2, ...` up
/// to its vertex count.
pub open spec fn index_list(p: PrimitiveIndices) -> Seq<u32> {
    match p.indices {
        Some(v) => v@,
        None => Seq::new(count_u32(p) as nat, |j: int| j as u32),
    }
}

/// The vertex offset after the primitives `prims`: the sum of the vertex
/// counts of those that contribute.
pub open spec fn vertex_offset(prims: Seq<PrimitiveIndices>) -> int
    decreases prims.len(),
{
    if prims.len() == 0 {
        0
    } else {
        vertex_offset(prims.drop_last()) + if contributes(prims.last()) {
            count_u32(prims.last())
        } else {
            0
        }
    }
}

/// The triangles of primitive `i` whose vertices start at `offset`: each
/// full group of three indices, shifted by `offset`; a trailing partial
/// group is dropped.
pub open spec fn primitive_triangles(p: PrimitiveIndices, offset: int, i: int) -> Seq<TriangleCorners> {
    if contributes(p) {
        list_triangles(index_list(p), offset, i)
    } else {
        Seq::empty()
    }
}

/// The triangles of index list `list` of primitive `i`: each full group of
/// three indices, shifted by `offset`.
pub open spec fn list_triangles(list: Seq<u32>, offset: int, i: int) -> Seq<TriangleCorners> {
    Seq::new(
        (list.len() / 3) as nat,
        |t: int|
            TriangleCorners {
                primitive: i as usize,
                a: (list[3 * t] + offset) as usize,
                b: (list[3 * t + 1] + offset) as usize,
                c: (list[3 * t + 2] + offset) as usize,
            },
    )
}

/// Every index of a full triangle of `list`, shifted by `offset`, fits in
/// 32 bits.
pub open spec fn list_fits(list: Seq<u32>, offset: int) -> bool {
    forall|j: int| 0 <= j < 3 * (list.len() / 3) ==> #[trigger] list[j] + offset <= u32::MAX
}

/// The triangles of a mesh made of `prims`, primitive by primitive.
pub open spec fn mesh_triangles(prims: Seq<PrimitiveIndices>) -> Seq<TriangleCorners>
    decreases prims.len(),
{
    if prims.len() == 0 {
        Seq::empty()
    } else {
        mesh_triangles(prims.drop_last()) + primitive_triangles(
            prims.last(),
            vertex_offset(prims.drop_last()),
            prims.len() - 1,
        )
    }
}

/// Primitive `i` of `prims` keeps its 32-bit arithmetic in range: each
/// index of a full triangle plus its offset, and the running vertex offset.
pub open spec fn primitive_fits(prims: Seq<PrimitiveIndices>, i: int) -> bool {
    let p = prims[i];
    let off = vertex_offset(prims.take(i));
    let list = index_list(p);
    contributes(p) ==> {
        &&& off + count_u32(p) <= u32::MAX
        &&& list_fits(list, off)
    }
}

/// Every primitive keeps its 32-bit arithmetic in range.
pub open spec fn mesh_fits(prims: Seq<PrimitiveIndices>) -> bool {
    forall|i: int| 0 <= i < prims.len() ==> #[trigger] primitive_fits(prims, i)
}

/// The index list of a primitive without one: `0, 1, ..., n - 1` for the
/// vertex count `n` taken as 32 bits.
pub fn sequential_indices(vertex_count: usize) -> (res: Vec<u32>)
    ensures
        res@.len() == (vertex_count as u32) as int,
        forall|j: int| 0 <= j < res@.len() ==> #[trigger] res@[j] == j,
{
    let n = vertex_count as u32;
    let mut res: Vec<u32> = Vec::new();
    let mut j: u32 = 0;
    while j < n
        invariant
            j <= n,
            res.len() == j,
            forall|k: int| 0 <= k < res@.len() ==> #[trigger] res@[k] == k,
        decreases n - j,
    {
        res.push(j);
        j = j + 1;
    }
    res
}

/// Appends the triangles of index list `list` of primitive `i`, shifted by
/// `offset`; false, with `out` in an unspecified state, when a shifted index
/// of a full triangle overflows 32 bits.
fn push_list_triangles(list: &Vec<u32>, offset: u32, i: usize, out: &mut Vec<TriangleCorners>) -> (res: bool)
    ensures
        res == list_fits(list@, offset as int),
        res ==> final(out)@ == old(out)@ + list_triangles(list@, offset as int, i as int),
{
    let ghost start = out@;
    let ntri = list.len() / 3;
    let mut t: usize = 0;
    while t < ntri
        invariant
            ntri == list.len() / 3,
            t <= ntri,
            forall|j: int| 0 <= j < 3 * t ==> #[trigger] list@[j] + offset <= u32::MAX,
            out@ == start + list_triangles(list@, offset as int, i as int).take(t as int),
        decreases ntri - t,
    {
        let limit = u32::MAX - offset;
        let j = 3 * t;
        if list[j] > limit {
            return false;
        }
        if list[j + 1] > limit {
            return false;
        }
        if list[j + 2] > limit {
            return false;
        }
        let tri = TriangleCorners {
            primitive: i,
            a: (list[j] + offset) as usize,
            b: (list[j + 1] + offset) as usize,
            c: (list[j + 2] + offset) as usize,
        };
        out.push(tri);
        proof {
            let full = list_triangles(list@, offset as int, i as int);
            assert(full[t as int] == tri);
            assert(full.take(t + 1) =~= full.take(t as int).push(tri));
            assert forall|k: int| 0 <= k < 3 * (t + 1) implies #[trigger] list@[k] + offset <= u32::MAX by {
                if k >= 3 * t {
                    assert(k == j || k == j + 1 || k == j + 2);
                }
            }
        }
        t = t + 1;
    }
    proof {
        let full = list_triangles(list@, offset as int, i as int);
        assert(full.take(ntri as int) =~= full);
    }
    true
}

/// The triangles of a mesh: primitive by primitive, skipping those that
/// are not triangle lists or have no vertices, each full group of three
/// indices (the primitive's own, or its vertices in order) shifted by the
/// vertex count of the primitives before it. `None` when that 32-bit
/// index arithmetic overflows.
pub fn mesh_triangle_corners(prims: &Vec<PrimitiveIndices>) -> (res: Option<Vec<TriangleCorners>>)
    ensures
        res is Some <==> mesh_fits(prims@),
        res matches Some(v) ==> v@ == mesh_triangles(prims@),
{
    let mut out: Vec<TriangleCorners> = Vec::new();
    let mut offset: u32 = 0;
    let n = prims.len();
    let mut i: usize = 0;
    while i < n
        invariant
            n == prims.len(),
            i <= n,
            offset == vertex_offset(prims@.take(i as int)),
            forall|k: int| 0 <= k < i ==> #[trigger] primitive_fits(prims@, k),
            out@ == mesh_triangles(prims@.take(i as int)),
        decreases n - i,
    {
        let p = &prims[i];
        proof {
            assert(prims@.take(i + 1).drop_last() =~= prims@.take(i as int));
            assert(prims@.take(i + 1).last() == prims@[i as int]);
        }
        if p.is_triangles && p.vertex_count > 0 {
            let ok = match &p.indices {
                Some(list) => push_list_triangles(list, offset, i, &mut out),
                None => {
                    let list = sequential_indices(p.vertex_count);
                    assert(list@ =~= index_list(*p));
                    push_list_triangles(&list, offset, i, &mut out)
                },
            };
            if !ok {
                assert(!primitive_fits(prims@, i as int));
                return None;
            }
            let count = p.vertex_count as u32;
            if count > u32::MAX - offset {
                assert(!primitive_fits(prims@, i as int));
                return None;
            }
            offset = offset + count;
        }
        assert(primitive_fits(prims@, i as int));
        i = i + 1;
    }
    assert(prims@.take(n as int) =~= prims@);
    Some(out)
}

/// What the loader reads of a material: its index in the document, and the
/// image its base-color texture samples, if it has one.
#[derive(Clone, Copy, PartialEq, Eq, Debug, Structural)]
pub struct MaterialTexture {
    pub material: Option<usize>,
    pub image: Option<usize>,
}

/// The material-to-texture map built from `materials`, in order: a material
/// whose base-color image was loaded as texture `t` maps its index (0 when
/// it has none) to `t`; a later material overrides an earlier one with the
/// same index.
pub open spec fn material_map(materials: Seq<MaterialTexture>, image_to_tex: Map<usize, usize>) -> Map<
    usize,
    usize,
>
    decreases materials.len(),
{
    if materials.len() == 0 {
        Map::empty()
    } else {
        let prev = material_map(materials.drop_last(), image_to_tex);
        let m = materials.last();
        match m.image {
            Some(img) => if image_to_tex.contains_key(img) {
                prev.insert(
                    match m.material {
                        Some(i) => i,
                        None => 0,
                    },
                    image_to_tex[img],
                )
            } else {
                prev
            },
            None => prev,
        }
    }
}

/// Maps each material index to the texture its base color is drawn from,
/// for the materials whose base-color image was loaded as a texture.
pub fn material_texture_map(materials: &Vec<MaterialTexture>, image_to_tex: &HashMap<usize, usize>) -> (res:
    HashMap<usize, usize>)
    ensures
        res@ == material_map(materials@, image_to_tex@),
{
    let mut res: HashMap<usize, usize> = HashMap::new();
    let n = materials.len();
    let mut i: usize = 0;
    while i < n
        invariant
            n == materials.len(),
            i <= n,
            res@ == material_map(materials@.take(i as int), image_to_tex@),
        decreases n - i,
    {
        let m = materials[i];
        proof {
            assert(materials@.take(i + 1).drop_last() =~= materials@.take(i as int));
            assert(materials@.take(i + 1).last() == m);
        }
        match m.image {
            Some(img) => {
                match image_to_tex.get(&img) {
                    Some(t) => {
                        let key = match m.material {
                            Some(k) => k,
                            None => 0,
                        };
                        res.insert(key, *t);
                    },
                    None => {},
                }
            },
            None => {},
        }
        i = i + 1;
    }
    assert(materials@.take(n as int) =~= materials@);
    res
}

/// The key a material takes in the material-to-texture map: its index, or
/// 0 when it has none.
pub open spec fn material_key(m: MaterialTexture) -> usize {
    match m.material {
        Some(i) => i,
        None => 0,
    }
}

/// The material's base-color image was loaded as a texture.
pub open spec fn has_loaded_texture(m: MaterialTexture, image_to_tex: Map<usize, usize>) -> bool {
    &&& m.image is Some
    &&& image_to_tex.contains_key(m.image->0)
}

/// Law: every material whose base-color image was loaded keeps its texture
/// in the map, unless a later material with a loaded image has the same
/// key: its key maps to the texture of its image.
pub proof fn material_map_keeps_each_loaded_texture(
    materials: Seq<MaterialTexture>,
    image_to_tex: Map<usize, usize>,
    k: int,
)
    requires
        0 <= k < materials.len(),
        has_loaded_texture(materials[k], image_to_tex),
        forall|j: int|
            k < j < materials.len() && #[trigger] has_loaded_texture(materials[j], image_to_tex) ==> material_key(
                materials[j],
            ) != material_key(materials[k]),
    ensures
        material_map(materials, image_to_tex).contains_key(material_key(materials[k])),
        material_map(materials, image_to_tex)[material_key(materials[k])] == image_to_tex[materials[k].image->0],
    decreases materials.len(),
{
    let rest = materials.drop_last();
    if k < materials.len() - 1 {
        assert forall|j: int|
            k < j < rest.len() && #[trigger] has_loaded_texture(rest[j], image_to_tex) implies material_key(rest[j])
                != material_key(rest[k]) by {
            assert(rest[j] == materials[j]);
        }
        material_map_keeps_each_loaded_texture(rest, image_to_tex, k);
        assert(has_loaded_texture(materials[materials.len() - 1], image_to_tex) ==> material_key(
            materials.last(),
        ) != material_key(materials[k]));
    }
}

/// Law: the map has a key exactly when some material with that key has a
/// loaded base-color image.
pub proof fn material_map_keys_are_loaded_materials(
    materials: Seq<MaterialTexture>,
    image_to_tex: Map<usize, usize>,
    key: usize,
)
    ensures
        material_map(materials, image_to_tex).contains_key(key) <==> exists|k: int|
            0 <= k < materials.len() && #[trigger] has_loaded_texture(materials[k], image_to_tex)
                && material_key(materials[k]) == key,
    decreases materials.len(),
{
    if materials.len() > 0 {
        let rest = materials.drop_last();
        let m = materials.last();
        material_map_keys_are_loaded_materials(rest, image_to_tex, key);
        if has_loaded_texture(m, image_to_tex) {
            assert(material_map(materials, image_to_tex) == material_map(rest, image_to_tex).insert(
                material_key(m),
                image_to_tex[m.image->0],
            ));
            assert(has_loaded_texture(materials[materials.len() - 1], image_to_tex));
        } else {
            assert(material_map(materials, image_to_tex) == material_map(rest, image_to_tex));
        }
        if exists|k: int|
            0 <= k < rest.len() && #[trigger] has_loaded_texture(rest[k], image_to_tex) && material_key(rest[k])
                == key {
            let k = choose|k: int|
                0 <= k < rest.len() && #[trigger] has_loaded_texture(rest[k], image_to_tex) && material_key(
                    rest[k],
                ) == key;
            assert(materials[k] == rest[k]);
        }
        if exists|k: int|
            0 <= k < materials.len() && #[trigger] has_loaded_texture(materials[k], image_to_tex)
                && material_key(materials[k]) == key {
            let k = choose|k: int|
                0 <= k < materials.len() && #[trigger] has_loaded_texture(materials[k], image_to_tex)
                    && material_key(materials[k]) == key;
            if k < rest.len() {
                assert(rest[k] == materials[k]);
            }
        }
    }
}

/// The texture a primitive is drawn with: the one mapped to its material,
/// if it has a material and that material has one.
pub fn primitive_texture(material: Option<usize>, material_tex: &HashMap<usize, usize>) -> (res: Option<usize>)
    ensures
        res == match material {
            Some(m) => if material_tex@.contains_key(m) {
                Some(material_tex@[m])
            } else {
                None::<usize>
            },
            None => None,
        },
{
    match material {
        Some(m) => match material_tex.get(&m) {
            Some(t) => Some(*t),
            None => None,
        },
        None => None,
    }
}

/// The textures loaded for a document: the file each was read from, by
/// texture index, and the texture each document image stands for. A file
/// read once is not read again for another image.
pub struct TextureRegistry {
    paths: Vec<String>,
    image_to_tex: HashMap<usize, usize>,
}

impl TextureRegistry {
    /// File path of each loaded texture, by texture index.
    pub closed spec fn paths(&self) -> Seq<Seq<char>> {
        self.paths@.map_values(|p: String| p@)
    }

    /// Texture index of each image.
    pub closed spec fn images(&self) -> Map<usize, usize> {
        self.image_to_tex@
    }

    /// No file was loaded twice, and every image names a loaded texture.
    pub closed spec fn wf(&self) -> bool {
        &&& forall|i: int, j: int|
            0 <= i < j < self.paths@.len() ==> (#[trigger] self.paths@[i])@ != (#[trigger] self.paths@[j])@
        &&& forall|img: usize| #[trigger] self.image_to_tex@.contains_key(img) ==> self.image_to_tex@[img] < self.paths@.len()
    }

    /// No texture loaded yet.
    pub fn new() -> (res: TextureRegistry)
        ensures
            res.wf(),
            res.paths() == Seq::<Seq<char>>::empty(),
            res.images() == Map::<usize, usize>::empty(),
    {
        let res = TextureRegistry { paths: Vec::new(), image_to_tex: HashMap::new() };
        assert(res.paths() =~= Seq::<Seq<char>>::empty());
        res
    }

    /// Number of loaded textures.
    pub fn len(&self) -> (res: usize)
        ensures
            res == self.paths().len(),
    {
        self.paths.len()
    }

    /// The texture already loaded from `path`, if any.
    pub fn find_path(&self, path: &str) -> (res: Option<usize>)
        ensures
            match res {
                Some(i) => i < self.paths().len() && self.paths()[i as int] == path@,
                None => !self.paths().contains(path@),
            },
    {
        let target = path.to_owned();
        let n = self.paths.len();
        let mut i: usize = 0;
        while i < n
            invariant
                n == self.paths.len(),
                i <= n,
                target@ == path@,
                forall|j: int| 0 <= j < i ==> (#[trigger] self.paths@[j])@ != path@,
            decreases n - i,
        {
            if self.paths[i] == target {
                assert(self.paths()[i as int] == self.paths@[i as int]@);
                return Some(i);
            }
            i = i + 1;
        }
        assert forall|j: int| 0 <= j < self.paths().len() implies self.paths()[j] != path@ by {
            assert(self.paths()[j] == self.paths@[j]@);
        }
        None
    }

    /// Records that image `image` stands for the already loaded texture
    /// `tex`.
    pub fn reuse(&mut self, image: usize, tex: usize)
        requires
            old(self).wf(),
            tex < old(self).paths().len(),
        ensures
            final(self).wf(),
            final(self).paths() == old(self).paths(),
            final(self).images() == old(self).images().insert(image, tex),
    {
        self.image_to_tex.insert(image, tex);
    }

    /// Records the texture just loaded from `path` for image `image` and
    /// returns its index, the next one.
    pub fn add_loaded(&mut self, image: usize, path: String) -> (res: usize)
        requires
            old(self).wf(),
            !old(self).paths().contains(path@),
        ensures
            final(self).wf(),
            res == old(self).paths().len(),
            final(self).paths() == old(self).paths().push(path@),
            final(self).images() == old(self).images().insert(image, res),
    {
        let idx = self.paths.len();
        let ghost p = path@;
        proof {
            assert forall|i: int| 0 <= i < self.paths@.len() implies (#[trigger] self.paths@[i])@ != p by {
                assert(old(self).paths()[i] == self.paths@[i]@);
            }
        }
        self.paths.push(path);
        self.image_to_tex.insert(image, idx);
        assert(self.paths() =~= old(self).paths().push(p));
        idx
    }

    /// The texture each image stands for.
    pub fn image_textures(&self) -> (res: &HashMap<usize, usize>)
        ensures
            res@ == self.images(),
    {
        &self.image_to_tex
    }
}

/// A loaded model: its meshes, each a list of triangles of type `T`, and
/// its textures of type `X`.
pub struct LoadResult<T, X> {
    pub meshes: Vec<Vec<T>>,
    pub textures: Vec<X>,
}

impl<T, X> LoadResult<T, X> {
    /// A model with no meshes yet and the given textures.
    pub fn with_textures(textures: Vec<X>) -> (res: LoadResult<T, X>)
        ensures
            res.meshes@.len() == 0,
            res.textures@ == textures@,
    {
        LoadResult { meshes: Vec::new(), textures }
    }

    /// Adds the triangles of one mesh; a mesh without triangles is left
    /// out.
    pub fn add_mesh(&mut self, triangles: Vec<T>)
        ensures
            triangles@.len() > 0 ==> final(self).meshes@ == old(self).meshes@.push(triangles),
            triangles@.len() == 0 ==> final(self).meshes@ == old(self).meshes@,
            final(self).textures@ == old(self).textures@,
    {
        if triangles.len() > 0 {
            self.meshes.push(triangles);
        }
    }

    /// The model, or an error when no mesh has a triangle.
    pub fn finish(self) -> (res: Result<LoadResult<T, X>, String>)
        ensures
            self.meshes@.len() == 0 ==> (res matches Err(e) && e@ == "No valid triangles found in the glTF file."@),
            self.meshes@.len() > 0 ==> (res matches Ok(r) && r.meshes@ == self.meshes@ && r.textures@
                == self.textures@),
    {
        if self.meshes.len() == 0 {
            return Err("No valid triangles found in the glTF file.".to_owned());
        }
        Ok(self)
    }
}

/// Law: the vertex offset adds up. The offset after `a` followed by `b` is
/// the offset after `a` plus the offset after `b`: together with
/// `vertex_offset_of_one`, the offset of a primitive is the sum of the
/// vertex counts of all earlier contributing primitives.
pub proof fn vertex_offset_adds_up(a: Seq<PrimitiveIndices>, b: Seq<PrimitiveIndices>)
    ensures
        vertex_offset(a + b) == vertex_offset(a) + vertex_offset(b),
    decreases b.len(),
{
    if b.len() == 0 {
        assert(a + b =~= a);
    } else {
        assert((a + b).drop_last() =~= a + b.drop_last());
        assert((a + b).last() == b.last());
        vertex_offset_adds_up(a, b.drop_last());
    }
}

/// Law: no primitive leaves the vertex offset at 0, and one primitive moves
/// it by its vertex count when it contributes and leaves it at 0 when not.
pub proof fn vertex_offset_of_one(p: PrimitiveIndices)
    ensures
        vertex_offset(Seq::<PrimitiveIndices>::empty()) == 0,
        vertex_offset(seq![p]) == if contributes(p) { count_u32(p) } else { 0 },
{
    assert(seq![p].drop_last() =~= Seq::<PrimitiveIndices>::empty());
    assert(seq![p].last() == p);
}

proof fn lemma_vertex_offset_nonneg(a: Seq<PrimitiveIndices>)
    ensures
        vertex_offset(a) >= 0,
    decreases a.len(),
{
    if a.len() > 0 {
        lemma_vertex_offset_nonneg(a.drop_last());
    }
}

/// The triangles of the first `j` primitives are the first triangles of
/// the mesh.
proof fn lemma_mesh_triangles_take(prims: Seq<PrimitiveIndices>, j: int)
    requires
        0 <= j <= prims.len(),
    ensures
        mesh_triangles(prims.take(j)).len() <= mesh_triangles(prims).len(),
        forall|k: int|
            0 <= k < mesh_triangles(prims.take(j)).len() ==> mesh_triangles(prims.take(j))[k]
                == #[trigger] mesh_triangles(prims)[k],
    decreases prims.len(),
{
    if j == prims.len() {
        assert(prims.take(j) =~= prims);
    } else {
        lemma_mesh_triangles_take(prims.drop_last(), j);
        assert(prims.drop_last().take(j) =~= prims.take(j));
    }
}

/// Law: triangle `t` of a contributing primitive `i` of a mesh has as
/// corners the indices `3t`, `3t + 1`, `3t + 2` of that primitive's index
/// list, each shifted by the vertex offset of the primitives before it;
/// it follows the triangles of those primitives.
pub proof fn mesh_triangle_corners_shift_by_earlier_counts(prims: Seq<PrimitiveIndices>, i: int, t: int)
    requires
        0 <= i < prims.len(),
        contributes(prims[i]),
        primitive_fits(prims, i),
        0 <= t < index_list(prims[i]).len() / 3,
    ensures
        ({
            let tris = mesh_triangles(prims);
            let before = mesh_triangles(prims.take(i)).len();
            let off = vertex_offset(prims.take(i));
            let list = index_list(prims[i]);
            &&& before + t < tris.len()
            &&& tris[before + t].primitive == i as usize
            &&& tris[before + t].a == list[3 * t] + off
            &&& tris[before + t].b == list[3 * t + 1] + off
            &&& tris[before + t].c == list[3 * t + 2] + off
        }),
{
    let list = index_list(prims[i]);
    let off = vertex_offset(prims.take(i));
    let head = mesh_triangles(prims.take(i));
    let own = primitive_triangles(prims[i], off, i);
    assert(prims.take(i + 1).drop_last() =~= prims.take(i));
    assert(prims.take(i + 1).last() == prims[i]);
    assert(mesh_triangles(prims.take(i + 1)) == head + own);
    lemma_mesh_triangles_take(prims, i + 1);
    lemma_vertex_offset_nonneg(prims.take(i));
    assert((head + own)[head.len() + t] == own[t]);
    assert(mesh_triangles(prims)[head.len() + t] == own[t]);
    assert(3 * t + 2 < 3 * (list.len() / 3));
    assert(list[3 * t] + off <= u32::MAX);
    assert(list[3 * t + 1] + off <= u32::MAX);
    assert(list[3 * t + 2] + off <= u32::MAX);
}

} // verus!
