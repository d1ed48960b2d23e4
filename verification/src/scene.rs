use crate::geometry::Geometry;
use crate::material::{
    claims, defines, find_group, find_material, find_repeated_group, find_repeated_material,
    first_claim, group_names, group_views, lemma_first_claim_exists, lemma_first_named_exists,
    name_views, repeats, resolve, resolve_material, GroupView, MaterialGroup,
};
use crate::scalar::Scalar;
use crate::trace::{candidate, lemma_trace_of_is_some, nearest_hit, trace_of};
use vstd::prelude::*;

verus! {

/// Why a scene description is refused.
#[derive(Clone, Copy, Debug, PartialEq, Eq)]
pub enum SceneError {
    /// The material at this place has the name of an earlier material.
    DuplicateMaterial { material: usize },
    /// The group at this place in the material map has the name of an
    /// earlier group.
    DuplicateGroup { group: usize },
    /// The group at this place in the material map names no defined material.
    UndefinedMaterial { group: usize },
    /// The group at this place lists, at this position, an index that is no
    /// primitive of the scene.
    IndexOutOfRange { group: usize, position: usize },
    /// No group lists the primitive at this index.
    MissingMaterial { geometry: usize },
    /// The primitive at this index is a sphere without a radius above zero,
    /// or a plane whose normal has no length.
    DegenerateGeometry { geometry: usize },
}

/// How one ray gets its colour.
#[derive(Clone, Copy, Debug, PartialEq, Eq)]
pub enum Bounce {
    /// The ray hits nothing: its colour is the background colour.
    Background,
    /// The ray hits a primitive and no depth is left: its colour is the local
    /// shade of that primitive, with that material.
    Surface { geometry: usize, material: usize },
    /// The ray hits a primitive: its colour is the local shade plus the
    /// attenuated colour of the reflected ray, rendered with `depth`.
    Reflect { geometry: usize, material: usize, depth: usize },
}

/// What a scene is to the contracts: the names of its materials in order,
/// its primitives in order, and its material map in order.
pub struct SceneView {
    pub materials: Seq<Seq<char>>,
    pub geometry: Seq<Geometry>,
    pub groups: Seq<GroupView>,
}

/// The model of a scene made of these parts.
pub open spec fn scene_view(
    materials: Seq<String>,
    geometry: Seq<Geometry>,
    material_map: Seq<MaterialGroup>,
) -> SceneView {
    SceneView {
        materials: name_views(materials),
        geometry,
        groups: group_views(material_map),
    }
}

impl SceneView {
    /// The number of primitives.
    pub open spec fn geometry_count(self) -> nat {
        self.geometry.len()
    }

    /// Whether the material at `m` has the name of an earlier material.
    pub open spec fn repeated_material(self, m: int) -> bool {
        repeats(self.materials, m)
    }

    /// Whether the group at `g` has the name of an earlier group.
    pub open spec fn repeated_group(self, g: int) -> bool {
        repeats(group_names(self.groups), g)
    }

    /// Whether no two materials have one name, and no two groups: what a map
    /// from names gives by itself.
    pub open spec fn names_are_unique(self) -> bool {
        &&& forall|m: int| !#[trigger] self.repeated_material(m)
        &&& forall|g: int| !#[trigger] self.repeated_group(g)
    }

    /// Whether the group at `g` names a material that is not defined.
    pub open spec fn undefined_group(self, g: int) -> bool {
        0 <= g < self.groups.len() && !defines(self.materials, self.groups[g].material)
    }

    /// Whether the group at `g` lists, at position `k`, an index beyond the
    /// scene's primitives.
    pub open spec fn stray_index(self, g: int, k: int) -> bool {
        &&& 0 <= g < self.groups.len()
        &&& 0 <= k < self.groups[g].indices.len()
        &&& self.groups[g].indices[k] >= self.geometry_count()
    }

    /// Whether the primitive `id` is one of the scene's and no group lists it.
    pub open spec fn unclaimed(self, id: int) -> bool {
        &&& 0 <= id < self.geometry_count()
        &&& forall|g: int| !#[trigger] claims(self.groups, g, id)
    }

    /// Whether the primitive `id` is one of the scene's and is degenerate.
    pub open spec fn degenerate_at(self, id: int) -> bool {
        0 <= id < self.geometry.len() && self.geometry[id].degenerate()
    }

    /// A scene that can be rendered: no name occurs twice, every group names
    /// a defined material and lists primitives of the scene only, every
    /// primitive is listed, and none is degenerate.
    pub open spec fn well_formed(self) -> bool {
        &&& self.names_are_unique()
        &&& forall|g: int| !#[trigger] self.undefined_group(g)
        &&& forall|g: int, k: int| !#[trigger] self.stray_index(g, k)
        &&& forall|id: int| !#[trigger] self.unclaimed(id)
        &&& forall|id: int| !#[trigger] self.degenerate_at(id)
    }

    /// The material of the primitive `id`, by its place among the materials.
    pub open spec fn resolve(self, id: int) -> Option<int> {
        resolve(self.materials, self.groups, id)
    }

    /// The step that renders a ray which sees `hits`, with `max_depth` left.
    pub open spec fn render(self, hits: Seq<Option<Scalar>>, max_depth: usize) -> Bounce {
        match trace_of(hits) {
            None => Bounce::Background,
            Some(i) => {
                let material = self.resolve(i).unwrap() as usize;
                if max_depth == 0 {
                    Bounce::Surface { geometry: i as usize, material }
                } else {
                    Bounce::Reflect {
                        geometry: i as usize,
                        material,
                        depth: (max_depth - 1) as usize,
                    }
                }
            },
        }
    }

    /// How many reflected rays are rendered for a ray with `max_depth` left,
    /// when the ray after `bounce` reflections sees `rays(bounce)`.
    pub open spec fn reflections(
        self,
        rays: spec_fn(nat) -> Seq<Option<Scalar>>,
        bounce: nat,
        max_depth: usize,
    ) -> nat
        decreases max_depth,
    {
        match self.render(rays(bounce), max_depth) {
            Bounce::Reflect { depth, .. } => {
                if depth < max_depth {
                    1 + self.reflections(rays, bounce + 1, depth)
                } else {
                    0
                }
            },
            _ => 0,
        }
    }
}

/// A scene's primitives and materials, as far as rendering decides by them.
///
/// A value of this type is always well formed: no name occurs twice, every
/// primitive has a material, and none is degenerate.
pub struct Scene {
    materials: Vec<String>,
    geometry: Vec<Geometry>,
    material_map: Vec<MaterialGroup>,
}

impl View for Scene {
    type V = SceneView;

    closed spec fn view(&self) -> SceneView {
        scene_view(self.materials@, self.geometry@, self.material_map@)
    }
}

impl Scene {
    #[verifier::type_invariant]
    spec fn valid(self) -> bool {
        self@.well_formed()
    }

    /// Makes a scene of these primitives, or says what is wrong with the
    /// description: the first material whose name an earlier one has; if
    /// there is none, the first group whose name an earlier one has; if there
    /// is none, the first group with an undefined material; if there is none,
    /// the first index that is out of range; if there is none, the first
    /// primitive without a material; if there is none, the first degenerate
    /// primitive.
    pub fn from(
        materials: Vec<String>,
        geometry: Vec<Geometry>,
        material_map: Vec<MaterialGroup>,
    ) -> (r: Result<Scene, SceneError>)
        ensures
            ({
                let v = scene_view(materials@, geometry@, material_map@);
                match r {
                    Ok(scene) => v.well_formed() && scene@ == v,
                    Err(SceneError::DuplicateMaterial { material }) => {
                        &&& v.repeated_material(material as int)
                        &&& forall|n: int|
                            0 <= n < material ==> !#[trigger] v.repeated_material(n)
                    },
                    Err(SceneError::DuplicateGroup { group }) => {
                        &&& forall|n: int| !#[trigger] v.repeated_material(n)
                        &&& v.repeated_group(group as int)
                        &&& forall|h: int| 0 <= h < group ==> !#[trigger] v.repeated_group(h)
                    },
                    Err(SceneError::UndefinedMaterial { group }) => {
                        &&& v.names_are_unique()
                        &&& v.undefined_group(group as int)
                        &&& forall|h: int| 0 <= h < group ==> !#[trigger] v.undefined_group(h)
                    },
                    Err(SceneError::IndexOutOfRange { group, position }) => {
                        &&& v.names_are_unique()
                        &&& forall|h: int| !#[trigger] v.undefined_group(h)
                        &&& v.stray_index(group as int, position as int)
                        &&& forall|h: int, k: int|
                            h < group || (h == group && k < position) ==> !#[trigger] v.stray_index(
                                h,
                                k,
                            )
                    },
                    Err(SceneError::MissingMaterial { geometry: at }) => {
                        &&& v.names_are_unique()
                        &&& forall|h: int| !#[trigger] v.undefined_group(h)
                        &&& forall|h: int, k: int| !#[trigger] v.stray_index(h, k)
                        &&& v.unclaimed(at as int)
                        &&& forall|id: int| 0 <= id < at ==> !#[trigger] v.unclaimed(id)
                    },
                    Err(SceneError::DegenerateGeometry { geometry: at }) => {
                        &&& v.names_are_unique()
                        &&& forall|h: int| !#[trigger] v.undefined_group(h)
                        &&& forall|h: int, k: int| !#[trigger] v.stray_index(h, k)
                        &&& forall|id: int| !#[trigger] v.unclaimed(id)
                        &&& v.degenerate_at(at as int)
                        &&& forall|id: int| 0 <= id < at ==> !#[trigger] v.degenerate_at(id)
                    },
                }
            }),
    {
        let ghost v = scene_view(materials@, geometry@, material_map@);
        if let Some(material) = find_repeated_material(&materials) {
            return Err(SceneError::DuplicateMaterial { material });
        }
        if let Some(group) = find_repeated_group(&material_map) {
            return Err(SceneError::DuplicateGroup { group });
        }
        let mut g: usize = 0;
        while g < material_map.len()
            invariant
                g <= material_map.len(),
                v == scene_view(materials@, geometry@, material_map@),
                v.names_are_unique(),
                forall|h: int| 0 <= h < g ==> !#[trigger] v.undefined_group(h),
            decreases material_map.len() - g,
        {
            if find_material(&materials, &material_map[g].material).is_none() {
                return Err(SceneError::UndefinedMaterial { group: g });
            }
            g += 1;
        }
        let mut g: usize = 0;
        while g < material_map.len()
            invariant
                g <= material_map.len(),
                v == scene_view(materials@, geometry@, material_map@),
                v.names_are_unique(),
                forall|h: int| !#[trigger] v.undefined_group(h),
                forall|h: int, k: int| h < g ==> !#[trigger] v.stray_index(h, k),
            decreases material_map.len() - g,
        {
            let mut k: usize = 0;
            while k < material_map[g].indices.len()
                invariant
                    g < material_map.len(),
                    k <= material_map[g as int].indices.len(),
                    v == scene_view(materials@, geometry@, material_map@),
                    v.names_are_unique(),
                    forall|h: int| !#[trigger] v.undefined_group(h),
                    forall|h: int, n: int|
                        h < g || (h == g && n < k) ==> !#[trigger] v.stray_index(h, n),
                decreases material_map[g as int].indices.len() - k,
            {
                if material_map[g].indices[k] >= geometry.len() {
                    return Err(SceneError::IndexOutOfRange { group: g, position: k });
                }
                k += 1;
            }
            g += 1;
        }
        let mut id: usize = 0;
        while id < geometry.len()
            invariant
                id <= geometry.len(),
                v == scene_view(materials@, geometry@, material_map@),
                v.names_are_unique(),
                forall|h: int| !#[trigger] v.undefined_group(h),
                forall|h: int, k: int| !#[trigger] v.stray_index(h, k),
                forall|n: int| 0 <= n < id ==> !#[trigger] v.unclaimed(n),
            decreases geometry.len() - id,
        {
            match find_group(&material_map, id) {
                Some(first) => {
                    assert(claims(v.groups, first as int, id as int));
                },
                None => {
                    return Err(SceneError::MissingMaterial { geometry: id });
                },
            }
            id += 1;
        }
        let mut id: usize = 0;
        while id < geometry.len()
            invariant
                id <= geometry.len(),
                v == scene_view(materials@, geometry@, material_map@),
                v.names_are_unique(),
                forall|h: int| !#[trigger] v.undefined_group(h),
                forall|h: int, k: int| !#[trigger] v.stray_index(h, k),
                forall|n: int| !#[trigger] v.unclaimed(n),
                forall|n: int| 0 <= n < id ==> !#[trigger] v.degenerate_at(n),
            decreases geometry.len() - id,
        {
            if geometry[id].is_degenerate() {
                return Err(SceneError::DegenerateGeometry { geometry: id });
            }
            id += 1;
        }
        Ok(Scene { materials, geometry, material_map })
    }

    /// The number of primitives.
    pub fn geometry_count(&self) -> (n: usize)
        ensures
            n == self@.geometry_count(),
    {
        self.geometry.len()
    }

    /// The number of materials.
    pub fn material_count(&self) -> (n: usize)
        ensures
            n == self@.materials.len(),
    {
        self.materials.len()
    }

    /// The material of the primitive `id`: the place, among the materials that
    /// the scene was made with, of the material of the first group that lists
    /// `id`. `None` where `id` is no primitive of the scene.
    pub fn get_material(&self, id: usize) -> (r: Option<usize>)
        ensures
            match r {
                Some(m) => self@.resolve(id as int) == Some(m as int) && m < self@.materials.len(),
                None => self@.resolve(id as int).is_none(),
            },
            r.is_some() <==> id < self@.geometry_count(),
    {
        proof {
            use_type_invariant(self);
            lemma_resolve_is_total(self@, id as int);
        }
        resolve_material(&self.materials, &self.material_map, id)
    }

    /// The primitive that a ray hits first, where `hits` holds for each
    /// primitive, in the scene's order, the distance at which the ray meets
    /// it. Of several at the same distance the first in `hits` is chosen.
    pub fn trace(&self, hits: &Vec<Option<Scalar>>) -> (r: Option<usize>)
        ensures
            match r {
                Some(i) => trace_of(hits@) == Some(i as int),
                None => trace_of(hits@).is_none(),
            },
    {
        nearest_hit(hits)
    }

    /// Decides how a ray is rendered with `max_depth` reflections left, where
    /// `hits` holds one entry for each primitive of the scene, as for `trace`.
    pub fn render(&self, hits: &Vec<Option<Scalar>>, max_depth: usize) -> (step: Bounce)
        requires
            hits.len() == self@.geometry_count(),
        ensures
            step == self@.render(hits@, max_depth),
    {
        match self.trace(hits) {
            None => Bounce::Background,
            Some(geometry) => {
                proof {
                    lemma_trace_of_is_some(hits@);
                }
                let material = self.material_of(geometry);
                if max_depth == 0 {
                    Bounce::Surface { geometry, material }
                } else {
                    Bounce::Reflect { geometry, material, depth: max_depth - 1 }
                }
            },
        }
    }

    /// The material of a primitive of the scene.
    fn material_of(&self, id: usize) -> (m: usize)
        requires
            id < self@.geometry_count(),
        ensures
            self@.resolve(id as int) == Some(m as int),
    {
        match self.get_material(id) {
            Some(m) => m,
            None => unreached(),
        }
    }
}

/// Where no name occurs twice, a name stands for one material and for one
/// group, as a key of a map does.
pub proof fn lemma_unique_names_have_one_place(v: SceneView, a: int, b: int)
    requires
        v.names_are_unique(),
    ensures
        0 <= a < v.materials.len() && 0 <= b < v.materials.len() && v.materials[a]
            == v.materials[b] ==> a == b,
        0 <= a < v.groups.len() && 0 <= b < v.groups.len() && v.groups[a].material
            == v.groups[b].material ==> a == b,
{
    assert(!v.repeated_material(a) && !v.repeated_material(b));
    assert(!v.repeated_group(a) && !v.repeated_group(b));
    let names = group_names(v.groups);
    if 0 <= a < v.groups.len() && 0 <= b < v.groups.len() {
        assert(names[a] == v.groups[a].material && names[b] == v.groups[b].material);
    }
}

/// In a well-formed scene the primitives of the scene, and no others, have a
/// material, and it is one of the scene's materials.
pub proof fn lemma_resolve_is_total(v: SceneView, id: int)
    requires
        v.well_formed(),
        0 <= id,
    ensures
        v.resolve(id).is_some() <==> id < v.geometry_count(),
        v.resolve(id).is_some() ==> 0 <= v.resolve(id).unwrap() < v.materials.len(),
{
    if id < v.geometry_count() {
        assert(!v.unclaimed(id));
        let c = choose|g: int| claims(v.groups, g, id);
        lemma_first_claim_exists(v.groups, c, id);
        let g = choose|g: int| first_claim(v.groups, g, id);
        assert(claims(v.groups, g, id));
        assert(!v.undefined_group(g));
        let name = v.groups[g].material;
        let m = choose|m: int| 0 <= m < v.materials.len() && #[trigger] v.materials[m] == name;
        lemma_first_named_exists(v.materials, name, m);
    } else if exists|g: int| first_claim(v.groups, g, id) {
        let g = choose|g: int| first_claim(v.groups, g, id);
        assert(claims(v.groups, g, id));
        let k = choose|k: int|
            0 <= k < v.groups[g].indices.len() && #[trigger] v.groups[g].indices[k] == id;
        assert(v.stray_index(g, k));
    }
}

/// A step names a primitive of the scene and the material of that primitive.
pub proof fn lemma_render_stays_in_scene(v: SceneView, hits: Seq<Option<Scalar>>, max_depth: usize)
    requires
        v.well_formed(),
        hits.len() == v.geometry_count(),
        v.geometry_count() <= usize::MAX,
        v.materials.len() <= usize::MAX,
    ensures
        match v.render(hits, max_depth) {
            Bounce::Background => true,
            Bounce::Surface { geometry, material } => {
                &&& geometry < v.geometry_count()
                &&& material < v.materials.len()
                &&& v.resolve(geometry as int) == Some(material as int)
            },
            Bounce::Reflect { geometry, material, depth } => {
                &&& geometry < v.geometry_count()
                &&& material < v.materials.len()
                &&& v.resolve(geometry as int) == Some(material as int)
            },
        },
{
    lemma_trace_of_is_some(hits);
    if trace_of(hits).is_some() {
        let i = trace_of(hits).unwrap();
        assert(candidate(hits, i));
        lemma_resolve_is_total(v, i);
    }
}

/// A ray that meets no primitive gets the background colour, whatever depth
/// is left. So does every ray in a scene without primitives.
pub proof fn lemma_miss_is_background(v: SceneView, hits: Seq<Option<Scalar>>, max_depth: usize)
    requires
        forall|j: int| 0 <= j < hits.len() ==> (#[trigger] hits[j]).is_none(),
    ensures
        v.render(hits, max_depth) == Bounce::Background,
{
    lemma_trace_of_is_some(hits);
    if exists|j: int| candidate(hits, j) {
        let j = choose|j: int| candidate(hits, j);
        assert(hits[j].is_none());
    }
}

/// With no depth left nothing is reflected: the ray gets the background
/// colour where it hits nothing, and the local shade of its nearest hit
/// otherwise.
pub proof fn lemma_no_depth_no_reflection(v: SceneView, hits: Seq<Option<Scalar>>)
    ensures
        trace_of(hits).is_none() ==> v.render(hits, 0) == Bounce::Background,
        trace_of(hits).is_some() ==> v.render(hits, 0) == (Bounce::Surface {
            geometry: trace_of(hits).unwrap() as usize,
            material: v.resolve(trace_of(hits).unwrap()).unwrap() as usize,
        }),
        !(v.render(hits, 0) is Reflect),
{
}

/// With depth left, a ray that hits is reflected with one less; a ray that
/// hits nothing ends there.
pub proof fn lemma_reflection_takes_one_depth(
    v: SceneView,
    hits: Seq<Option<Scalar>>,
    max_depth: usize,
)
    requires
        max_depth > 0,
    ensures
        trace_of(hits).is_none() ==> v.render(hits, max_depth) == Bounce::Background,
        trace_of(hits).is_some() ==> v.render(hits, max_depth) == (Bounce::Reflect {
            geometry: trace_of(hits).unwrap() as usize,
            material: v.resolve(trace_of(hits).unwrap()).unwrap() as usize,
            depth: (max_depth - 1) as usize,
        }),
{
}

/// A ray rendered with `max_depth` has at most `max_depth` reflected rays
/// rendered for it, whatever the rays see; with no depth left it has none.
pub proof fn lemma_reflections_are_bounded(
    v: SceneView,
    rays: spec_fn(nat) -> Seq<Option<Scalar>>,
    bounce: nat,
    max_depth: usize,
)
    ensures
        v.reflections(rays, bounce, max_depth) <= max_depth,
    decreases max_depth,
{
    match v.render(rays(bounce), max_depth) {
        Bounce::Reflect { depth, .. } => {
            if depth < max_depth {
                lemma_reflections_are_bounded(v, rays, bounce + 1, depth);
            }
        },
        _ => {},
    }
}

} // verus!
