use vstd::prelude::*;

verus! {

/// The primitives that share one material, by their place in the scene's
/// geometry list.
pub struct MaterialGroup {
    pub material: String,
    pub indices: Vec<usize>,
}

/// What a material group is to the contracts: a name and a list of indices.
pub struct GroupView {
    pub material: Seq<char>,
    pub indices: Seq<usize>,
}

impl View for MaterialGroup {
    type V = GroupView;

    open spec fn view(&self) -> GroupView {
        GroupView { material: self.material@, indices: self.indices@ }
    }
}

/// The names of these materials.
pub open spec fn name_views(materials: Seq<String>) -> Seq<Seq<char>> {
    materials.map_values(|s: String| s@)
}

/// The models of these groups.
pub open spec fn group_views(material_map: Seq<MaterialGroup>) -> Seq<GroupView> {
    material_map.map_values(|g: MaterialGroup| g@)
}

/// The names that these groups carry.
pub open spec fn group_names(groups: Seq<GroupView>) -> Seq<Seq<char>> {
    groups.map_values(|g: GroupView| g.material)
}

/// Whether the name at `m` stands at an earlier place of `names` too.
pub open spec fn repeats(names: Seq<Seq<char>>, m: int) -> bool {
    0 <= m < names.len() && exists|n: int| 0 <= n < m && #[trigger] names[n] == names[m]
}

/// Whether `names` holds `name` at all.
pub open spec fn defines(names: Seq<Seq<char>>, name: Seq<char>) -> bool {
    exists|m: int| 0 <= m < names.len() && #[trigger] names[m] == name
}

/// Whether `m` is the first place in `names` that holds `name`.
pub open spec fn first_named(names: Seq<Seq<char>>, name: Seq<char>, m: int) -> bool {
    &&& 0 <= m < names.len()
    &&& names[m] == name
    &&& forall|n: int| 0 <= n < m ==> #[trigger] names[n] != name
}

/// Whether `indices` lists `id`.
pub open spec fn lists(indices: Seq<usize>, id: int) -> bool {
    exists|k: int| 0 <= k < indices.len() && #[trigger] indices[k] == id
}

/// Whether the group at `g` lists the primitive `id`.
pub open spec fn claims(groups: Seq<GroupView>, g: int, id: int) -> bool {
    0 <= g < groups.len() && lists(groups[g].indices, id)
}

/// Whether the group at `g` is the first that lists the primitive `id`.
pub open spec fn first_claim(groups: Seq<GroupView>, g: int, id: int) -> bool {
    &&& claims(groups, g, id)
    &&& forall|h: int| 0 <= h < g ==> !#[trigger] claims(groups, h, id)
}

/// The material of the primitive `id`: the place, among `names`, of the name
/// that the first group listing `id` carries. `None` where no group lists it,
/// or where that name is not among `names`.
pub open spec fn resolve(names: Seq<Seq<char>>, groups: Seq<GroupView>, id: int) -> Option<int> {
    if exists|g: int| first_claim(groups, g, id) {
        let g = choose|g: int| first_claim(groups, g, id);
        let name = groups[g].material;
        if exists|m: int| first_named(names, name, m) {
            Some(choose|m: int| first_named(names, name, m))
        } else {
            None
        }
    } else {
        None
    }
}

/// The first place in `materials` that holds `name`.
pub fn find_material(materials: &Vec<String>, name: &String) -> (r: Option<usize>)
    ensures
        match r {
            Some(m) => first_named(name_views(materials@), name@, m as int),
            None => !defines(name_views(materials@), name@),
        },
{
    let ghost names = name_views(materials@);
    let mut m: usize = 0;
    while m < materials.len()
        invariant
            m <= materials.len(),
            names == name_views(materials@),
            forall|n: int| 0 <= n < m ==> #[trigger] names[n] != name@,
        decreases materials.len() - m,
    {
        if materials[m] == *name {
            return Some(m);
        }
        m += 1;
    }
    None
}

/// The first group of `material_map` that carries `name`.
pub fn find_group_named(material_map: &Vec<MaterialGroup>, name: &String) -> (r: Option<usize>)
    ensures
        match r {
            Some(g) => first_named(group_names(group_views(material_map@)), name@, g as int),
            None => !defines(group_names(group_views(material_map@)), name@),
        },
{
    let ghost names = group_names(group_views(material_map@));
    let mut g: usize = 0;
    while g < material_map.len()
        invariant
            g <= material_map.len(),
            names == group_names(group_views(material_map@)),
            forall|h: int| 0 <= h < g ==> #[trigger] names[h] != name@,
        decreases material_map.len() - g,
    {
        if material_map[g].material == *name {
            return Some(g);
        }
        g += 1;
    }
    None
}

/// The first material whose name an earlier material has too.
pub fn find_repeated_material(materials: &Vec<String>) -> (r: Option<usize>)
    ensures
        match r {
            Some(m) => {
                &&& repeats(name_views(materials@), m as int)
                &&& forall|n: int| 0 <= n < m ==> !#[trigger] repeats(name_views(materials@), n)
            },
            None => forall|n: int| !#[trigger] repeats(name_views(materials@), n),
        },
{
    let ghost names = name_views(materials@);
    let mut m: usize = 0;
    while m < materials.len()
        invariant
            m <= materials.len(),
            names == name_views(materials@),
            forall|n: int| 0 <= n < m ==> !#[trigger] repeats(names, n),
        decreases materials.len() - m,
    {
        match find_material(materials, &materials[m]) {
            Some(first) => {
                if first != m {
                    assert(names[first as int] == names[m as int]);
                    return Some(m);
                }
            },
            None => {
                assert(names[m as int] == materials@[m as int]@);
            },
        }
        m += 1;
    }
    None
}

/// The first group whose name an earlier group has too.
pub fn find_repeated_group(material_map: &Vec<MaterialGroup>) -> (r: Option<usize>)
    ensures
        match r {
            Some(g) => {
                &&& repeats(group_names(group_views(material_map@)), g as int)
                &&& forall|h: int|
                    0 <= h < g ==> !#[trigger] repeats(group_names(group_views(material_map@)), h)
            },
            None => forall|h: int|
                !#[trigger] repeats(group_names(group_views(material_map@)), h),
        },
{
    let ghost names = group_names(group_views(material_map@));
    let mut g: usize = 0;
    while g < material_map.len()
        invariant
            g <= material_map.len(),
            names == group_names(group_views(material_map@)),
            forall|h: int| 0 <= h < g ==> !#[trigger] repeats(names, h),
        decreases material_map.len() - g,
    {
        match find_group_named(material_map, &material_map[g].material) {
            Some(first) => {
                if first != g {
                    assert(names[first as int] == names[g as int]);
                    return Some(g);
                }
            },
            None => {
                assert(names[g as int] == material_map@[g as int].material@);
            },
        }
        g += 1;
    }
    None
}

/// Whether `indices` lists `id`.
pub fn lists_index(indices: &Vec<usize>, id: usize) -> (r: bool)
    ensures
        r == lists(indices@, id as int),
{
    let mut k: usize = 0;
    while k < indices.len()
        invariant
            k <= indices.len(),
            forall|n: int| 0 <= n < k ==> #[trigger] indices@[n] != id,
        decreases indices.len() - k,
    {
        if indices[k] == id {
            return true;
        }
        k += 1;
    }
    false
}

/// The first group of `material_map` that lists `id`.
pub fn find_group(material_map: &Vec<MaterialGroup>, id: usize) -> (r: Option<usize>)
    ensures
        match r {
            Some(g) => first_claim(group_views(material_map@), g as int, id as int),
            None => forall|g: int| !#[trigger] claims(group_views(material_map@), g, id as int),
        },
{
    let ghost groups = group_views(material_map@);
    let mut g: usize = 0;
    while g < material_map.len()
        invariant
            g <= material_map.len(),
            groups == group_views(material_map@),
            forall|h: int| 0 <= h < g ==> !#[trigger] claims(groups, h, id as int),
        decreases material_map.len() - g,
    {
        if lists_index(&material_map[g].indices, id) {
            return Some(g);
        }
        g += 1;
    }
    None
}

/// The material of the primitive `id`, as `resolve` defines it.
pub fn resolve_material(
    materials: &Vec<String>,
    material_map: &Vec<MaterialGroup>,
    id: usize,
) -> (r: Option<usize>)
    ensures
        match r {
            Some(m) => resolve(name_views(materials@), group_views(material_map@), id as int)
                == Some(m as int),
            None => resolve(name_views(materials@), group_views(material_map@), id as int)
                .is_none(),
        },
{
    let ghost names = name_views(materials@);
    let ghost groups = group_views(material_map@);
    match find_group(material_map, id) {
        None => None,
        Some(g) => {
            proof {
                let first = choose|h: int| first_claim(groups, h, id as int);
                lemma_first_claim_is_unique(groups, g as int, first, id as int);
            }
            let name = &material_map[g].material;
            assert(groups[g as int].material == name@);
            match find_material(materials, name) {
                Some(m) => {
                    proof {
                        let first = choose|n: int| first_named(names, name@, n);
                        lemma_first_named_is_unique(names, name@, m as int, first);
                    }
                    Some(m)
                },
                None => {
                    assert forall|m: int| !first_named(names, name@, m) by {
                        if first_named(names, name@, m) {
                            assert(names[m] == name@);
                        }
                    }
                    None
                },
            }
        },
    }
}

/// At most one group is the first to list a primitive.
pub proof fn lemma_first_claim_is_unique(groups: Seq<GroupView>, g: int, h: int, id: int)
    requires
        first_claim(groups, g, id),
        first_claim(groups, h, id),
    ensures
        g == h,
{
    assert(claims(groups, g, id));
    assert(claims(groups, h, id));
}

/// At most one place is the first to hold a name.
pub proof fn lemma_first_named_is_unique(names: Seq<Seq<char>>, name: Seq<char>, m: int, n: int)
    requires
        first_named(names, name, m),
        first_named(names, name, n),
    ensures
        m == n,
{
}

/// Where a group lists a primitive, some group is the first to do so.
pub proof fn lemma_first_claim_exists(groups: Seq<GroupView>, g: int, id: int)
    requires
        claims(groups, g, id),
    ensures
        exists|f: int| first_claim(groups, f, id),
    decreases g,
{
    if exists|h: int| 0 <= h < g && claims(groups, h, id) {
        let h = choose|h: int| 0 <= h < g && claims(groups, h, id);
        lemma_first_claim_exists(groups, h, id);
    } else {
        assert(first_claim(groups, g, id));
    }
}

/// Where a name is held, some place is the first to hold it.
pub proof fn lemma_first_named_exists(names: Seq<Seq<char>>, name: Seq<char>, m: int)
    requires
        0 <= m < names.len(),
        names[m] == name,
    ensures
        exists|f: int| first_named(names, name, f),
    decreases m,
{
    if exists|n: int| 0 <= n < m && names[n] == name {
        let n = choose|n: int| 0 <= n < m && names[n] == name;
        lemma_first_named_exists(names, name, n);
    } else {
        assert(first_named(names, name, m));
    }
}

/// A primitive resolves to a material exactly when a group lists it and the
/// first such group names a material that is defined; the material is then
/// the first of that name.
pub proof fn lemma_resolve_is_first_match(names: Seq<Seq<char>>, groups: Seq<GroupView>, id: int)
    ensures
        match resolve(names, groups, id) {
            Some(m) => exists|g: int|
                #[trigger] first_claim(groups, g, id) && first_named(names, groups[g].material, m),
            None => forall|g: int|
                #[trigger] first_claim(groups, g, id) ==> !defines(names, groups[g].material),
        },
{
    match resolve(names, groups, id) {
        Some(m) => {
            let g = choose|g: int| first_claim(groups, g, id);
            assert(first_claim(groups, g, id) && first_named(names, groups[g].material, m));
        },
        None => {
            assert forall|g: int| #[trigger] first_claim(groups, g, id) implies !defines(
                names,
                groups[g].material,
            ) by {
                let first = choose|h: int| first_claim(groups, h, id);
                lemma_first_claim_is_unique(groups, g, first, id);
                if defines(names, groups[g].material) {
                    let m = choose|m: int|
                        0 <= m < names.len() && #[trigger] names[m] == groups[g].material;
                    lemma_first_named_exists(names, groups[g].material, m);
                }
            }
        },
    }
}

} // verus!
