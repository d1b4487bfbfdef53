//! Model files and their dependency resolution: decoding, skin views and
//! the assembly of the model → material → texture dependency graph.

pub mod binary;

use vstd::prelude::*;
use vstd::string::StringExecFns;

use crate::dependency::{DependencyGraph, Labeled};
use crate::strutil::{
    base_name_spec, clean_path, clean_path_spec, count_seps, join_path, join_spec, parent_path,
    parent_spec, path_stem, sep_count, seq_has_string, starts_with_spec, stem_spec,
    str_starts_with, vec_has_string,
};

verus! {

/// One discovered asset: the model itself or one of its auxiliary files, a
/// material, or a texture, each carrying its path.
#[derive(Debug)]
pub enum MDLDependency {
    Model(String),
    Material(String),
    Texture(String),
}

/// How a dependency hangs off the model: a `Direct` dependency is a
/// sibling file sharing the model's stem; an `Indirect` one was discovered
/// through the texture/material reference chain.
#[derive(Debug, Clone, Copy, PartialEq, Eq, Structural)]
pub enum MDLDependencyType {
    Direct,
    Indirect,
}

impl MDLDependency {
    /// The path the dependency carries, whichever variant it is.
    pub open spec fn path_spec(&self) -> Seq<char> {
        match self {
            MDLDependency::Model(p) => p@,
            MDLDependency::Material(p) => p@,
            MDLDependency::Texture(p) => p@,
        }
    }

    /// The path of the asset this dependency stands for.
    pub fn path(&self) -> (r: &String)
        ensures
            r@ == self.path_spec(),
    {
        match self {
            MDLDependency::Model(p) => p,
            MDLDependency::Material(p) => p,
            MDLDependency::Texture(p) => p,
        }
    }
}

impl Clone for MDLDependency {
    /// An exact copy: same variant, same path.
    fn clone(&self) -> (r: Self)
        ensures
            r == *self,
    {
        match self {
            MDLDependency::Model(p) => MDLDependency::Model(p.clone()),
            MDLDependency::Material(p) => MDLDependency::Material(p.clone()),
            MDLDependency::Texture(p) => MDLDependency::Texture(p.clone()),
        }
    }
}

impl Labeled for MDLDependency {
    open spec fn label_spec(&self) -> Seq<char> {
        match self {
            MDLDependency::Model(p) => "Model("@ + p@ + ")"@,
            MDLDependency::Material(p) => "Material("@ + p@ + ")"@,
            MDLDependency::Texture(p) => "Texture("@ + p@ + ")"@,
        }
    }

    fn label(&self) -> (r: String) {
        match self {
            MDLDependency::Model(p) => {
                let mut s = String::from_str("Model(");
                s.append(p.as_str());
                s.append(")");
                s
            },
            MDLDependency::Material(p) => {
                let mut s = String::from_str("Material(");
                s.append(p.as_str());
                s.append(")");
                s
            },
            MDLDependency::Texture(p) => {
                let mut s = String::from_str("Texture(");
                s.append(p.as_str());
                s.append(")");
                s
            },
        }
    }
}

/// A model path walked `k` directories upward.
pub open spec fn walk_up(s: Seq<char>, k: nat) -> Seq<char>
    decreases k,
{
    if k == 0 {
        s
    } else {
        parent_spec(walk_up(s, (k - 1) as nat))
    }
}

/// Whether `k` upward walks stay on non-empty paths: each step must have a
/// path left to take the parent of.
pub open spec fn can_walk(s: Seq<char>, k: nat) -> bool
    decreases k,
{
    if k == 0 {
        true
    } else {
        can_walk(s, (k - 1) as nat) && walk_up(s, (k - 1) as nat).len() > 0
    }
}

/// Whether decoded metadata is internally consistent: every skin has
/// exactly the announced number of slots, and every slot holds a valid
/// texture-table index.
pub open spec fn partial_valid(p: binary::PartialMDL) -> bool {
    &&& forall|f: int|
        0 <= f < p.skins@.len() ==> (#[trigger] p.skins@[f]).0@.len() == p.texture_slot_count
    &&& forall|f: int, s: int|
        (0 <= f < p.skins@.len() && 0 <= s < p.skins@[f].0@.len()) ==> (((
        #[trigger] p.skins@[f].0@[s]) as int) < p.texture_names@.len())
}

/// An opened model: its path and its decoded metadata.
pub struct MDLFile {
    path: String,
    partial: binary::PartialMDL,
}

impl MDLFile {
    /// The model's path.
    pub closed spec fn spec_path(&self) -> Seq<char> {
        self.path@
    }

    /// The decoded metadata.
    pub closed spec fn spec_partial(&self) -> binary::PartialMDL {
        self.partial
    }

    /// Well-formedness: the decoded metadata's skin table only points into
    /// its texture name table.
    pub open spec fn wf(&self) -> bool {
        partial_valid(self.spec_partial())
    }

    /// Wraps a decoded model under its path, checking that the skin table
    /// only points into the texture name table.
    pub fn new(path: String, partial: binary::PartialMDL) -> (r: Option<MDLFile>)
        ensures
            r is Some <==> partial_valid(partial),
            r matches Some(m) ==> m.wf() && m.spec_path() == path@ && m.spec_partial() == partial,
    {
        let names_len = partial.texture_names.len();
        let mut f: usize = 0;
        while f < partial.skins.len()
            invariant
                names_len == partial.texture_names@.len(),
                f <= partial.skins@.len(),
                forall|f2: int|
                    0 <= f2 < f ==> (#[trigger] partial.skins@[f2]).0@.len()
                        == partial.texture_slot_count,
                forall|f2: int, s: int|
                    0 <= f2 < f && 0 <= s < partial.skins@[f2].0@.len() ==> (((
                    #[trigger] partial.skins@[f2].0@[s]) as int) < names_len),
            decreases partial.skins@.len() - f,
        {
            let skin = &partial.skins[f];
            if skin.0.len() as u64 != partial.texture_slot_count as u64 {
                return None;
            }
            let mut s: usize = 0;
            while s < skin.0.len()
                invariant
                    names_len == partial.texture_names@.len(),
                    f < partial.skins@.len(),
                    skin == partial.skins@[f as int],
                    s <= skin.0@.len(),
                    forall|s2: int|
                        0 <= s2 < s ==> (((#[trigger] skin.0@[s2]) as int) < names_len),
                decreases skin.0@.len() - s,
            {
                if skin.0[s] as usize >= names_len {
                    return None;
                }
                s += 1;
            }
            f += 1;
        }
        Some(MDLFile { path, partial })
    }

    /// The assets root: the model's path walked one directory up for each
    /// path separator of its embedded name, plus one.
    ///
    /// The embedded name is assumed to mirror the model's depth below the
    /// assets root; a name of unusual shape misplaces the root.
    pub fn assets_path(&self) -> (r: String)
        requires
            sep_count(self.spec_partial().name@) + 1 <= usize::MAX,
            can_walk(self.spec_path(), sep_count(self.spec_partial().name@) + 1),
        ensures
            r@ == walk_up(self.spec_path(), sep_count(self.spec_partial().name@) + 1),
    {
        let traverse = count_seps(self.partial.name.as_str()) + 1;
        let mut p = self.path.clone();
        let mut k: usize = 0;
        while k < traverse
            invariant
                traverse == sep_count(self.spec_partial().name@) + 1,
                k <= traverse,
                p@ == walk_up(self.spec_path(), k as nat),
                can_walk(self.spec_path(), traverse as nat),
            decreases traverse - k,
        {
            proof {
                lemma_can_walk_step(self.spec_path(), traverse as nat, k as nat);
            }
            p = parent_path(&p);
            k += 1;
        }
        p
    }
}

/// Within an allowed walk, every shorter walk is allowed too.
proof fn lemma_can_walk_step(s: Seq<char>, all: nat, k: nat)
    requires
        can_walk(s, all),
        k < all,
    ensures
        walk_up(s, k).len() > 0,
        can_walk(s, k),
    decreases all,
{
    if k + 1 < all {
        lemma_can_walk_step(s, (all - 1) as nat, k);
    }
}

/// The candidate path for looking up `name` under directory prefix `dir`
/// of the materials root `base`: the prefix, the name and the extension
/// concatenated, cleaned (separators normalized, lower-cased), joined
/// under `base`.
pub open spec fn candidate_spec(
    base: Seq<char>,
    dir: Seq<char>,
    name: Seq<char>,
    ext: Seq<char>,
) -> Seq<char> {
    join_spec(base, clean_path_spec(dir + name + ext))
}

/// The first candidate (in directory-list order, from index `i` on) that
/// names an existing file, or `None`.
pub open spec fn resolve_from(
    dirs: Seq<String>,
    base: Seq<char>,
    name: Seq<char>,
    ext: Seq<char>,
    existing: Seq<String>,
    i: int,
) -> Option<Seq<char>>
    decreases dirs.len() - i,
{
    if i < 0 || i >= dirs.len() {
        None
    } else if seq_has_string(existing, candidate_spec(base, dirs[i]@, name, ext)) {
        Some(candidate_spec(base, dirs[i]@, name, ext))
    } else {
        resolve_from(dirs, base, name, ext, existing, i + 1)
    }
}

/// The resolved path for `name`: the first existing candidate over the
/// directory list, earlier directories winning.
pub open spec fn resolve_spec(
    dirs: Seq<String>,
    base: Seq<char>,
    name: Seq<char>,
    ext: Seq<char>,
    existing: Seq<String>,
) -> Option<Seq<char>> {
    resolve_from(dirs, base, name, ext, existing, 0)
}

impl MDLFile {
    /// Resolves a texture or material name against the model's texture
    /// directories under `base_path`, with extension `.vmt`.
    ///
    /// `existing` stands for the files present on disk: resolution picks
    /// the first candidate, in directory order, that appears in it.
    pub fn discover_texture_path(
        &self,
        base_path: &String,
        tex_name: &String,
        existing: &Vec<String>,
    ) -> (r: Option<String>)
        ensures
            match r {
                Some(p) => resolve_spec(
                    self.spec_partial().texture_dirs@,
                    base_path@,
                    tex_name@,
                    ".vmt"@,
                    existing@,
                ) == Some(p@),
                None => resolve_spec(
                    self.spec_partial().texture_dirs@,
                    base_path@,
                    tex_name@,
                    ".vmt"@,
                    existing@,
                ) is None,
            },
    {
        let ghost dirs = self.spec_partial().texture_dirs@;
        let mut i: usize = 0;
        while i < self.partial.texture_dirs.len()
            invariant
                dirs == self.spec_partial().texture_dirs@,
                i <= dirs.len(),
                resolve_from(dirs, base_path@, tex_name@, ".vmt"@, existing@, 0) == resolve_from(
                    dirs,
                    base_path@,
                    tex_name@,
                    ".vmt"@,
                    existing@,
                    i as int,
                ),
            decreases dirs.len() - i,
        {
            let mut joined = self.partial.texture_dirs[i].clone();
            joined.append(tex_name.as_str());
            joined.append(".vmt");
            let cand = join_path(base_path, clean_path(joined.as_str()).as_str());
            proof {
                assert(joined@ == dirs[i as int]@ + tex_name@ + ".vmt"@);
                assert(cand@ == candidate_spec(base_path@, dirs[i as int]@, tex_name@, ".vmt"@));
            }
            if vec_has_string(existing, &cand) {
                return Some(cand);
            }
            i += 1;
        }
        None
    }

    /// Each skin variant as the list of texture names its slots remap to.
    pub fn skins_with_material_names(&self) -> (r: Vec<Vec<String>>)
        requires
            self.wf(),
        ensures
            r@.len() == self.spec_partial().skins@.len(),
            forall|f: int|
                0 <= f < r@.len() ==> (#[trigger] r@[f])@.len()
                    == self.spec_partial().skins@[f].0@.len(),
            forall|f: int, sl: int|
                0 <= f < r@.len() && 0 <= sl < r@[f]@.len() ==> ((#[trigger] r@[f]@[sl])@
                    == self.spec_partial().texture_names@[self.spec_partial().skins@[f].0@[sl] as int]@),
    {
        let mut r: Vec<Vec<String>> = Vec::new();
        let mut f: usize = 0;
        while f < self.partial.skins.len()
            invariant
                self.wf(),
                f <= self.spec_partial().skins@.len(),
                r@.len() == f as int,
                forall|f2: int|
                    0 <= f2 < f ==> (#[trigger] r@[f2])@.len()
                        == self.spec_partial().skins@[f2].0@.len(),
                forall|f2: int, sl: int|
                    0 <= f2 < f && 0 <= sl < r@[f2]@.len() ==> ((#[trigger] r@[f2]@[sl])@
                        == self.spec_partial().texture_names@[self.spec_partial().skins@[f2].0@[sl] as int]@),
            decreases self.spec_partial().skins@.len() - f,
        {
            let skin = &self.partial.skins[f];
            let mut names: Vec<String> = Vec::new();
            let mut sl: usize = 0;
            while sl < skin.0.len()
                invariant
                    self.wf(),
                    f < self.spec_partial().skins@.len(),
                    skin == self.spec_partial().skins@[f as int],
                    sl <= skin.0@.len(),
                    names@.len() == sl as int,
                    forall|s2: int|
                        0 <= s2 < sl ==> ((#[trigger] names@[s2])@
                            == self.spec_partial().texture_names@[skin.0@[s2] as int]@),
                decreases skin.0@.len() - sl,
            {
                let idx = skin.0[sl] as usize;
                names.push(self.partial.texture_names[idx].clone());
                sl += 1;
            }
            r.push(names);
            f += 1;
        }
        r
    }

    /// Each skin variant as the list of resolved material paths for its
    /// slots: each slot's texture name resolved under the assets root's
    /// materials directory, or `None` where no candidate exists.
    pub fn skins_with_material_paths(&self, existing: &Vec<String>) -> (r: Vec<
        Vec<Option<String>>,
    >)
        requires
            self.wf(),
            sep_count(self.spec_partial().name@) + 1 <= usize::MAX,
            can_walk(self.spec_path(), sep_count(self.spec_partial().name@) + 1),
        ensures
            r@.len() == self.spec_partial().skins@.len(),
            forall|f: int|
                0 <= f < r@.len() ==> (#[trigger] r@[f])@.len()
                    == self.spec_partial().skins@[f].0@.len(),
            forall|f: int, sl: int|
                0 <= f < r@.len() && 0 <= sl < r@[f]@.len() ==> (match (#[trigger] r@[f]@[sl]) {
                    Some(p) => resolve_spec(
                        self.spec_partial().texture_dirs@,
                        self.spec_materials_path(),
                        self.spec_partial().texture_names@[self.spec_partial().skins@[f].0@[sl] as int]@,
                        ".vmt"@,
                        existing@,
                    ) == Some(p@),
                    None => resolve_spec(
                        self.spec_partial().texture_dirs@,
                        self.spec_materials_path(),
                        self.spec_partial().texture_names@[self.spec_partial().skins@[f].0@[sl] as int]@,
                        ".vmt"@,
                        existing@,
                    ) is None,
                }),
    {
        let assets = self.assets_path();
        let materials = join_path(&assets, "materials");
        proof {
            assert(materials@ == self.spec_materials_path());
        }
        let mut r: Vec<Vec<Option<String>>> = Vec::new();
        let mut f: usize = 0;
        while f < self.partial.skins.len()
            invariant
                self.wf(),
                materials@ == self.spec_materials_path(),
                f <= self.spec_partial().skins@.len(),
                r@.len() == f as int,
                forall|f2: int|
                    0 <= f2 < f ==> (#[trigger] r@[f2])@.len()
                        == self.spec_partial().skins@[f2].0@.len(),
                forall|f2: int, sl: int|
                    0 <= f2 < f && 0 <= sl < r@[f2]@.len() ==> (match (#[trigger] r@[f2]@[sl]) {
                        Some(p) => resolve_spec(
                            self.spec_partial().texture_dirs@,
                            self.spec_materials_path(),
                            self.spec_partial().texture_names@[self.spec_partial().skins@[f2].0@[sl] as int]@,
                            ".vmt"@,
                            existing@,
                        ) == Some(p@),
                        None => resolve_spec(
                            self.spec_partial().texture_dirs@,
                            self.spec_materials_path(),
                            self.spec_partial().texture_names@[self.spec_partial().skins@[f2].0@[sl] as int]@,
                            ".vmt"@,
                            existing@,
                        ) is None,
                    }),
            decreases self.spec_partial().skins@.len() - f,
        {
            let skin = &self.partial.skins[f];
            let mut paths: Vec<Option<String>> = Vec::new();
            let mut sl: usize = 0;
            while sl < skin.0.len()
                invariant
                    self.wf(),
                    materials@ == self.spec_materials_path(),
                    f < self.spec_partial().skins@.len(),
                    skin == self.spec_partial().skins@[f as int],
                    sl <= skin.0@.len(),
                    paths@.len() == sl as int,
                    forall|s2: int|
                        0 <= s2 < sl ==> (match (#[trigger] paths@[s2]) {
                            Some(p) => resolve_spec(
                                self.spec_partial().texture_dirs@,
                                self.spec_materials_path(),
                                self.spec_partial().texture_names@[skin.0@[s2] as int]@,
                                ".vmt"@,
                                existing@,
                            ) == Some(p@),
                            None => resolve_spec(
                                self.spec_partial().texture_dirs@,
                                self.spec_materials_path(),
                                self.spec_partial().texture_names@[skin.0@[s2] as int]@,
                                ".vmt"@,
                                existing@,
                            ) is None,
                        }),
                decreases skin.0@.len() - sl,
            {
                let idx = skin.0[sl] as usize;
                let name = &self.partial.texture_names[idx];
                paths.push(self.discover_texture_path(&materials, name, existing));
                sl += 1;
            }
            r.push(paths);
            f += 1;
        }
        r
    }

    /// The model's embedded name.
    pub fn name(&self) -> (r: &String)
        ensures
            r@ == self.spec_partial().name@,
    {
        &self.partial.name
    }

    /// The model's texture name table.
    pub fn texture_names(&self) -> (r: &Vec<String>)
        ensures
            r@ == self.spec_partial().texture_names@,
    {
        &self.partial.texture_names
    }

    /// The materials directory under the assets root.
    pub open spec fn spec_materials_path(&self) -> Seq<char> {
        join_spec(
            walk_up(self.spec_path(), sep_count(self.spec_partial().name@) + 1),
            "materials"@,
        )
    }
}

/// The kind of a dependency node, at the specification level.
pub ghost enum DepKind {
    Model,
    Material,
    Texture,
}

/// A dependency node at the specification level: its kind and its path.
pub ghost struct DepNode {
    pub kind: DepKind,
    pub path: Seq<char>,
}

/// The specification-level image of a dependency value.
pub open spec fn dep_view(d: MDLDependency) -> DepNode {
    match d {
        MDLDependency::Model(p) => DepNode { kind: DepKind::Model, path: p@ },
        MDLDependency::Material(p) => DepNode { kind: DepKind::Material, path: p@ },
        MDLDependency::Texture(p) => DepNode { kind: DepKind::Texture, path: p@ },
    }
}

/// A dependency graph under construction, at the specification level: the
/// nodes in insertion order, the edges as (parent, child, label) triples,
/// and the texture paths already inserted.
pub ghost struct DepState {
    pub nodes: Seq<DepNode>,
    pub edges: Seq<(int, int, MDLDependencyType)>,
    pub seen: Seq<Seq<char>>,
}

/// The single-node state a resolution starts from: the model at the root.
pub open spec fn dep_init(me: Seq<char>) -> DepState {
    DepState {
        nodes: seq![DepNode { kind: DepKind::Model, path: me }],
        edges: Seq::empty(),
        seen: Seq::empty(),
    }
}

/// Whether `f` is an auxiliary sibling of the model at `me`: a different
/// file whose name starts with the model's stem.
pub open spec fn is_sibling(me: Seq<char>, f: Seq<char>) -> bool {
    starts_with_spec(base_name_spec(f), stem_spec(me)) && f != me
}

/// The state after inserting, as direct children of the root, the first
/// `i` listed files that are siblings of the model.
pub open spec fn sib_state(me: Seq<char>, files: Seq<String>, i: int) -> DepState
    decreases i,
{
    if i <= 0 {
        dep_init(me)
    } else {
        let st = sib_state(me, files, i - 1);
        if is_sibling(me, files[i - 1]@) {
            DepState {
                nodes: st.nodes.push(DepNode { kind: DepKind::Model, path: files[i - 1]@ }),
                edges: st.edges.push((0, st.nodes.len() as int, MDLDependencyType::Direct)),
                seen: st.seen,
            }
        } else {
            st
        }
    }
}

/// The texture candidate path for reference `t`: the cleaned reference
/// with extension `.vtf`, under the materials directory.
pub open spec fn texture_candidate(materials: Seq<char>, t: Seq<char>) -> Seq<char> {
    join_spec(materials, clean_path_spec(t) + ".vtf"@)
}

/// The state after attaching, under material node `mat_idx`, the textures
/// of the first `j` references: each candidate that exists on disk and was
/// not inserted before, in reference order.
pub open spec fn tex_state(
    st: DepState,
    mat_idx: int,
    materials: Seq<char>,
    refs: Seq<Seq<char>>,
    existing: Seq<String>,
    j: int,
) -> DepState
    decreases j,
{
    if j <= 0 {
        st
    } else {
        let st2 = tex_state(st, mat_idx, materials, refs, existing, j - 1);
        let tp = texture_candidate(materials, refs[j - 1]);
        if seq_has_string(existing, tp) && !st2.seen.contains(tp) {
            DepState {
                nodes: st2.nodes.push(DepNode { kind: DepKind::Texture, path: tp }),
                edges: st2.edges.push(
                    (mat_idx, st2.nodes.len() as int, MDLDependencyType::Indirect),
                ),
                seen: st2.seen.push(tp),
            }
        } else {
            st2
        }
    }
}

/// The state after working through the first `i` texture names: each name
/// whose material resolves gets a material node under the root and its
/// parsed texture references attached under it.
pub open spec fn mat_state(
    me: Seq<char>,
    files: Seq<String>,
    dirs: Seq<String>,
    names: Seq<String>,
    materials: Seq<char>,
    existing: Seq<String>,
    contents: Seq<Option<String>>,
    i: int,
) -> DepState
    decreases i,
{
    if i <= 0 {
        sib_state(me, files, files.len() as int)
    } else {
        let st = mat_state(me, files, dirs, names, materials, existing, contents, i - 1);
        match resolve_spec(dirs, materials, names[i - 1]@, ".vmt"@, existing) {
            Some(mp) => {
                let mat_idx = st.nodes.len() as int;
                let st2 = DepState {
                    nodes: st.nodes.push(DepNode { kind: DepKind::Material, path: mp }),
                    edges: st.edges.push((0, mat_idx, MDLDependencyType::Indirect)),
                    seen: st.seen,
                };
                let refs = match contents[i - 1] {
                    Some(c) => crate::vmt::vmt_list(c@),
                    None => Seq::empty(),
                };
                tex_state(st2, mat_idx, materials, refs, existing, refs.len() as int)
            },
            None => st,
        }
    }
}

/// Inserting siblings never records a seen texture path.
proof fn lemma_sib_state_seen(me: Seq<char>, files: Seq<String>, i: int)
    ensures
        sib_state(me, files, i).seen == Seq::<Seq<char>>::empty(),
    decreases i,
{
    if i > 0 {
        lemma_sib_state_seen(me, files, i - 1);
    }
}

/// Attaching textures only adds nodes.
proof fn lemma_tex_state_grows(
    st: DepState,
    mat_idx: int,
    materials: Seq<char>,
    refs: Seq<Seq<char>>,
    existing: Seq<String>,
    j: int,
)
    ensures
        tex_state(st, mat_idx, materials, refs, existing, j).nodes.len() >= st.nodes.len(),
    decreases j,
{
    if j > 0 {
        lemma_tex_state_grows(st, mat_idx, materials, refs, existing, j - 1);
    }
}

/// Whether a graph holds exactly the nodes and edges of a
/// specification-level state, all nodes present, in the same order.
pub open spec fn graph_matches(
    g: DependencyGraph<MDLDependency, MDLDependencyType>,
    st: DepState,
) -> bool {
    &&& g.nodes_seq().len() == st.nodes.len()
    &&& (forall|i: int|
        0 <= i < st.nodes.len() ==> (#[trigger] g.nodes_seq()[i]) is Some && dep_view(
            g.nodes_seq()[i]->Some_0,
        ) == st.nodes[i])
    &&& g.edges_seq().len() == st.edges.len()
    &&& (forall|k: int|
        0 <= k < st.edges.len() ==> ((#[trigger] g.edges_seq()[k]).from as int) == st.edges[k].0
            && ((g.edges_seq()[k]).to as int) == st.edges[k].1 && (g.edges_seq()[k]).label == (
        st.edges[k]).2)
}

impl MDLFile {
    /// Builds the model's dependency graph.
    ///
    /// `dir_files` lists the files of the model's own directory, `existing`
    /// the files present on disk, and `mat_contents` the text of the
    /// resolved material for each texture name (`None` where no material
    /// resolved or its text is unavailable; such entries contribute no
    /// textures).  The graph comes out rooted at the model, with every
    /// listed sibling file of the model as a `Direct` child of the root,
    /// every resolved material as an `Indirect` child of the root, and
    /// every texture a material references, once per distinct path, as an
    /// `Indirect` child of its first referencing material.
    pub fn dependencies(
        &self,
        dir_files: &Vec<String>,
        existing: &Vec<String>,
        mat_contents: &Vec<Option<String>>,
    ) -> (g: DependencyGraph<MDLDependency, MDLDependencyType>)
        requires
            sep_count(self.spec_partial().name@) + 1 <= usize::MAX,
            can_walk(self.spec_path(), sep_count(self.spec_partial().name@) + 1),
            mat_contents@.len() == self.spec_partial().texture_names@.len(),
        ensures
            g.wf(),
            graph_matches(
                g,
                mat_state(
                    self.spec_path(),
                    dir_files@,
                    self.spec_partial().texture_dirs@,
                    self.spec_partial().texture_names@,
                    self.spec_materials_path(),
                    existing@,
                    mat_contents@,
                    self.spec_partial().texture_names@.len() as int,
                ),
            ),
    {
        let ghost me = self.spec_path();
        let assets = self.assets_path();
        let materials = join_path(&assets, "materials");
        proof {
            assert(materials@ == self.spec_materials_path());
        }
        let mut deps: DependencyGraph<MDLDependency, MDLDependencyType> = DependencyGraph::new(
            MDLDependency::Model(self.path.clone()),
        );
        let stem = path_stem(&self.path);
        let mut i: usize = 0;
        proof {
            assert(graph_matches(deps, dep_init(me)));
        }
        while i < dir_files.len()
            invariant
                me == self.spec_path(),
                stem@ == stem_spec(me),
                i <= dir_files@.len(),
                deps.wf(),
                graph_matches(deps, sib_state(me, dir_files@, i as int)),
            decreases dir_files@.len() - i,
        {
            let f = &dir_files[i];
            let bn = crate::strutil::base_name(f);
            let ghost st0 = sib_state(me, dir_files@, i as int);
            if str_starts_with(&bn, &stem) && !f.eq(&self.path) {
                deps.insert(MDLDependency::Model(f.clone()), MDLDependencyType::Direct);
                proof {
                    assert(is_sibling(me, dir_files@[i as int]@));
                    assert(graph_matches(deps, sib_state(me, dir_files@, i + 1)));
                }
            } else {
                proof {
                    assert(!is_sibling(me, dir_files@[i as int]@));
                }
            }
            i += 1;
        }
        let ghost files = dir_files@;
        let ghost dirs = self.spec_partial().texture_dirs@;
        let ghost names = self.spec_partial().texture_names@;
        let mut discovered: Vec<String> = Vec::new();
        let mut i: usize = 0;
        proof {
            assert(crate::vmt::views_of(discovered@) =~= Seq::<Seq<char>>::empty());
            lemma_sib_state_seen(me, files, files.len() as int);
        }
        while i < self.partial.texture_names.len()
            invariant
                me == self.spec_path(),
                materials@ == self.spec_materials_path(),
                files == dir_files@,
                dirs == self.spec_partial().texture_dirs@,
                names == self.spec_partial().texture_names@,
                mat_contents@.len() == names.len(),
                i <= names.len(),
                deps.wf(),
                graph_matches(
                    deps,
                    mat_state(me, files, dirs, names, materials@, existing@, mat_contents@, i as int),
                ),
                crate::vmt::views_of(discovered@) == mat_state(
                    me,
                    files,
                    dirs,
                    names,
                    materials@,
                    existing@,
                    mat_contents@,
                    i as int,
                ).seen,
            decreases names.len() - i,
        {
            let ghost st0 = mat_state(me, files, dirs, names, materials@, existing@, mat_contents@, i as int);
            let name = &self.partial.texture_names[i];
            match self.discover_texture_path(&materials, name, existing) {
                Some(mat_path) => {
                    let ghost mp = mat_path@;
                    let mat_ref = deps.insert(
                        MDLDependency::Material(mat_path),
                        MDLDependencyType::Indirect,
                    );
                    let ghost st2 = DepState {
                        nodes: st0.nodes.push(DepNode { kind: DepKind::Material, path: mp }),
                        edges: st0.edges.push(
                            (0, st0.nodes.len() as int, MDLDependencyType::Indirect),
                        ),
                        seen: st0.seen,
                    };
                    proof {
                        assert(graph_matches(deps, st2));
                    }
                    let refs: Vec<String> = match &mat_contents[i] {
                        Some(c) => crate::vmt::parse(c.as_str()).textures,
                        None => Vec::new(),
                    };
                    let ghost refseqs = match mat_contents@[i as int] {
                        Some(c) => crate::vmt::vmt_list(c@),
                        None => Seq::<Seq<char>>::empty(),
                    };
                    proof {
                        assert(crate::vmt::views_of(refs@) =~= refseqs);
                    }
                    let mut j: usize = 0;
                    while j < refs.len()
                        invariant
                            me == self.spec_path(),
                            materials@ == self.spec_materials_path(),
                            j <= refs@.len(),
                            crate::vmt::views_of(refs@) == refseqs,
                            mat_ref as int == st2.nodes.len() - 1,
                            deps.wf(),
                            graph_matches(
                                deps,
                                tex_state(st2, mat_ref as int, materials@, refseqs, existing@, j as int),
                            ),
                            crate::vmt::views_of(discovered@) == tex_state(
                                st2,
                                mat_ref as int,
                                materials@,
                                refseqs,
                                existing@,
                                j as int,
                            ).seen,
                        decreases refs@.len() - j,
                    {
                        let ghost stj = tex_state(st2, mat_ref as int, materials@, refseqs, existing@, j as int);
                        let mut fname = clean_path(refs[j].as_str());
                        fname.append(".vtf");
                        let tex_path = join_path(&materials, fname.as_str());
                        proof {
                            assert(tex_path@ == texture_candidate(materials@, refseqs[j as int]));
                        }
                        proof {
                            lemma_tex_state_grows(
                                st2,
                                mat_ref as int,
                                materials@,
                                refseqs,
                                existing@,
                                j as int,
                            );
                        }
                        let on_disk = vec_has_string(existing, &tex_path);
                        let already = vec_has_string(&discovered, &tex_path);
                        proof {
                            assert(already == stj.seen.contains(tex_path@)) by {
                                let dv = crate::vmt::views_of(discovered@);
                                if already {
                                    let w = choose|w: int|
                                        0 <= w < discovered@.len() && discovered@[w]@ == tex_path@;
                                    assert(dv[w] == tex_path@);
                                }
                                if stj.seen.contains(tex_path@) {
                                    let w = choose|w: int|
                                        0 <= w < dv.len() && dv[w] == tex_path@;
                                    assert(discovered@[w]@ == tex_path@);
                                }
                            }
                        }
                        if on_disk && !already {
                            deps.insert_sub(
                                mat_ref,
                                MDLDependency::Texture(tex_path.clone()),
                                MDLDependencyType::Indirect,
                            );
                            discovered.push(tex_path);
                            proof {
                                assert(crate::vmt::views_of(discovered@) =~= stj.seen.push(
                                    texture_candidate(materials@, refseqs[j as int]),
                                ));
                                assert(graph_matches(
                                    deps,
                                    tex_state(st2, mat_ref as int, materials@, refseqs, existing@, j + 1),
                                ));
                            }
                        } else {
                            proof {
                                assert(tex_state(st2, mat_ref as int, materials@, refseqs, existing@, j + 1)
                                    == stj);
                            }
                        }
                        j += 1;
                    }
                    proof {
                        assert(tex_state(st2, mat_ref as int, materials@, refseqs, existing@, refseqs.len() as int)
                            == mat_state(me, files, dirs, names, materials@, existing@, mat_contents@, i + 1));
                    }
                },
                None => {
                    proof {
                        assert(mat_state(me, files, dirs, names, materials@, existing@, mat_contents@, i + 1)
                            == st0);
                    }
                },
            }
            i += 1;
        }
        deps
    }
}

} // verus!
