//! The first steps of reading a project archive: its one project folder, its element tree
//! (`projet_config.xml`, or one given in its place) as text and parsed, and the tree's root
//! element, which must be `<projet>`.
use crate::import::{is_invalid, is_syntax, is_unsupported, ImportError};
use crate::proj::{config_refusal, configs_before, is_project_config, project_config, project_folder, CONFIG_NAME, FMT_PROJ, FMT_XML};
use crate::text::{is_utf8, lossy_text, message_str, message_u64, string_from_utf8_lossy};
use crate::xml::{attr_of, attribute, element_kids, element_order, find_child, first_match, parse_xml, xml_tree_of, XmlFault, XmlNode, XmlTree};
use crate::scene::{describes, read_scene_mesh, spec_scene_mesh, SceneGroup, SceneMesh};
use crate::proj::{is_plain_file_name, plain_file_name, FMT_MESH};
use crate::zip::{is_fault, read_outcome, read_result, spec_directory, Archive, Entry};
use vstd::prelude::*;
use vstd::string::StringSliceAdditionalSpecFns;

verus! {

/// The names of the entries, in order.
pub open spec fn names_of(listed: Seq<Entry>) -> Seq<String> {
    listed.map_values(|e: Entry| e.name)
}

/// The first element among the nodes `ch` (indices into `t`).
pub open spec fn first_element(t: Seq<XmlNode>, ch: Seq<usize>) -> Option<usize>
    decreases ch.len(),
{
    if ch.len() == 0 {
        None
    } else if ch[0] < t.len() && t[ch[0] as int].element {
        Some(ch[0])
    } else {
        first_element(t, ch.drop_first())
    }
}

/// The document's root element: the first element child of its document node.
pub open spec fn root_element(t: Seq<XmlNode>) -> Option<usize> {
    if t.len() == 0 {
        None
    } else {
        first_element(t, t[0].children@)
    }
}

proof fn lemma_first_element(t: Seq<XmlNode>, ch: Seq<usize>)
    ensures
        first_element(t, ch) matches Some(c) ==> c < t.len() && t[c as int].element,
    decreases ch.len(),
{
    if ch.len() > 0 {
        lemma_first_element(t, ch.drop_first());
    }
}

/// The root element of `t` is `<projet>`.
pub open spec fn projet_root(t: Seq<XmlNode>) -> bool {
    root_element(t) matches Some(q) && q < t.len() && t[q as int].tag@ == "projet"@
}

/// How the tree's bytes `x` are refused with `e`: they do not parse, or their root is not
/// `<projet>`.
pub open spec fn xml_refused(x: Seq<u8>, e: ImportError) -> bool {
    match xml_tree_of(lossy_text(x)) {
        Err(_) => is_syntax(e, FMT_XML),
        Ok(t) => is_invalid(e, FMT_XML) && !projet_root(t.nodes@),
    }
}

/// A project archive's element tree, read: the archive, which entry is the tree
/// (`projet_config.xml`), the project folder, the tree's bytes and text, the parsed tree and its
/// root element.
pub struct ProjectTree<'a> {
    pub archive: Archive<'a>,
    pub config: usize,
    pub folder: String,
    pub xml: Vec<u8>,
    /// The bytes are valid UTF-8; when not, invalid sequences were replaced.
    pub utf8: bool,
    pub text: String,
    pub tree: XmlTree,
    pub root: usize,
}

/// The first element child among `ch`.
fn find_element(tree: &XmlTree, ch: &Vec<usize>) -> (r: Option<usize>)
    ensures
        r == first_element(tree.nodes@, ch@),
{
    let mut m: usize = 0;
    assert(ch@.skip(0) =~= ch@);
    while m < ch.len()
        invariant
            m <= ch@.len(),
            first_element(tree.nodes@, ch@) == first_element(tree.nodes@, ch@.skip(m as int)),
        decreases ch@.len() - m,
    {
        let c = ch[m];
        assert(ch@.skip(m as int)[0] == c);
        assert(ch@.skip(m as int).drop_first() =~= ch@.skip(m + 1));
        if c < tree.nodes.len() && tree.nodes[c].element {
            return Some(c);
        }
        m = m + 1;
    }
    None
}

/// The tree's bytes are `x`: those given, or, with none given, what reading entry `i` gives.
pub open spec fn xml_of(data: Seq<u8>, listed: Seq<Entry>, i: int, cfg: Option<Seq<u8>>, x: Seq<u8>) -> bool {
    match cfg {
        Some(b) => x == b,
        None => exists|v: Vec<u8>| v@ == x && #[trigger] read_outcome(data, listed[i], Ok::<Vec<u8>, ImportError>(v)),
    }
}

/// `a` is the archive [`Archive::parse`] makes of `bytes`: their central directory's entries.
pub open spec fn parsed_from(a: Archive, bytes: Seq<u8>) -> bool {
    &&& a.data() == bytes
    &&& spec_directory(bytes) matches Ok(s) && a.listed().len() == s.len() && forall|k: int|
        0 <= k < s.len() ==> crate::zip::holds(#[trigger] a.listed()[k], s[k])
}

/// The bytes given in place of an archive's own element tree, if any.
pub open spec fn given(cfg: Option<&[u8]>) -> Option<Seq<u8>> {
    match cfg {
        Some(b) => Some(b@),
        None => None,
    }
}

/// Entry `i` is the archive's one element tree.
pub open spec fn the_config(listed: Seq<Entry>, i: int) -> bool {
    &&& configs_before(names_of(listed), listed.len() as int) == 1
    &&& 0 <= i < listed.len()
    &&& is_project_config(listed[i].name@)
}

/// What reading the element tree of the archive `a` gives, with `cfg` given in place of its own
/// `projet_config.xml`: the tree of the one project folder ([`the_config`]), parsed from its text
/// ([`lossy_text`], [`xml_tree_of`]) with a `<projet>` root element; or the refusal of the first
/// step that fails: no project folder, several, the entry's read, the parse, the root.
pub open spec fn tree_outcome<'a>(a: Archive<'a>, cfg: Option<Seq<u8>>, r: Result<ProjectTree<'a>, ImportError>) -> bool {
    let listed = a.listed();
    let n = configs_before(names_of(listed), listed.len() as int);
    match r {
        Ok(p) => {
            &&& p.archive == a
            &&& the_config(listed, p.config as int)
            &&& p.folder@ == listed[p.config as int].name@.subrange(
                0,
                listed[p.config as int].name@.len() - CONFIG_NAME@.len(),
            )
            &&& xml_of(a.data(), listed, p.config as int, cfg, p.xml@)
            &&& p.utf8 == vstd::utf8::valid_utf8(p.xml@)
            &&& p.text@ == lossy_text(p.xml@)
            &&& xml_tree_of(p.text@) == Ok::<XmlTree, XmlFault>(p.tree)
            &&& root_element(p.tree.nodes@) == Some(p.root)
            &&& projet_root(p.tree.nodes@)
        },
        Err(e) => {
            ||| n != 1 && config_refusal(n, e)
            ||| exists|i: int|
                #[trigger] the_config(listed, i) && {
                    ||| cfg is None && read_outcome(a.data(), listed[i], Err::<Vec<u8>, ImportError>(e))
                    ||| exists|x: Seq<u8>| #[trigger] xml_of(a.data(), listed, i, cfg, x) && xml_refused(x, e)
                }
        },
    }
}


/// The tree's bytes as text ([`lossy_text`]), whether they are valid UTF-8, parsed
/// ([`xml_tree_of`]), and the root element, which must be `<projet>`; or the refusal
/// ([`xml_refused`]).
fn parse_tree(xml: &Vec<u8>) -> (r: Result<(bool, String, XmlTree, usize), ImportError>)
    ensures
        match r {
            Ok((utf8, text, tree, root)) => {
                &&& utf8 == vstd::utf8::valid_utf8(xml@)
                &&& text@ == lossy_text(xml@)
                &&& xml_tree_of(text@) == Ok::<XmlTree, XmlFault>(tree)
                &&& root_element(tree.nodes@) == Some(root)
                &&& projet_root(tree.nodes@)
            },
            Err(e) => xml_refused(xml@, e),
        },
{
    let utf8 = is_utf8(xml.as_slice());
    let text = string_from_utf8_lossy(xml.as_slice());
    let tree = match parse_xml(text.as_str()) {
        Ok(t) => t,
        Err(f) => {
            let mut at = message_u64("", f.row as u64, ":");
            at.append(message_u64("", f.col as u64, "").as_str());
            return Err(ImportError::syntax(FMT_XML, at, f.message));
        },
    };
    let root = if tree.nodes.len() == 0 {
        None
    } else {
        find_element(&tree, &tree.nodes[0].children)
    };
    proof {
        if tree.nodes@.len() > 0 {
            lemma_first_element(tree.nodes@, tree.nodes@[0].children@);
        }
    }
    let root = match root {
        Some(x) => x,
        None => {
            return Err(ImportError::invalid(FMT_XML, message_str("", "the document has no root element", "")));
        },
    };
    if !crate::import::str_eq(tree.nodes[root].tag.as_str(), "projet") {
        return Err(
            ImportError::invalid(
                FMT_XML,
                message_str("the root element is <", tree.nodes[root].tag.as_str(), ">, not <projet>"),
            ),
        );
    }
    Ok((utf8, text, tree, root))
}

/// Reads the element tree of an archive ([`tree_outcome`]), with `projet_config` in place of
/// its own `projet_config.xml` when given.
pub fn tree_of_archive<'a>(archive: Archive<'a>, projet_config: Option<&[u8]>) -> (r: Result<ProjectTree<'a>, ImportError>)
    ensures
        tree_outcome(
            archive,
            given(projet_config),
            r,
        ),
{
    let ghost cfg = given(projet_config);
    let entries = archive.entries();
    let mut names: Vec<String> = Vec::new();
    let mut k: usize = 0;
    while k < entries.len()
        invariant
            k <= entries@.len(),
            entries@ == archive.listed(),
            names@ == names_of(entries@.take(k as int)),
        decreases entries@.len() - k,
    {
        assert(entries@.take(k + 1) =~= entries@.take(k as int).push(entries@[k as int]));
        names.push(entries[k].name.clone());
        k = k + 1;
    }
    assert(entries@.take(entries@.len() as int) =~= entries@);
    let i = match project_config(&names) {
        Ok(i) => i,
        Err(e) => {
            return Err(e);
        },
    };
    assert(the_config(archive.listed(), i as int));
    let folder = project_folder(names[i].as_str());
    let xml: Vec<u8> = match projet_config {
        Some(b) => vstd::slice::slice_to_vec(b),
        None => match archive.read_entry(&entries[i]) {
            Ok(v) => {
                assert(xml_of(archive.data(), archive.listed(), i as int, cfg, v@));
                v
            },
            Err(e) => {
                return Err(e);
            },
        },
    };
    assert(xml_of(archive.data(), archive.listed(), i as int, cfg, xml@));
    let (utf8, text, tree, root) = match parse_tree(&xml) {
        Ok(x) => x,
        Err(e) => {
            return Err(e);
        },
    };
    Ok(ProjectTree { archive, config: i, folder, xml, utf8, text, tree, root })
}

/// Reads a project archive's element tree: the archive's directory ([`Archive::parse`]), then
/// [`tree_of_archive`].
pub fn project_tree<'a>(bytes: &'a [u8], projet_config: Option<&[u8]>) -> (r: Result<ProjectTree<'a>, ImportError>)
    ensures
        match spec_directory(bytes@) {
            Err(f) => r matches Err(e) && is_fault(e, f),
            Ok(_) => exists|a: Archive<'a>| #[trigger] parsed_from(a, bytes@) && tree_outcome(a, given(projet_config), r),
        },
{
    let archive = match Archive::parse(bytes) {
        Ok(a) => a,
        Err(e) => {
            return Err(e);
        },
    };
    let ghost a = archive;
    assert(parsed_from(a, bytes@));
    tree_of_archive(archive, projet_config)
}


/// The `urlmodel` property (`<p name="urlmodel">`) of the first `Configuration` element among
/// `cs` that has one.
pub open spec fn urlmodel_in(t: Seq<XmlNode>, cs: Seq<usize>) -> Option<usize>
    decreases cs.len(),
{
    if cs.len() == 0 {
        None
    } else {
        let c = cs[0];
        if c < t.len() && t[c as int].tag@ == "Configuration"@ {
            match first_match(t, element_order(t, c as int), "p"@, Some("urlmodel"@)) {
                Some(q) => Some(q),
                None => urlmodel_in(t, cs.drop_first()),
            }
        } else {
            urlmodel_in(t, cs.drop_first())
        }
    }
}

/// The scene mesh's file name the project element `pe` names: its `urlmodel`'s `textValue`, or
/// `sceneMesh.bin`.
pub open spec fn mesh_name_of(t: Seq<XmlNode>, pe: int) -> Seq<char> {
    match urlmodel_in(t, element_order(t, pe)) {
        Some(q) if q < t.len() => match attr_of(t[q as int], "textValue"@) {
            Some(v) => v@,
            None => "sceneMesh.bin"@,
        },
        _ => "sceneMesh.bin"@,
    }
}

/// The faces of the first `g` groups, in order.
pub open spec fn faces_before(groups: Seq<SceneGroup>, g: int) -> Seq<[u32; 3]>
    decreases g,
{
    if g <= 0 {
        seq![]
    } else {
        faces_before(groups, g - 1) + groups[g - 1].faces@
    }
}

/// A read project's scene: its element tree, the `Scene`, `donnees` and `projet` elements, the
/// scene mesh's file name and bytes, the mesh, its faces in file order and where each mesh group
/// starts among them.
pub struct ProjectScene<'a> {
    pub tree: ProjectTree<'a>,
    pub scene: usize,
    pub data: usize,
    pub project: usize,
    pub mesh_name: String,
    pub mesh_bytes: Vec<u8>,
    pub mesh: SceneMesh,
    pub faces: Vec<[u32; 3]>,
    pub group_start: Vec<usize>,
}

/// The element child `name` of node `i` in load order, or [`ImportError::Invalid`].
fn child(tree: &XmlTree, i: usize, name: &str) -> (r: Result<usize, ImportError>)
    requires
        i < tree.nodes@.len(),
    ensures
        match r {
            Ok(c) => first_match(tree.nodes@, element_order(tree.nodes@, i as int), name@, None) == Some(c)
                && c < tree.nodes@.len(),
            Err(e) => first_match(tree.nodes@, element_order(tree.nodes@, i as int), name@, None) is None
                && is_invalid(e, FMT_XML),
        },
{
    let found = find_child(tree, i, name, None);
    proof {
        crate::xml::lemma_first_match_in(tree.nodes@, element_order(tree.nodes@, i as int), name@, None);
    }
    match found {
        Some(c) => Ok(c),
        None => {
            let mut m = message_str("<", tree.nodes[i].tag.as_str(), "> has no <");
            m.append(name);
            m.append(">");
            Err(ImportError::invalid(FMT_XML, m))
        },
    }
}

/// The file name a `urlmodel` property gives: its `textValue`, or `sceneMesh.bin`.
pub open spec fn name_from(t: Seq<XmlNode>, found: Option<usize>) -> Seq<char> {
    match found {
        Some(q) if q < t.len() => match attr_of(t[q as int], "textValue"@) {
            Some(v) => v@,
            None => "sceneMesh.bin"@,
        },
        _ => "sceneMesh.bin"@,
    }
}

fn name_of_found(tree: &XmlTree, found: Option<usize>) -> (r: String)
    ensures
        r@ == name_from(tree.nodes@, found),
{
    proof {
        reveal_strlit("");
    }
    match found {
        Some(q) => {
            if q < tree.nodes.len() {
                match attribute(&tree.nodes[q], "textValue") {
                    Some(v) => {
                        return v;
                    },
                    None => {},
                }
            }
        },
        None => {},
    }
    let r = message_str("", "sceneMesh.bin", "");
    assert(r@ =~= "sceneMesh.bin"@);
    r
}

/// The scene mesh's file name the project element `pe` names ([`mesh_name_of`]).
fn mesh_name(tree: &XmlTree, pe: usize) -> (r: String)
    requires
        pe < tree.nodes@.len(),
    ensures
        r@ == mesh_name_of(tree.nodes@, pe as int),
{
    let ghost t = tree.nodes@;
    let cs = element_kids(tree, pe);
    let mut m: usize = 0;
    assert(cs@.skip(0) =~= cs@);
    while m < cs.len()
        invariant
            m <= cs@.len(),
            t == tree.nodes@,
            cs@ == element_order(t, pe as int),
            urlmodel_in(t, cs@) == urlmodel_in(t, cs@.skip(m as int)),
        decreases cs@.len() - m,
    {
        let c = cs[m];
        assert(cs@.skip(m as int)[0] == c);
        assert(cs@.skip(m as int).drop_first() =~= cs@.skip(m + 1));
        if c < tree.nodes.len() && crate::import::str_eq(tree.nodes[c].tag.as_str(), "Configuration") {
            let q = find_child(tree, c, "p", Some("urlmodel"));
            if q.is_some() {
                assert(urlmodel_in(t, cs@) == q);
                return name_of_found(tree, q);
            }
        }
        m = m + 1;
    }
    assert(cs@.skip(cs@.len() as int).len() == 0);
    name_of_found(tree, None)
}

/// The faces of a mesh in file order, and where each group's faces start among them.
fn scene_faces(mesh: &SceneMesh) -> (r: (Vec<[u32; 3]>, Vec<usize>))
    ensures
        r.0@ == faces_before(mesh.groups@, mesh.groups@.len() as int),
        r.1@.len() == mesh.groups@.len(),
        forall|g: int| 0 <= g < r.1@.len() ==> #[trigger] r.1@[g] == faces_before(mesh.groups@, g).len(),
{
    let mut faces: Vec<[u32; 3]> = Vec::new();
    let mut group_start: Vec<usize> = Vec::new();
    let mut g: usize = 0;
    while g < mesh.groups.len()
        invariant
            g <= mesh.groups@.len(),
            faces@ == faces_before(mesh.groups@, g as int),
            group_start@.len() == g,
            forall|h: int| 0 <= h < g ==> #[trigger] group_start@[h] == faces_before(mesh.groups@, h).len(),
        decreases mesh.groups@.len() - g,
    {
        group_start.push(faces.len());
        let gf = &mesh.groups[g].faces;
        let mut j: usize = 0;
        let ghost base = faces@;
        while j < gf.len()
            invariant
                j <= gf@.len(),
                faces@ == base + gf@.take(j as int),
            decreases gf@.len() - j,
        {
            assert(gf@.take(j + 1) =~= gf@.take(j as int).push(gf@[j as int]));
            faces.push(gf[j]);
            j = j + 1;
        }
        assert(gf@.take(gf@.len() as int) =~= gf@);
        g = g + 1;
    }
    (faces, group_start)
}

/// How many faces the first `g` groups of a scene walk hold.
pub open spec fn walk_faces(gs: Seq<(Seq<u8>, Seq<[u32; 3]>)>, g: int) -> nat
    decreases g,
{
    if g <= 0 {
        0
    } else {
        walk_faces(gs, g - 1) + gs[g - 1].1.len()
    }
}

proof fn lemma_walk_faces(mesh: SceneMesh, major: u32, minor: u32, w: crate::scene::Walk, g: int)
    requires
        describes(mesh, major, minor, w),
        0 <= g <= w.groups.len(),
    ensures
        faces_before(mesh.groups@, g).len() == walk_faces(w.groups, g),
    decreases g,
{
    if g > 0 {
        lemma_walk_faces(mesh, major, minor, w, g - 1);
        assert(mesh.groups@[g - 1].faces@ == w.groups[g - 1].1);
    }
}

/// How reading `sceneMesh.bin`'s bytes `b` is refused with `e`: a malformed file
/// ([`spec_scene_mesh`]); a vertex that is not finite ([`ImportError::Invalid`]); or no face at
/// all ([`ImportError::Empty`]).
pub open spec fn mesh_refused(b: Seq<u8>, e: ImportError) -> bool {
    match spec_scene_mesh(b) {
        Err(f) => crate::scene::is_scene_fault(e, f),
        Ok((major, minor, w)) => if w.vertices matches Some(vs) && exists|j: int|
            0 <= j < vs.len() && !crate::scene::finite_vertex(#[trigger] vs[j]) {
            is_invalid(e, FMT_MESH)
        } else {
            walk_faces(w.groups, w.groups.len() as int) == 0 && e == (ImportError::Empty { format: FMT_MESH })
        },
    }
}

/// The scene of a read tree once its `Scene` (`s`), `donnees` (`d`) and `projet` (`pe`) are
/// found and the mesh's file name (`name`) is a plain one: the mesh read from the project folder
/// ([`read_result`]), parsed, with finite vertices, its faces in file order and each group's
/// first face among them, at least one; or the refusal of the read or of the mesh
/// ([`mesh_refused`]).
pub open spec fn mesh_outcome<'a>(
    pt: ProjectTree<'a>,
    s: usize,
    d: usize,
    pe: usize,
    name: Seq<char>,
    r: Result<ProjectScene<'a>, ImportError>,
) -> bool {
    let path = pt.folder@ + name;
    let (listed, data) = (pt.archive.listed(), pt.archive.data());
    match r {
        Ok(p) => {
            &&& p.tree == pt
            &&& p.scene == s && p.data == d && p.project == pe
            &&& p.mesh_name@ == name
            &&& read_result(listed, data, path, Ok::<Vec<u8>, ImportError>(p.mesh_bytes))
            &&& spec_scene_mesh(p.mesh_bytes@) matches Ok((major, minor, w)) && describes(p.mesh, major, minor, w)
            &&& forall|j: int| 0 <= j < p.mesh.vertices@.len() ==> crate::scene::finite_vertex(#[trigger] p.mesh.vertices@[j])
            &&& p.faces@ == faces_before(p.mesh.groups@, p.mesh.groups@.len() as int)
            &&& p.faces@.len() > 0
            &&& p.group_start@.len() == p.mesh.groups@.len()
            &&& forall|g: int| 0 <= g < p.group_start@.len() ==> #[trigger] p.group_start@[g] == faces_before(p.mesh.groups@, g).len()
        },
        Err(e) => {
            ||| read_result(listed, data, path, Err::<Vec<u8>, ImportError>(e))
            ||| exists|v: Vec<u8>| #[trigger] read_result(listed, data, path, Ok::<Vec<u8>, ImportError>(v)) && mesh_refused(v@, e)
        },
    }
}

/// The `projet` element of the `Scene` element `s`, when `s` also has `donnees`.
pub open spec fn project_of(t: Seq<XmlNode>, s: usize) -> Option<(usize, usize)> {
    match first_match(t, element_order(t, s as int), "donnees"@, None) {
        None => None,
        Some(d) => match first_match(t, element_order(t, s as int), "projet"@, None) {
            None => None,
            Some(pe) => Some((d, pe)),
        },
    }
}

/// What reading the scene of the read tree `pt` gives: its root's `Scene` element, with
/// `donnees` and `projet` ([`ImportError::Invalid`] when one is missing), the scene mesh the
/// project names ([`mesh_name_of`]; a name that is not a plain file name is
/// [`ImportError::Invalid`]), then [`mesh_outcome`].
pub open spec fn scene_outcome<'a>(pt: ProjectTree<'a>, r: Result<ProjectScene<'a>, ImportError>) -> bool {
    let t = pt.tree.nodes@;
    match first_match(t, element_order(t, pt.root as int), "Scene"@, None) {
        None => r matches Err(e) && is_invalid(e, FMT_XML),
        Some(s) => match project_of(t, s) {
            None => r matches Err(e) && is_invalid(e, FMT_XML),
            Some((d, pe)) => {
                let name = mesh_name_of(t, pe as int);
                if !is_plain_file_name(vstd::utf8::encode_utf8(name)) {
                    r matches Err(e) && is_invalid(e, FMT_XML)
                } else {
                    mesh_outcome(pt, s, d, pe, name, r)
                }
            },
        },
    }
}

/// The bytes of the file `name` of the project folder `folder`: a plain file name
/// ([`ImportError::Invalid`] otherwise), read from the archive ([`read_result`]).
fn read_in_folder(archive: &Archive<'_>, folder: &str, name: &str) -> (r: Result<Vec<u8>, ImportError>)
    ensures
        if !is_plain_file_name(name.spec_bytes()) {
            r matches Err(e) && is_invalid(e, FMT_XML)
        } else {
            read_result(archive.listed(), archive.data(), folder@ + name@, r)
        },
{
    let file = match plain_file_name(name) {
        Ok(f) => f,
        Err(e) => {
            return Err(e);
        },
    };
    let full = message_str(folder, file, "");
    proof {
        reveal_strlit("");
        assert(full@ =~= folder@ + name@);
    }
    archive.read(full.as_str())
}

/// The scene of a read element tree ([`scene_outcome`]).
#[verifier::rlimit(40)]
fn scene_of_tree<'a>(pt: ProjectTree<'a>) -> (r: Result<ProjectScene<'a>, ImportError>)
    requires
        projet_root(pt.tree.nodes@),
        root_element(pt.tree.nodes@) == Some(pt.root),
    ensures
        scene_outcome(pt, r),
{
    let ghost t = pt.tree.nodes@;
    let root = pt.root;
    let scene = match child(&pt.tree, root, "Scene") {
        Ok(c) => c,
        Err(e) => {
            return Err(e);
        },
    };
    let data = match child(&pt.tree, scene, "donnees") {
        Ok(c) => c,
        Err(e) => {
            return Err(e);
        },
    };
    let project = match child(&pt.tree, scene, "projet") {
        Ok(c) => c,
        Err(e) => {
            return Err(e);
        },
    };
    assert(project_of(t, scene) == Some((data, project)));
    let name = mesh_name(&pt.tree, project);
    let name_str = name.as_str();
    assert(name_str.spec_bytes() == vstd::utf8::encode_utf8(name@));
    let got = read_in_folder(&pt.archive, pt.folder.as_str(), name_str);
    let mesh_bytes = match got {
        Ok(v) => v,
        Err(e) => {
            return Err(e);
        },
    };
    let mesh = match read_scene_mesh(mesh_bytes.as_slice()) {
        Ok(m) => m,
        Err(e) => {
            proof {
                assert(read_result(pt.archive.listed(), pt.archive.data(), pt.folder@ + name@, Ok::<Vec<u8>, ImportError>(mesh_bytes)));
            }
            return Err(e);
        },
    };
    let (faces, group_start) = scene_faces(&mesh);
    if faces.len() == 0 {
        proof {
            let (major, minor, w) = spec_scene_mesh(mesh_bytes@)->Ok_0;
            lemma_walk_faces(mesh, major, minor, w, w.groups.len() as int);
            assert(read_result(pt.archive.listed(), pt.archive.data(), pt.folder@ + name@, Ok::<Vec<u8>, ImportError>(mesh_bytes)));
        }
        return Err(ImportError::Empty { format: FMT_MESH });
    }
    Ok(ProjectScene { tree: pt, scene, data, project, mesh_name: name, mesh_bytes, mesh, faces, group_start })
}

/// Reads a project's scene: its element tree ([`project_tree`], [`tree_outcome`] of the archive
/// the bytes hold), then the scene of that tree ([`scene_outcome`]).
pub fn project_scene<'a>(bytes: &'a [u8], projet_config: Option<&[u8]>) -> (r: Result<ProjectScene<'a>, ImportError>)
    ensures
        match spec_directory(bytes@) {
            Err(f) => r matches Err(e) && is_fault(e, f),
            Ok(_) => exists|a: Archive<'a>|
                #[trigger] parsed_from(a, bytes@) && match r {
                    Err(e) => tree_outcome(a, given(projet_config), Err::<ProjectTree<'a>, ImportError>(e)) || exists|pt: ProjectTree<'a>|
                        #[trigger] tree_outcome(a, given(projet_config), Ok::<ProjectTree<'a>, ImportError>(pt)) && scene_outcome(pt, r),
                    Ok(p) => tree_outcome(a, given(projet_config), Ok::<ProjectTree<'a>, ImportError>(p.tree)) && scene_outcome(p.tree, r),
                },
        },
{
    let pt = project_tree(bytes, projet_config);
    match pt {
        Err(e) => Err(e),
        Ok(pt) => {
            let ghost pt0 = pt;
            let r = scene_of_tree(pt);
            proof {
                if r is Ok {
                    assert(r->Ok_0.tree == pt0);
                }
            }
            r
        },
    }
}

} // verus!
