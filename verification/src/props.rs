//! An element's type, id and properties (`<p name="...">` children) in a project's element tree,
//! read as I-Simpa's loader reads them, and what the import takes from them on its own: the
//! project's name and description, and the sources of the source list through any nesting of
//! source groups.
use crate::chars::{chars_of, parse_int, parse_int_of, string_of, trim, trim_of};
use crate::import::{is_invalid, ImportError};
use crate::proj::FMT_XML;
use crate::text::{dec, push_u64};
use crate::xml::{attr_of, attribute, element_kids, element_order, find_child, first_match, lemma_first_match_in, XmlNode, XmlTree};
use vstd::prelude::*;

verus! {

/// The code of a project refused for a child of the source list, or of a source group, that is
/// neither a source nor a source group: upstream's GUI would skip it silently.
pub const SOURCE_GROUP_MALFORMED: &'static str = "proj_source_group_malformed";

/// The element type of a source group (and of the source list).
pub const EID_SOURCES: i64 = 15;

/// The element type of a source.
pub const EID_SOURCE: i64 = 16;

/// Attribute `name` of `n`, trimmed and read as an integer (`str::trim`, then
/// `str::parse::<i64>`).
pub open spec fn int_attr(n: XmlNode, name: Seq<char>) -> Option<i64> {
    match attr_of(n, name) {
        Some(v) => parse_int(trim(v@)),
        None => None,
    }
}

/// [`int_attr`].
fn int_attr_of(n: &XmlNode, name: &str) -> (r: Option<i64>)
    ensures
        r == int_attr(*n, name@),
{
    match attribute(n, name) {
        Some(v) => {
            let cs = chars_of(v.as_str());
            parse_int_of(trim_of(cs.as_slice()))
        },
        None => None,
    }
}

/// An element's type in upstream's GUI, its `eid` ([`int_attr`]).
pub fn element_type(n: &XmlNode) -> (r: Option<i64>)
    ensures
        r == int_attr(*n, "eid"@),
{
    int_attr_of(n, "eid")
}

/// An element's id in upstream's GUI, its `wxid` ([`int_attr`]).
pub fn element_id(n: &XmlNode) -> (r: Option<i64>)
    ensures
        r == int_attr(*n, "wxid"@),
{
    int_attr_of(n, "wxid")
}

/// Node `i`'s property `name`: its first element child, in load order, that is a `<p>` with that
/// `name`.
pub open spec fn spec_prop(t: Seq<XmlNode>, i: int, name: Seq<char>) -> Option<usize> {
    first_match(t, element_order(t, i), "p"@, Some(name))
}

/// Node `i`'s property `name` ([`spec_prop`]).
pub fn prop(tree: &XmlTree, i: usize, name: &str) -> (r: Option<usize>)
    requires
        i < tree.nodes@.len(),
    ensures
        r == spec_prop(tree.nodes@, i as int, name@),
        r matches Some(p) ==> p < tree.nodes@.len(),
{
    let r = find_child(tree, i, "p", Some(name));
    proof {
        lemma_first_match_in(tree.nodes@, element_order(tree.nodes@, i as int), "p"@, Some(name@));
    }
    r
}

/// The `textValue` of node `i`'s property `name`, if it has both.
pub open spec fn prop_text(t: Seq<XmlNode>, i: int, name: Seq<char>) -> Option<String> {
    match spec_prop(t, i, name) {
        Some(p) => attr_of(t[p as int], "textValue"@),
        None => None,
    }
}

/// [`prop_text`].
pub fn opt_prop_text(tree: &XmlTree, i: usize, name: &str) -> (r: Option<String>)
    requires
        i < tree.nodes@.len(),
    ensures
        r == prop_text(tree.nodes@, i as int, name@),
{
    match prop(tree, i, name) {
        Some(p) => attribute(&tree.nodes[p], "textValue"),
        None => None,
    }
}

/// The chosen id of node `i`'s list property `name`: none without the property; otherwise its
/// `choice`, trimmed and read as an integer, and a fault (`Err`) when it has none or it is not
/// one.
pub open spec fn prop_choice(t: Seq<XmlNode>, i: int, name: Seq<char>) -> Result<Option<i64>, ()> {
    match spec_prop(t, i, name) {
        None => Ok(None),
        Some(p) => match int_attr(t[p as int], "choice"@) {
            Some(v) => Ok(Some(v)),
            None => Err(()),
        },
    }
}

/// [`prop_choice`], a fault being an invalid element tree.
pub fn opt_prop_choice(tree: &XmlTree, i: usize, name: &str) -> (r: Result<Option<i64>, ImportError>)
    requires
        i < tree.nodes@.len(),
    ensures
        match (r, prop_choice(tree.nodes@, i as int, name@)) {
            (Ok(a), Ok(b)) => a == b,
            (Err(e), Err(_)) => is_invalid(e, FMT_XML),
            _ => false,
        },
{
    match prop(tree, i, name) {
        None => Ok(None),
        Some(p) => match int_attr_of(&tree.nodes[p], "choice") {
            Some(v) => Ok(Some(v)),
            None => Err(ImportError::invalid(FMT_XML, crate::text::message_str("property `", name, "` has no integer choice"))),
        },
    }
}

// ---------------------------------------------------------------------------------------------
// The project's name and description
// ---------------------------------------------------------------------------------------------
/// The first of `s` that is a `Configuration` element with a `projectname` property.
pub open spec fn first_configuration(t: Seq<XmlNode>, s: Seq<usize>) -> Option<usize>
    decreases s.len(),
{
    if s.len() == 0 {
        None
    } else if s[0] < t.len() && t[s[0] as int].tag@ == "Configuration"@ && spec_prop(t, s[0] as int, "projectname"@)
        is Some {
        Some(s[0])
    } else {
        first_configuration(t, s.drop_first())
    }
}

proof fn lemma_configuration_in(t: Seq<XmlNode>, s: Seq<usize>)
    ensures
        first_configuration(t, s) matches Some(c) ==> c < t.len(),
    decreases s.len(),
{
    if s.len() > 0 {
        lemma_configuration_in(t, s.drop_first());
    }
}

/// The trimmed `textValue` of property `name` of the project's configuration `info`; empty
/// without one.
pub open spec fn info_text(t: Seq<XmlNode>, info: Option<usize>, name: Seq<char>) -> Seq<char> {
    match info {
        Some(c) => match prop_text(t, c as int, name) {
            Some(v) => trim(v@),
            None => seq![],
        },
        None => seq![],
    }
}

/// The description of a project that has none: where it came from, with its face and surface
/// group counts.
pub open spec fn default_description(faces: nat, groups: nat) -> Seq<char> {
    "Imported from an upstream I-Simpa project ("@ + dec(faces) + " faces, "@ + dec(groups) + " surface groups)."@
}

/// [`info_text`].
fn info_text_of(tree: &XmlTree, info: Option<usize>, name: &str) -> (r: String)
    requires
        info matches Some(c) ==> c < tree.nodes@.len(),
    ensures
        r@ == info_text(tree.nodes@, info, name@),
{
    match info {
        Some(c) => match opt_prop_text(tree, c, name) {
            Some(v) => {
                let cs = chars_of(v.as_str());
                string_of(trim_of(cs.as_slice()))
            },
            None => String::new(),
        },
        None => String::new(),
    }
}

/// The project's name and description: the trimmed `textValue`s of the `projectname` and
/// `projectdesc` properties of the first `Configuration` child of the project element `pe`, in
/// load order, that has a `projectname` ([`first_configuration`]). An empty or missing name reads
/// as `Imported project`; an empty or missing description as one giving the project's `faces`
/// and surface `groups` counts ([`default_description`]).
pub fn project_text(tree: &XmlTree, pe: usize, faces: u64, groups: u64) -> (r: (String, String))
    requires
        pe < tree.nodes@.len(),
    ensures
        ({
            let info = first_configuration(tree.nodes@, element_order(tree.nodes@, pe as int));
            let name = info_text(tree.nodes@, info, "projectname"@);
            let desc = info_text(tree.nodes@, info, "projectdesc"@);
            &&& r.0@ == if name.len() == 0 {
                "Imported project"@
            } else {
                name
            }
            &&& r.1@ == if desc.len() == 0 {
                default_description(faces as nat, groups as nat)
            } else {
                desc
            }
        }),
{
    let ghost t = tree.nodes@;
    let ks = element_kids(tree, pe);
    let mut info: Option<usize> = None;
    let mut k: usize = 0;
    assert(ks@.skip(0) =~= ks@);
    while k < ks.len()
        invariant_except_break
            info is None,
            first_configuration(t, ks@) == first_configuration(t, ks@.skip(k as int)),
        invariant
            ks@ == element_order(t, pe as int),
            t == tree.nodes@,
            k <= ks@.len(),
        ensures
            info == first_configuration(t, ks@),
        decreases ks@.len() - k,
    {
        let c = ks[k];
        assert(ks@.skip(k as int)[0] == c);
        assert(ks@.skip(k as int).drop_first() =~= ks@.skip(k + 1));
        if c < tree.nodes.len() && crate::import::str_eq(tree.nodes[c].tag.as_str(), "Configuration") {
            if prop(tree, c, "projectname").is_some() {
                info = Some(c);
                break;
            }
        }
        k = k + 1;
    }
    proof {
        lemma_configuration_in(t, ks@);
    }
    let name = info_text_of(tree, info, "projectname");
    let desc = info_text_of(tree, info, "projectdesc");
    proof {
        reveal_strlit("Imported project");
        reveal_strlit("");
        assert(name@.len() == 0 ==> name@ =~= ""@);
        assert(desc@.len() == 0 ==> desc@ =~= ""@);
    }
    let name = if crate::import::str_eq(name.as_str(), "") {
        let mut n = String::new();
        n.append("Imported project");
        assert(n@ =~= "Imported project"@);
        n
    } else {
        name
    };
    let desc = if crate::import::str_eq(desc.as_str(), "") {
        let mut d = String::new();
        d.append("Imported from an upstream I-Simpa project (");
        push_u64(&mut d, faces);
        d.append(" faces, ");
        push_u64(&mut d, groups);
        d.append(" surface groups).");
        assert(d@ =~= default_description(faces as nat, groups as nat));
        d
    } else {
        desc
    };
    (name, desc)
}

// ---------------------------------------------------------------------------------------------
// Sources and source groups
// ---------------------------------------------------------------------------------------------
/// An element's `name`, empty without one.
pub open spec fn name_of(n: XmlNode) -> Seq<char> {
    match attr_of(n, "name"@) {
        Some(v) => v@,
        None => seq![],
    }
}

/// The path of a group named `name` inside the group path `group` (empty at the top level).
pub open spec fn group_path(group: Seq<char>, name: Seq<char>) -> Seq<char> {
    if group.len() == 0 {
        name
    } else {
        group + " / "@ + name
    }
}

/// What a walk found so far followed by what the rest gives.
pub open spec fn then(a: Seq<(usize, Seq<char>)>, rest: Result<Seq<(usize, Seq<char>)>, usize>) -> Result<
    Seq<(usize, Seq<char>)>,
    usize,
> {
    match rest {
        Ok(b) => Ok(a + b),
        Err(e) => Err(e),
    }
}

/// The sources among the elements `kids`, in their order, of the source list or of a source
/// group at path `group`, each with the path of the groups it sits in: a source (type 16) is
/// itself, a source group (type 15) gives its element children's sources in load order, its
/// path extended by its name ([`group_path`]); any other element is refused, the first in this
/// order (`Err` with its node). `depth` bounds the nesting followed; the walk of a tree is given
/// its size, which no nesting reaches.
pub open spec fn sources_in(t: Seq<XmlNode>, kids: Seq<usize>, group: Seq<char>, depth: nat) -> Result<
    Seq<(usize, Seq<char>)>,
    usize,
>
    decreases depth, kids.len(),
{
    if kids.len() == 0 {
        Ok(seq![])
    } else {
        let c = kids[0];
        let here: Result<Seq<(usize, Seq<char>)>, usize> = if c >= t.len() {
            Err(c)
        } else if int_attr(t[c as int], "eid"@) == Some(EID_SOURCE) {
            Ok(seq![(c, group)])
        } else if int_attr(t[c as int], "eid"@) == Some(EID_SOURCES) {
            if depth == 0 {
                Ok(seq![])
            } else {
                sources_in(t, element_order(t, c as int), group_path(group, name_of(t[c as int])), (depth - 1) as nat)
            }
        } else {
            Err(c)
        };
        match here {
            Err(e) => Err(e),
            Ok(a) => then(a, sources_in(t, kids.drop_first(), group, depth)),
        }
    }
}

/// A list of nodes with their group paths, as values.
pub open spec fn paths_view(s: Seq<(usize, String)>) -> Seq<(usize, Seq<char>)> {
    s.map_values(|x: (usize, String)| (x.0, x.1@))
}

/// `e` refuses a source list or group holding what is neither a source nor a group.
pub open spec fn malformed_source(e: ImportError) -> bool {
    e matches ImportError::Refused { format, reason, .. } && format@ == FMT_XML@ && reason@ == SOURCE_GROUP_MALFORMED@
}

pub(crate) proof fn lemma_elements_in(t: Seq<XmlNode>, s: Seq<usize>)
    ensures
        forall|k: int| 0 <= k < crate::xml::elements_in(t, s).len() ==> #[trigger] crate::xml::elements_in(t, s)[k] < t.len(),
    decreases s.len(),
{
    if s.len() > 0 {
        lemma_elements_in(t, s.drop_last());
        let before = crate::xml::elements_in(t, s.drop_last());
        assert forall|k: int| 0 <= k < crate::xml::elements_in(t, s).len() implies #[trigger] crate::xml::elements_in(
            t,
            s,
        )[k] < t.len() by {
            if k < before.len() {
                assert(crate::xml::elements_in(t, s)[k] == before[k]);
            }
        }
    }
}

proof fn lemma_then_assoc(acc: Seq<(usize, Seq<char>)>, a: Seq<(usize, Seq<char>)>, x: Result<Seq<(usize, Seq<char>)>, usize>)
    ensures
        then(acc, then(a, x)) == then(acc + a, x),
{
    if let Ok(b) = x {
        assert((acc + a) + b =~= acc + (a + b));
    }
}

/// The sources of `kids` ([`sources_in`]), appended to `out`.
fn walk_sources(
    tree: &XmlTree,
    kids: &Vec<usize>,
    group: &Vec<char>,
    depth: usize,
    out: &mut Vec<(usize, String)>,
) -> (r: Result<(), ImportError>)
    requires
        forall|k: int| 0 <= k < kids@.len() ==> #[trigger] kids@[k] < tree.nodes@.len(),
    ensures
        match sources_in(tree.nodes@, kids@, group@, depth as nat) {
            Ok(s) => r is Ok && paths_view(final(out)@) == paths_view(old(out)@) + s,
            Err(_) => r matches Err(e) && malformed_source(e),
        },
    decreases depth,
{
    let ghost t = tree.nodes@;
    let ghost start = paths_view(out@);
    let ghost mut acc: Seq<(usize, Seq<char>)> = seq![];
    let mut k: usize = 0;
    assert(kids@.skip(0) =~= kids@);
    while k < kids.len()
        invariant
            t == tree.nodes@,
            forall|j: int| 0 <= j < kids@.len() ==> #[trigger] kids@[j] < t.len(),
            k <= kids@.len(),
            sources_in(t, kids@, group@, depth as nat) == then(acc, sources_in(t, kids@.skip(k as int), group@, depth as nat)),
            paths_view(out@) == start + acc,
        decreases kids@.len() - k,
    {
        let c = kids[k];
        let ghost acc0 = acc;
        let ghost mut a: Seq<(usize, Seq<char>)> = seq![];
        let ghost rest = kids@.skip(k as int);
        assert(rest[0] == c);
        assert(rest.drop_first() =~= kids@.skip(k + 1));
        let ty = element_type(&tree.nodes[c]);
        if ty == Some(EID_SOURCE) {
            let ghost before = out@;
            let name = string_of(group.as_slice());
            out.push((c, name));
            proof {
                assert(paths_view(out@) =~= paths_view(before) + seq![(c, group@)]);
                a = seq![(c, group@)];
                acc = acc + a;
                assert(paths_view(out@) =~= start + acc);
            }
        } else if ty == Some(EID_SOURCES) {
            if depth > 0 {
                let name: Vec<char> = match attribute(&tree.nodes[c], "name") {
                    Some(v) => chars_of(v.as_str()),
                    None => Vec::new(),
                };
                let mut path: Vec<char> = Vec::new();
                let mut j: usize = 0;
                while j < group.len()
                    invariant
                        j <= group@.len(),
                        path@ == group@.subrange(0, j as int),
                    decreases group@.len() - j,
                {
                    path.push(group[j]);
                    j = j + 1;
                }
                if group.len() > 0 {
                    path.push(' ');
                    path.push('/');
                    path.push(' ');
                }
                let ghost mid = path@;
                let mut j: usize = 0;
                while j < name.len()
                    invariant
                        j <= name@.len(),
                        path@ == mid + name@.subrange(0, j as int),
                    decreases name@.len() - j,
                {
                    path.push(name[j]);
                    j = j + 1;
                }
                proof {
                    reveal_strlit(" / ");
                    assert(group@.subrange(0, group@.len() as int) =~= group@);
                    assert(name@.subrange(0, name@.len() as int) =~= name@);
                    assert(name@ == name_of(t[c as int]));
                    assert(path@ =~= group_path(group@, name_of(t[c as int])));
                }
                let inner = element_kids(tree, c);
                proof {
                    lemma_elements_in(t, crate::xml::load_order(t, c as int));
                }
                let ghost before = paths_view(out@);
                match walk_sources(tree, &inner, &path, depth - 1, out) {
                    Ok(()) => {
                        proof {
                            let s = sources_in(t, inner@, path@, (depth - 1) as nat)->Ok_0;
                            a = s;
                            acc = acc + s;
                            assert(paths_view(out@) =~= start + acc);
                        }
                    },
                    Err(e) => {
                        proof {
                            assert(sources_in(t, rest, group@, depth as nat) is Err);
                        }
                        return Err(e);
                    },
                }
            } else {
                proof {
                    assert(acc + a =~= acc);
                }
            }
        } else {
            let mut m = String::new();
            proof {
                reveal_strlit("<");
                reveal_strlit("> is neither a source (16) nor a source group (15)");
            }
            m.append("<");
            m.append(tree.nodes[c].tag.as_str());
            m.append("> is neither a source (16) nor a source group (15)");
            proof {
                assert(sources_in(t, rest, group@, depth as nat) is Err);
            }
            return Err(ImportError::Refused { format: FMT_XML, reason: SOURCE_GROUP_MALFORMED, message: m });
        }
        proof {
            lemma_then_assoc(acc0, a, sources_in(t, kids@.skip(k + 1), group@, depth as nat));
            assert(sources_in(t, rest, group@, depth as nat) == then(a, sources_in(t, kids@.skip(k + 1), group@, depth as nat)));
        }
        k = k + 1;
    }
    proof {
        assert(kids@.skip(k as int).len() == 0);
        assert(acc + seq![] =~= acc);
        assert(paths_view(out@) =~= paths_view(old(out)@) + acc);
    }
    Ok(())
}

/// The sources of the source list `list` in upstream's load order, through any nesting of
/// source groups, each with the path of the groups it sits in, empty at the top level
/// ([`sources_in`]); a child that is neither a source nor a source group is refused.
pub fn source_elements(tree: &XmlTree, list: usize) -> (r: Result<Vec<(usize, String)>, ImportError>)
    requires
        list < tree.nodes@.len(),
    ensures
        match sources_in(tree.nodes@, element_order(tree.nodes@, list as int), seq![], tree.nodes@.len()) {
            Ok(s) => r matches Ok(v) && paths_view(v@) == s,
            Err(_) => r matches Err(e) && malformed_source(e),
        },
{
    let kids = element_kids(tree, list);
    proof {
        lemma_elements_in(tree.nodes@, crate::xml::load_order(tree.nodes@, list as int));
    }
    let mut out: Vec<(usize, String)> = Vec::new();
    let top: Vec<char> = Vec::new();
    assert(top@ =~= seq![]);
    match walk_sources(tree, &kids, &top, tree.nodes.len(), &mut out) {
        Ok(()) => {
            assert(paths_view(Seq::<(usize, String)>::empty()) =~= seq![]);
            Ok(out)
        },
        Err(e) => Err(e),
    }
}

} // verus!
