//! A project's element tree (`projet_config.xml`) as plain values, parsed by `roxmltree`, and
//! its children in the order I-Simpa's loader takes them.
use crate::order::{moves, own, run, settles_after, upstream_sort};
use roxmltree::Document;
use vstd::prelude::*;

verus! {

/// One node of a parsed document: whether it is an element or a comment, its tag name
/// (elements), its text's bytes (a text or comment node's own, an element's first text child's,
/// none for other nodes), its attributes in document order, and its children,
/// by their indices in [`XmlTree::nodes`].
pub struct XmlNode {
    pub element: bool,
    pub comment: bool,
    pub tag: String,
    pub text: Vec<u8>,
    pub attributes: Vec<(String, String)>,
    pub children: Vec<usize>,
}

/// A parsed document: its nodes in document order, the document node first.
pub struct XmlTree {
    pub nodes: Vec<XmlNode>,
}

/// Where and why a document does not parse: its row and column, and the parser's message.
pub struct XmlFault {
    pub row: u32,
    pub col: u32,
    pub message: String,
}

/// What `roxmltree` makes of a document's text.
pub uninterp spec fn xml_tree_of(text: Seq<char>) -> Result<XmlTree, XmlFault>;

/// `roxmltree::Document::parse`, its nodes (`descendants` of the document, in document order)
/// taken as [`XmlNode`]s with their children by node id, and its error as an [`XmlFault`]. The
/// result is a function of the text alone; nothing is stated of its shape.
#[verifier::external_body]
pub(crate) fn parse_xml(text: &str) -> (r: Result<XmlTree, XmlFault>)
    ensures
        r == xml_tree_of(text@),
{
    match Document::parse(text) {
        Ok(d) => Ok(XmlTree { nodes: d.descendants().map(|n| XmlNode {
            element: n.is_element(),
            comment: n.is_comment(),
            tag: n.tag_name().name().to_string(),
            text: n.text().unwrap_or_default().into(),
            attributes: n.attributes().map(|a| (a.name().to_string(), a.value().to_string())).collect(),
            children: n.children().map(|c| c.id().get_usize()).collect(),
        }).collect() }),
        Err(e) => Err(XmlFault { row: e.pos().row, col: e.pos().col, message: e.to_string() }),
    }
}

/// The document's text parsed ([`xml_tree_of`]).
pub fn parse(text: &str) -> (r: Result<XmlTree, XmlFault>)
    ensures
        r == xml_tree_of(text@),
{
    parse_xml(text)
}

/// Only spaces, tabs and line breaks.
pub open spec fn all_white(b: Seq<u8>) -> bool {
    forall|i: int| 0 <= i < b.len() ==> (b[i] == 32u8 || b[i] == 9u8 || b[i] == 10u8 || b[i] == 13u8)
}

/// A child the loader keeps: an element, a comment, or text that is not only white space.
pub open spec fn kept(n: XmlNode) -> bool {
    n.element || n.comment || !all_white(n.text@)
}


/// The value of the first attribute named `name` among the first `n` of `attrs`.
pub open spec fn attr_in(attrs: Seq<(String, String)>, name: Seq<char>, n: int) -> Option<String>
    decreases n,
{
    if n <= 0 {
        None
    } else {
        match attr_in(attrs, name, n - 1) {
            Some(v) => Some(v),
            None => if attrs[n - 1].0@ == name {
                Some(attrs[n - 1].1)
            } else {
                None
            },
        }
    }
}

/// The value of a node's attribute `name`, if it has one.
pub open spec fn attr_of(node: XmlNode, name: Seq<char>) -> Option<String> {
    attr_in(node.attributes@, name, node.attributes@.len() as int)
}

/// The value of `node`'s attribute `name` ([`attr_of`]).
pub fn attribute(node: &XmlNode, name: &str) -> (r: Option<String>)
    ensures
        r == attr_of(*node, name@),
{
    let mut k: usize = 0;
    while k < node.attributes.len()
        invariant
            k <= node.attributes@.len(),
            attr_in(node.attributes@, name@, k as int) is None,
        decreases node.attributes@.len() - k,
    {
        if crate::import::str_eq(node.attributes[k].0.as_str(), name) {
            let v = node.attributes[k].1.clone();
            proof {
                lemma_attr_found(node.attributes@, name@, k as int + 1, node.attributes@.len() as int);
            }
            return Some(v);
        }
        k = k + 1;
    }
    None
}

proof fn lemma_attr_found(attrs: Seq<(String, String)>, name: Seq<char>, k: int, n: int)
    requires
        1 <= k <= n,
        attr_in(attrs, name, k) is Some,
    ensures
        attr_in(attrs, name, n) == attr_in(attrs, name, k),
    decreases n - k,
{
    if n > k {
        lemma_attr_found(attrs, name, k, n - 1);
    }
}

/// The children among the first `n` of `ch` that the loader keeps ([`kept`]), each with its
/// `wxid` attribute, in document order; indices past the tree are not children.
pub open spec fn tagged_prefix(t: Seq<XmlNode>, ch: Seq<usize>, n: int) -> Seq<(Option<String>, usize)>
    decreases n,
{
    if n <= 0 {
        seq![]
    } else {
        let before = tagged_prefix(t, ch, n - 1);
        let c = ch[n - 1];
        if c < t.len() && kept(t[c as int]) {
            before.push((attr_of(t[c as int], "wxid"@), c))
        } else {
            before
        }
    }
}

/// Node `i`'s kept children with their `wxid`, in document order.
pub open spec fn tagged_kids(t: Seq<XmlNode>, i: int) -> Seq<(Option<String>, usize)> {
    tagged_prefix(t, t[i].children@, t[i].children@.len() as int)
}

/// The nodes of a tagged list, in its order.
pub open spec fn nodes_of(s: Seq<(Option<String>, usize)>) -> Seq<usize> {
    s.map_values(|p: (Option<String>, usize)| p.1)
}

/// Whether `b` holds only spaces, tabs and line breaks ([`all_white`]).
fn white(b: &Vec<u8>) -> (r: bool)
    ensures
        r == all_white(b@),
{
    let mut i: usize = 0;
    while i < b.len()
        invariant
            i <= b@.len(),
            forall|j: int| 0 <= j < i ==> (b@[j] == 32u8 || b@[j] == 9u8 || b@[j] == 10u8 || b@[j] == 13u8),
        decreases b@.len() - i,
    {
        let c = b[i];
        if !(c == 32u8 || c == 9u8 || c == 10u8 || c == 13u8) {
            return false;
        }
        i = i + 1;
    }
    true
}

/// [`kids`], the pass after which the sort settles left open.
fn sorted_kids(tree: &XmlTree, i: usize) -> (r: Vec<usize>)
    requires
        i < tree.nodes@.len(),
    ensures
        exists|k: nat|
            settles_after(tagged_kids(tree.nodes@, i as int), k) && r@ == nodes_of(
                (#[trigger] run(tagged_kids(tree.nodes@, i as int), k)).0,
            ),
{
    let ghost t = tree.nodes@;
    let node = &tree.nodes[i];
    let mut tagged: Vec<(Option<String>, usize)> = Vec::new();
    let mut j: usize = 0;
    while j < node.children.len()
        invariant
            t == tree.nodes@,
            *node == t[i as int],
            j <= node.children@.len(),
            tagged@ == tagged_prefix(t, node.children@, j as int),
        decreases node.children@.len() - j,
    {
        let c = node.children[j];
        if c < tree.nodes.len() {
            let child = &tree.nodes[c];
            let keep = child.element || child.comment || !white(&child.text);
            if keep {
                let w = attribute(child, "wxid");
                tagged.push((w, c));
            }
        }
        j = j + 1;
    }
    let ghost s0 = tagged@;
    assert(s0 == tagged_kids(t, i as int));
    upstream_sort(&mut tagged);
    let ghost k = choose|k: nat| settles_after(s0, k) && tagged@ == #[trigger] run(s0, k).0;
    let mut out: Vec<usize> = Vec::new();
    let mut m: usize = 0;
    while m < tagged.len()
        invariant
            m <= tagged@.len(),
            out@ == nodes_of(tagged@.take(m as int)),
        decreases tagged@.len() - m,
    {
        assert(tagged@.take(m + 1) =~= tagged@.take(m as int).push(tagged@[m as int]));
        out.push(tagged[m].1);
        m = m + 1;
    }
    assert(tagged@.take(tagged@.len() as int) =~= tagged@);
    assert(settles_after(s0, k) && out@ == nodes_of(run(s0, k).0));
    out
}

/// The elements among `s`, in its order.
pub open spec fn elements_in(t: Seq<XmlNode>, s: Seq<usize>) -> Seq<usize>
    decreases s.len(),
{
    if s.len() == 0 {
        seq![]
    } else {
        let before = elements_in(t, s.drop_last());
        let c = s.last();
        if c < t.len() && t[c as int].element {
            before.push(c)
        } else {
            before
        }
    }
}

/// The first of `s` whose tag is `name` and, when `p_name` is given, that is a property
/// (`<p>`) of that name.
pub open spec fn first_match(t: Seq<XmlNode>, s: Seq<usize>, tag: Seq<char>, p_name: Option<Seq<char>>) -> Option<
    usize,
>
    decreases s.len(),
{
    if s.len() == 0 {
        None
    } else {
        let c = s[0];
        if c < t.len() && t[c as int].tag@ == tag && match p_name {
            None => true,
            Some(n) => attr_of(t[c as int], "name"@) matches Some(v) && v@ == n,
        } {
            Some(c)
        } else {
            first_match(t, s.drop_first(), tag, p_name)
        }
    }
}

/// Node `i`'s element children in load order ([`kids`]).
fn sorted_element_kids(tree: &XmlTree, i: usize) -> (r: Vec<usize>)
    requires
        i < tree.nodes@.len(),
    ensures
        exists|k: nat|
            settles_after(tagged_kids(tree.nodes@, i as int), k) && r@ == elements_in(
                tree.nodes@,
                nodes_of((#[trigger] run(tagged_kids(tree.nodes@, i as int), k)).0),
            ),
{
    let all = sorted_kids(tree, i);
    let mut out: Vec<usize> = Vec::new();
    let mut m: usize = 0;
    while m < all.len()
        invariant
            m <= all@.len(),
            out@ == elements_in(tree.nodes@, all@.take(m as int)),
        decreases all@.len() - m,
    {
        assert(all@.take(m + 1).drop_last() =~= all@.take(m as int));
        let c = all[m];
        if c < tree.nodes.len() && tree.nodes[c].element {
            out.push(c);
        }
        m = m + 1;
    }
    assert(all@.take(all@.len() as int) =~= all@);
    out
}

/// The first element child of node `i`, in load order, with this tag, and, when `p_name` is
/// given, whose `name` attribute is `p_name`.
fn sorted_child(tree: &XmlTree, i: usize, tag: &str, p_name: Option<&str>) -> (r: Option<usize>)
    requires
        i < tree.nodes@.len(),
    ensures
        exists|k: nat|
            settles_after(tagged_kids(tree.nodes@, i as int), k) && r == first_match(
                tree.nodes@,
                elements_in(tree.nodes@, nodes_of((#[trigger] run(tagged_kids(tree.nodes@, i as int), k)).0)),
                tag@,
                match p_name {
                    None => None,
                    Some(n) => Some(n@),
                },
            ),
{
    let els = sorted_element_kids(tree, i);
    let ghost t = tree.nodes@;
    let ghost ks = tagged_kids(t, i as int);
    let ghost k = choose|k: nat| settles_after(ks, k) && els@ == elements_in(t, nodes_of(#[trigger] run(ks, k).0));
    let ghost pn: Option<Seq<char>> = match p_name {
        None => None,
        Some(n) => Some(n@),
    };
    let mut m: usize = 0;
    assert(els@.skip(0) =~= els@);
    while m < els.len()
        invariant
            m <= els@.len(),
            t == tree.nodes@,
            ks == tagged_kids(t, i as int),
            settles_after(ks, k) && els@ == elements_in(t, nodes_of(run(ks, k).0)),
            pn == (match p_name {
                None => None,
                Some(n) => Some(n@),
            }),
            first_match(t, els@, tag@, pn) == first_match(t, els@.skip(m as int), tag@, pn),
        decreases els@.len() - m,
    {
        let c = els[m];
        let ghost rest = els@.skip(m as int);
        assert(rest[0] == c);
        assert(rest.drop_first() =~= els@.skip(m + 1));
        if c < tree.nodes.len() {
            let node = &tree.nodes[c];
            let mut hit = crate::import::str_eq(node.tag.as_str(), tag);
            if hit {
                match p_name {
                    None => {},
                    Some(n) => {
                        let a = attribute(node, "name");
                        assert(a == attr_of(t[c as int], "name"@));
                        hit = match a {
                            Some(v) => crate::import::str_eq(v.as_str(), n),
                            None => false,
                        };
                        assert(hit ==> (attr_of(t[c as int], "name"@) matches Some(v) && v@ == n@));
                    },
                }
            }
            if hit {
                assert(*node == t[c as int]);
                assert(t[c as int].tag@ == tag@);
                assert(match pn {
                    None => true,
                    Some(n) => attr_of(t[c as int], "name"@) matches Some(v) && v@ == n,
                });
                assert(first_match(t, rest, tag@, pn) == Some(c));
                assert(settles_after(ks, k) && Some(c) == first_match(t, elements_in(t, nodes_of(run(ks, k).0)), tag@, pn));
                return Some(c);
            }
        }
        m = m + 1;
    }
    assert(els@.skip(els@.len() as int).len() == 0);
    assert(settles_after(ks, k) && None::<usize> == first_match(t, elements_in(t, nodes_of(run(ks, k).0)), tag@, pn));
    None
}


/// The pass after which the re-ordering of `s` settles (there is exactly one:
/// [`lemma_settles_once`]; [`upstream_sort`] reaches it).
pub open spec fn settle(s: Seq<(Option<String>, usize)>) -> nat {
    choose|k: nat| settles_after(s, k)
}

/// The re-ordering settles after one pass only.
pub proof fn lemma_settles_once(s: Seq<(Option<String>, usize)>, k1: nat, k2: nat)
    requires
        settles_after(s, k1),
        settles_after(s, k2),
    ensures
        k1 == k2,
{
    if k1 < k2 {
        assert(moves(run(s, k1).0, run(s, k1).1));
    } else if k2 < k1 {
        assert(moves(run(s, k2).0, run(s, k2).1));
    }
}

/// Node `i`'s kept children in load order.
pub open spec fn load_order(t: Seq<XmlNode>, i: int) -> Seq<usize> {
    nodes_of(run(tagged_kids(t, i), settle(tagged_kids(t, i))).0)
}

/// Node `i`'s element children in load order.
pub open spec fn element_order(t: Seq<XmlNode>, i: int) -> Seq<usize> {
    elements_in(t, load_order(t, i))
}

/// The children of node `i` that I-Simpa's loader keeps (elements, comments, text that is not
/// only white space), in its load order ([`load_order`]): re-ordered by their `wxid` as
/// [`upstream_sort`] re-orders them.
pub fn kids(tree: &XmlTree, i: usize) -> (r: Vec<usize>)
    requires
        i < tree.nodes@.len(),
    ensures
        r@ == load_order(tree.nodes@, i as int),
{
    let r = sorted_kids(tree, i);
    proof {
        let s = tagged_kids(tree.nodes@, i as int);
        let k = choose|k: nat| settles_after(s, k) && r@ == nodes_of(#[trigger] run(s, k).0);
        lemma_settles_once(s, k, settle(s));
    }
    r
}

/// The first element child of node `i` in load order with this tag (and, when `p_name` is
/// given, this `name` attribute) ([`first_match`] over [`element_order`]).
pub fn find_child(tree: &XmlTree, i: usize, tag: &str, p_name: Option<&str>) -> (r: Option<usize>)
    requires
        i < tree.nodes@.len(),
    ensures
        r == first_match(
            tree.nodes@,
            element_order(tree.nodes@, i as int),
            tag@,
            match p_name {
                None => None,
                Some(n) => Some(n@),
            },
        ),
{
    let r = sorted_child(tree, i, tag, p_name);
    proof {
        let s = tagged_kids(tree.nodes@, i as int);
        let pn: Option<Seq<char>> = match p_name {
            None => None,
            Some(n) => Some(n@),
        };
        let k = choose|k: nat|
            settles_after(s, k) && r == first_match(tree.nodes@, elements_in(tree.nodes@, nodes_of(#[trigger] run(s, k).0)), tag@, pn);
        lemma_settles_once(s, k, settle(s));
    }
    r
}

/// Node `i`'s element children in load order ([`element_order`]).
pub fn element_kids(tree: &XmlTree, i: usize) -> (r: Vec<usize>)
    requires
        i < tree.nodes@.len(),
    ensures
        r@ == element_order(tree.nodes@, i as int),
{
    let r = sorted_element_kids(tree, i);
    proof {
        let s = tagged_kids(tree.nodes@, i as int);
        let k = choose|k: nat| settles_after(s, k) && r@ == elements_in(tree.nodes@, nodes_of(#[trigger] run(s, k).0));
        lemma_settles_once(s, k, settle(s));
    }
    r
}

/// What [`first_match`] finds is a node of the tree, with that tag.
pub proof fn lemma_first_match_in(t: Seq<XmlNode>, s: Seq<usize>, tag: Seq<char>, p: Option<Seq<char>>)
    ensures
        first_match(t, s, tag, p) matches Some(c) ==> c < t.len() && t[c as int].tag@ == tag,
    decreases s.len(),
{
    if s.len() > 0 {
        lemma_first_match_in(t, s.drop_first(), tag, p);
    }
}
} // verus!
