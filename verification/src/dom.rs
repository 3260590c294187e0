//! The parsed-markup model: a node arena in document order, each node holding
//! a link to its parent and either an element (name and attributes), a text
//! fragment, or a comment. The structure-extraction heuristics read this
//! model; the arena itself comes from the markup parser.
use crate::chars;
use vstd::prelude::*;

verus! {

/// Payload of one parsed node.
#[derive(Debug)]
pub enum NodeData {
    Element { name: String, attrs: Vec<(String, String)> },
    Text { text: String },
    Comment,
}

/// One parsed node: the index of its parent (absent for a root) and its
/// payload. Nodes are kept in document order, parents before children.
#[derive(Debug)]
pub struct RawNode {
    pub parent: Option<usize>,
    pub data: NodeData,
}

/// Mathematical model of a node payload.
pub enum NodeDataModel {
    Element { name: Seq<char>, attrs: Seq<(Seq<char>, Seq<char>)> },
    Text { text: Seq<char> },
    Comment,
}

/// Mathematical model of a node.
pub struct NodeModel {
    pub parent: Option<usize>,
    pub data: NodeDataModel,
}

impl DeepView for RawNode {
    type V = NodeModel;

    open spec fn deep_view(&self) -> NodeModel {
        NodeModel {
            parent: self.parent,
            data: match self.data {
                NodeData::Element { name, attrs } => NodeDataModel::Element {
                    name: name@,
                    attrs: attrs.deep_view(),
                },
                NodeData::Text { text } => NodeDataModel::Text { text: text@ },
                NodeData::Comment => NodeDataModel::Comment,
            },
        }
    }
}

/// What the markup parser yields for a given document: its node arena in
/// document order.
pub uninterp spec fn dom_of(html: Seq<char>) -> Seq<NodeModel>;

/// Relies on select::document::Document::from(&str): html5ever's parse of the
/// markup into a node arena in document order; each arena entry keeps its
/// parent link and its element name and attributes, its text, or a comment.
/// The markup is copied into a tendril, whose buffer holds at most
/// u32::MAX bytes, so a longer body is excluded here.
#[verifier::external_body]
fn parse_nodes(html: &str) -> (r: Vec<RawNode>)
    requires
        vstd::utf8::encode_utf8(html@).len() <= u32::MAX,
    ensures
        r.deep_view() == dom_of(html@),
{
    select::document::Document::from(html).nodes.into_iter().map(|n| RawNode {
        parent: n.parent,
        data: match n.data {
            select::node::Data::Element(name, attrs) => NodeData::Element {
                name: name.local.to_string(),
                attrs: attrs.into_iter().map(|(k, v)| (k.local.to_string(), v.to_string())).collect(),
            },
            select::node::Data::Text(t) => NodeData::Text { text: t.to_string() },
            select::node::Data::Comment(_) => NodeData::Comment,
        },
    }).collect()
}

/// Every parent link points at an earlier node: parents stand before their
/// children in the arena.
pub open spec fn wf_nodes(d: Seq<NodeModel>) -> bool {
    forall|i: int|
        0 <= i < d.len() ==> match #[trigger] d[i].parent {
            Some(p) => p < i,
            None => true,
        }
}

/// Node `i` is an element named `name`.
pub open spec fn is_elem(d: Seq<NodeModel>, i: int, name: Seq<char>) -> bool {
    0 <= i < d.len() && (d[i].data matches NodeDataModel::Element { name: n, .. } && n
        == name)
}

/// Node `i` is a text node.
pub open spec fn is_text(d: Seq<NodeModel>, i: int) -> bool {
    0 <= i < d.len() && d[i].data matches NodeDataModel::Text { .. }
}

/// The text of node `i` (empty for non-text nodes).
pub open spec fn text_of(d: Seq<NodeModel>, i: int) -> Seq<char> {
    match d[i].data {
        NodeDataModel::Text { text } => text,
        _ => Seq::empty(),
    }
}

/// Node `j` is a direct child of node `i`.
pub open spec fn child_of(d: Seq<NodeModel>, i: int, j: int) -> bool {
    0 <= j < d.len() && (d[j].parent matches Some(p) && p == i)
}

/// Node `i` is a (proper) ancestor of node `j`.
pub open spec fn has_ancestor(d: Seq<NodeModel>, i: int, j: int) -> bool
    decreases j,
{
    if 0 <= j < d.len() {
        match d[j].parent {
            Some(p) => p == i || (0 <= p < j && has_ancestor(d, i, p as int)),
            None => false,
        }
    } else {
        false
    }
}

/// The value of the first attribute named `name` on the attribute list.
pub open spec fn attr_lookup(attrs: Seq<(Seq<char>, Seq<char>)>, name: Seq<char>) -> Option<
    Seq<char>,
>
    decreases attrs.len(),
{
    if attrs.len() == 0 {
        None
    } else if attrs[0].0 == name {
        Some(attrs[0].1)
    } else {
        attr_lookup(attrs.drop_first(), name)
    }
}

/// The value of attribute `name` on node `i`, if `i` is an element carrying it.
pub open spec fn attr_of(d: Seq<NodeModel>, i: int, name: Seq<char>) -> Option<Seq<char>> {
    match d[i].data {
        NodeDataModel::Element { name: _, attrs } => attr_lookup(attrs, name),
        _ => None,
    }
}

/// A fresh copy of an attribute list.
fn copy_attrs(a: &Vec<(String, String)>) -> (r: Vec<(String, String)>)
    ensures
        r.deep_view() == a.deep_view(),
{
    let n: usize = a.len();
    proof {
        assert(a.deep_view().len() == n);
    }
    let mut r: Vec<(String, String)> = Vec::new();
    let mut i: usize = 0;
    while i < n
        invariant
            n == a@.len(),
            a.deep_view().len() == n,
            0 <= i <= n,
            r.deep_view() =~= a.deep_view().take(i as int),
        decreases n - i,
    {
        let pair: (String, String) = (a[i].0.clone(), a[i].1.clone());
        let ghost prev = r.deep_view();
        proof {
            assert(a.deep_view()[i as int] == a@[i as int].deep_view());
            assert(pair.deep_view() == a@[i as int].deep_view());
        }
        r.push(pair);
        proof {
            assert(r.deep_view() =~= prev.push(a.deep_view()[i as int]));
        }
        i += 1;
    }
    proof {
        assert(a.deep_view().take(n as int) =~= a.deep_view());
    }
    r
}

/// A fresh copy of a node.
fn copy_node(n: &RawNode) -> (r: RawNode)
    ensures
        r.deep_view() == n.deep_view(),
{
    RawNode {
        parent: n.parent,
        data: match &n.data {
            NodeData::Element { name, attrs } => NodeData::Element {
                name: name.clone(),
                attrs: copy_attrs(attrs),
            },
            NodeData::Text { text } => NodeData::Text { text: text.clone() },
            NodeData::Comment => NodeData::Comment,
        },
    }
}

/// A parsed document: a node arena in document order whose parent links all
/// point backwards.
#[derive(Debug)]
pub struct Dom {
    nodes: Vec<RawNode>,
}

impl View for Dom {
    type V = Seq<NodeModel>;

    closed spec fn view(&self) -> Seq<NodeModel> {
        self.nodes.deep_view()
    }
}

impl Dom {
    /// The arena is well-formed.
    pub open spec fn wf(&self) -> bool {
        wf_nodes(self@)
    }

    /// Parse markup into a document. The markup must fit the parser's
    /// buffer (at most u32::MAX bytes). Every arena the parser yields
    /// places parents before children; an arena that does not is rejected.
    pub fn parse(html: &str) -> (r: Option<Dom>)
        requires
            vstd::utf8::encode_utf8(html@).len() <= u32::MAX,
        ensures
            match r {
                Some(d) => d@ == dom_of(html@) && d.wf(),
                None => !wf_nodes(dom_of(html@)),
            },
    {
        let nodes: Vec<RawNode> = parse_nodes(html);
        let n: usize = nodes.len();
        proof {
            assert(nodes.deep_view().len() == nodes@.len());
        }
        let mut i: usize = 0;
        while i < n
            invariant
                n == nodes@.len(),
                nodes.deep_view() == dom_of(html@),
                nodes.deep_view().len() == n,
                0 <= i <= n,
                forall|k: int|
                    0 <= k < i ==> match #[trigger] nodes.deep_view()[k].parent {
                        Some(p) => p < k,
                        None => true,
                    },
            decreases n - i,
        {
            let ok: bool = match nodes[i].parent {
                Some(p) => p < i,
                None => true,
            };
            proof {
                assert(nodes.deep_view()[i as int] == nodes@[i as int].deep_view());
                assert(nodes.deep_view()[i as int].parent == nodes@[i as int].parent);
            }
            if !ok {
                assert(!wf_nodes(dom_of(html@)));
                return None;
            }
            i += 1;
        }
        let d = Dom { nodes };
        assert(d.wf());
        Some(d)
    }

    /// A document with no nodes at all.
    pub fn empty() -> (r: Dom)
        ensures
            r@ =~= Seq::<NodeModel>::empty(),
            r.wf(),
    {
        Dom { nodes: Vec::new() }
    }

    /// Number of nodes.
    pub fn count(&self) -> (r: usize)
        ensures
            r == self@.len(),
    {
        let n: usize = self.nodes.len();
        proof {
            assert(self@.len() == self.nodes@.len());
        }
        n
    }

    /// The parent link of node `i`.
    pub fn parent_of(&self, i: usize) -> (r: Option<usize>)
        requires
            i < self@.len(),
        ensures
            r == self@[i as int].parent,
    {
        proof {
            assert(self@[i as int] == self.nodes@[i as int].deep_view());
        }
        self.nodes[i].parent
    }

    /// Whether node `i` is an element named `name`.
    pub fn is_elem_at(&self, i: usize, name: &Vec<char>) -> (r: bool)
        requires
            i < self@.len(),
        ensures
            r == is_elem(self@, i as int, name@),
    {
        proof {
            assert(self@[i as int] == self.nodes@[i as int].deep_view());
        }
        match &self.nodes[i].data {
            NodeData::Element { name: n, attrs: _ } => chars::str_eq_chars(n.as_str(), name),
            _ => false,
        }
    }

    /// Whether node `i` is a text node.
    pub fn is_text_at(&self, i: usize) -> (r: bool)
        requires
            i < self@.len(),
        ensures
            r == is_text(self@, i as int),
    {
        proof {
            assert(self@[i as int] == self.nodes@[i as int].deep_view());
        }
        match &self.nodes[i].data {
            NodeData::Text { .. } => true,
            _ => false,
        }
    }

    /// The text of node `i` (empty for non-text nodes).
    pub fn text_at(&self, i: usize) -> (r: Vec<char>)
        requires
            i < self@.len(),
        ensures
            r@ == text_of(self@, i as int),
    {
        proof {
            assert(self@[i as int] == self.nodes@[i as int].deep_view());
        }
        match &self.nodes[i].data {
            NodeData::Text { text } => chars::chars_of(text.as_str()),
            _ => Vec::new(),
        }
    }

    /// The value of attribute `name` on node `i`, if any.
    pub fn attr_at(&self, i: usize, name: &Vec<char>) -> (r: Option<String>)
        requires
            i < self@.len(),
        ensures
            match r {
                Some(v) => attr_of(self@, i as int, name@) == Some(v@),
                None => attr_of(self@, i as int, name@) is None,
            },
    {
        proof {
            assert(self@[i as int] == self.nodes@[i as int].deep_view());
        }
        match &self.nodes[i].data {
            NodeData::Element { name: _, attrs } => {
                let alen: usize = attrs.len();
                let mut k: usize = 0;
                proof {
                    assert(attrs.deep_view().skip(0int) =~= attrs.deep_view());
                    assert(self@[i as int].data matches NodeDataModel::Element {
                        name: _,
                        attrs: a,
                    } && a == attrs.deep_view());
                    assert(attr_of(self@, i as int, name@) == attr_lookup(
                        attrs.deep_view(),
                        name@,
                    ));
                }
                while k < alen
                    invariant
                        alen == attrs@.len(),
                        attrs.deep_view().len() == alen,
                        0 <= k <= alen,
                        attr_of(self@, i as int, name@) == attr_lookup(
                            attrs.deep_view(),
                            name@,
                        ),
                        attr_lookup(attrs.deep_view(), name@) == attr_lookup(
                            attrs.deep_view().skip(k as int),
                            name@,
                        ),
                    decreases alen - k,
                {
                    proof {
                        assert(attrs.deep_view()[k as int] == attrs@[k as int].deep_view());
                        assert(attrs.deep_view().skip(k as int).drop_first()
                            =~= attrs.deep_view().skip(k + 1));
                        assert(attrs.deep_view().skip(k as int)[0] == attrs.deep_view()[
                            k as int]);
                    }
                    if chars::str_eq_chars(attrs[k].0.as_str(), name) {
                        proof {
                            assert(attrs.deep_view().skip(k as int).len() > 0);
                            assert(attrs.deep_view().skip(k as int)[0].0 == name@);
                            assert(attr_lookup(attrs.deep_view().skip(k as int), name@)
                                == Some(attrs.deep_view()[k as int].1));
                            assert(attrs.deep_view()[k as int].1 == attrs@[k as int].1@);
                        }
                        let out: String = attrs[k].1.clone();
                        proof {
                            assert(out@ == attrs@[k as int].1@);
                        }
                        return Some(out);
                    }
                    k += 1;
                }
                proof {
                    assert(attrs.deep_view().skip(alen as int) =~= Seq::<(
                        Seq<char>,
                        Seq<char>,
                    )>::empty());
                }
                None
            },
            _ => None,
        }
    }

    /// A fresh copy of the document.
    pub fn duplicate(&self) -> (r: Dom)
        ensures
            r@ == self@,
    {
        let n: usize = self.nodes.len();
        proof {
            assert(self@.len() == n);
        }
        let mut nodes: Vec<RawNode> = Vec::new();
        let mut i: usize = 0;
        while i < n
            invariant
                n == self.nodes@.len(),
                self@.len() == n,
                0 <= i <= n,
                nodes.deep_view() =~= self@.take(i as int),
            decreases n - i,
        {
            let copy: RawNode = copy_node(&self.nodes[i]);
            let ghost prev = nodes.deep_view();
            proof {
                assert(self@[i as int] == self.nodes@[i as int].deep_view());
            }
            nodes.push(copy);
            proof {
                assert(nodes.deep_view() =~= prev.push(copy.deep_view()));
            }
            i += 1;
        }
        proof {
            assert(self@.take(n as int) =~= self@);
        }
        let d = Dom { nodes };
        proof {
            assert(d@ == self@);
        }
        d
    }

    /// Whether node `i` is a (proper) ancestor of node `j`.
    pub fn is_under(&self, i: usize, j: usize) -> (r: bool)
        requires
            self.wf(),
            j < self@.len(),
        ensures
            r == has_ancestor(self@, i as int, j as int),
    {
        let mut cur: usize = j;
        loop
            invariant
                self.wf(),
                cur < self@.len(),
                has_ancestor(self@, i as int, j as int) == has_ancestor(
                    self@,
                    i as int,
                    cur as int,
                ),
            decreases cur,
        {
            match self.parent_of(cur) {
                Some(p) => {
                    if p == i {
                        return true;
                    }
                    cur = p;
                },
                None => {
                    return false;
                },
            }
        }
    }
}

} // verus!
