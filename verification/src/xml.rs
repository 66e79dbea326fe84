//! Markup as a tree of elements.
//!
//! [`MarkupElement`] and [`MarkupNode`] are this crate's own representation, with
//! what the codecs read of an element: its name, its attributes in document
//! order, and its children.  Text is parsed by `xmltree`; the functions at
//! the end of this file convert from its representation one level at a
//! time.

use vstd::prelude::*;
use crate::assoc::unique_keys;

verus! {

/// `xmltree::Element`, taken apart by the functions at the end of this
/// file.
#[verifier::external_type_specification]
#[verifier::external_body]
pub struct ExElement(xmltree::Element);

/// `xmltree::XMLNode`, taken apart by the functions at the end of this
/// file.
#[verifier::external_type_specification]
#[verifier::external_body]
pub struct ExXMLNode(xmltree::XMLNode);

/// `xmltree::ParseError`, carried as it is.
#[verifier::external_type_specification]
#[verifier::external_body]
pub struct ExParseError(xmltree::ParseError);

/// A node of markup.
#[derive(Debug)]
pub enum MarkupNode {
    Element(MarkupElement),
    Comment(String),
    CData(String),
    Text(String),
    ProcessingInstruction(String, Option<String>),
}

/// An element of markup.
#[derive(Debug)]
pub struct MarkupElement {
    /// The name of the element, without any namespace.
    pub name: String,
    /// The attributes, in document order.
    pub attributes: Vec<(String, String)>,
    /// The children, in document order.
    pub children: Vec<MarkupNode>,
}

/// The mathematical form of a [`MarkupNode`].
pub enum NodeView {
    Element(ElementView),
    Comment(Seq<char>),
    CData(Seq<char>),
    Text(Seq<char>),
    ProcessingInstruction(Seq<char>, Option<Seq<char>>),
}

/// The mathematical form of a [`MarkupElement`].
pub struct ElementView {
    pub name: Seq<char>,
    pub attributes: Seq<(Seq<char>, Seq<char>)>,
    pub children: Seq<NodeView>,
}

/// The mathematical form of a list of attributes.
pub open spec fn attributes_view(a: Seq<(String, String)>) -> Seq<(Seq<char>, Seq<char>)> {
    Seq::new(a.len(), |i: int| (a[i].0@, a[i].1@))
}

/// The mathematical form of a list of nodes.
pub open spec fn nodes_view(nodes: Seq<MarkupNode>) -> Seq<NodeView>
    decreases nodes,
{
    Seq::new(
        nodes.len(),
        |i: int|
            if 0 <= i < nodes.len() {
                nodes[i].view()
            } else {
                NodeView::Text(Seq::empty())
            },
    )
}

impl View for MarkupNode {
    type V = NodeView;

    open spec fn view(&self) -> NodeView
        decreases self,
    {
        match self {
            MarkupNode::Element(e) => NodeView::Element(e.view()),
            MarkupNode::Comment(t) => NodeView::Comment(t@),
            MarkupNode::CData(t) => NodeView::CData(t@),
            MarkupNode::Text(t) => NodeView::Text(t@),
            MarkupNode::ProcessingInstruction(n, d) => NodeView::ProcessingInstruction(
                n@,
                match d {
                    Some(t) => Some(t@),
                    None => None,
                },
            ),
        }
    }
}

impl View for MarkupElement {
    type V = ElementView;

    open spec fn view(&self) -> ElementView
        decreases self,
    {
        ElementView {
            name: self.name@,
            attributes: attributes_view(self.attributes@),
            children: nodes_view(self.children@),
        }
    }
}

/// Whether no element among the first `n` of `nodes`, nor any element
/// below them, has two attributes of one name.
pub open spec fn nodes_unique(nodes: Seq<NodeView>, n: int) -> bool
    decreases nodes, n,
{
    if n <= 0 || n > nodes.len() {
        true
    } else {
        nodes_unique(nodes, n - 1) && match nodes[n - 1] {
            NodeView::Element(e) => element_unique(e),
            _ => true,
        }
    }
}

/// Whether neither the element nor any element below it has two
/// attributes of one name: what `xmltree` can hold.
pub open spec fn element_unique(e: ElementView) -> bool
    decreases e,
{
    unique_keys(e.attributes) && nodes_unique(e.children, e.children.len() as int)
}

/// Whether the node is no element, or an element that `xmltree` can hold.
pub open spec fn node_unique(n: NodeView) -> bool {
    match n {
        NodeView::Element(e) => element_unique(e),
        _ => true,
    }
}

/// Nodes hold no element with two attributes of one name exactly when
/// each of them holds none.
pub proof fn lemma_nodes_unique(nodes: Seq<NodeView>, n: int)
    requires
        0 <= n <= nodes.len(),
    ensures
        nodes_unique(nodes, n) == forall|i: int| 0 <= i < n ==> node_unique(#[trigger] nodes[i]),
    decreases n,
{
    if n > 0 {
        lemma_nodes_unique(nodes, n - 1);
        if nodes_unique(nodes, n) {
            assert forall|i: int| 0 <= i < n implies node_unique(#[trigger] nodes[i]) by {}
        } else {
            if nodes_unique(nodes, n - 1) {
                assert(!node_unique(nodes[n - 1]));
            }
        }
    }
}

impl MarkupNode {
    /// The element, where the node is one.
    pub fn as_element(&self) -> (r: Option<&MarkupElement>)
        ensures
            match self@ {
                NodeView::Element(e) => r is Some && r.unwrap()@ == e,
                _ => r is None,
            },
    {
        match self {
            MarkupNode::Element(e) => Some(e),
            _ => None,
        }
    }
}

/// What an `xmltree::Element` holds: its name, its attributes in the order
/// in which its map walks them, and its children.
pub uninterp spec fn element_of(e: xmltree::Element) -> ElementView;

/// What an `xmltree::XMLNode` holds.
pub uninterp spec fn node_of(n: xmltree::XMLNode) -> NodeView;

/// What `xmltree::Element::parse` makes of a text: the root element, or
/// `None` where it returns an error.
pub uninterp spec fn parsed_document(text: Seq<char>) -> Option<ElementView>;

/// What `xmltree::Element::parse_all` makes of a text: the nodes at the top
/// level, or `None` where it returns an error.
pub uninterp spec fn parsed_nodes(text: Seq<char>) -> Option<Seq<NodeView>>;

/// One level of an `xmltree::XMLNode`: the variant with its fields, an
/// element still in `xmltree`'s form.
enum NodeShape {
    Element(xmltree::Element),
    Comment(String),
    CData(String),
    Text(String),
    ProcessingInstruction(String, Option<String>),
}

spec fn shape_node(s: NodeShape) -> NodeView {
    match s {
        NodeShape::Element(e) => NodeView::Element(element_of(e)),
        NodeShape::Comment(t) => NodeView::Comment(t@),
        NodeShape::CData(t) => NodeView::CData(t@),
        NodeShape::Text(t) => NodeView::Text(t@),
        NodeShape::ProcessingInstruction(n, d) => NodeView::ProcessingInstruction(
            n@,
            match d {
                Some(t) => Some(t@),
                None => None,
            },
        ),
    }
}

spec fn shape_nodes(nodes: Seq<xmltree::XMLNode>) -> Seq<NodeView> {
    Seq::new(nodes.len(), |i: int| node_of(nodes[i]))
}

/// Copies the name, the attributes and the children out of an
/// `xmltree::Element`.  With `attribute-order` the attributes are an
/// `IndexMap`: it holds no key twice and walks its entries in the order of
/// insertion, which for a parsed element is document order.
#[verifier::external_body]
fn element_parts(e: &xmltree::Element) -> (r: (
    String,
    Vec<(String, String)>,
    Vec<xmltree::XMLNode>,
))
    ensures
        r.0@ == element_of(*e).name,
        attributes_view(r.1@) == element_of(*e).attributes,
        unique_keys(attributes_view(r.1@)),
        shape_nodes(r.2@) == element_of(*e).children,
{
    (
        e.name.clone(),
        e.attributes.iter().map(|(k, v)| (k.clone(), v.clone())).collect(),
        e.children.clone(),
    )
}

/// Tells the variants of an `xmltree::XMLNode` apart and copies the fields
/// of the one it finds.
#[verifier::external_body]
fn node_shape(n: &xmltree::XMLNode) -> (s: NodeShape)
    ensures
        shape_node(s) == node_of(*n),
{
    match n {
        xmltree::XMLNode::Element(e) => NodeShape::Element(e.clone()),
        xmltree::XMLNode::Comment(t) => NodeShape::Comment(t.clone()),
        xmltree::XMLNode::CData(t) => NodeShape::CData(t.clone()),
        xmltree::XMLNode::Text(t) => NodeShape::Text(t.clone()),
        xmltree::XMLNode::ProcessingInstruction(n, d) => NodeShape::ProcessingInstruction(
            n.clone(),
            d.clone(),
        ),
    }
}

/// Calls `xmltree::Element::new` and puts in the attributes and the
/// children.  With `attribute-order` the attributes are collected into an
/// `IndexMap`, which keeps entries with distinct keys in the order given.
#[verifier::external_body]
fn element_from_parts(
    name: &str,
    attributes: Vec<(String, String)>,
    children: Vec<xmltree::XMLNode>,
) -> (e: xmltree::Element)
    requires
        unique_keys(attributes_view(attributes@)),
    ensures
        element_of(e) == (ElementView {
            name: name@,
            attributes: attributes_view(attributes@),
            children: shape_nodes(children@),
        }),
{
    let mut e = xmltree::Element::new(name);
    e.attributes = attributes.into_iter().collect();
    e.children = children;
    e
}

/// Builds the `xmltree::XMLNode` of one variant from its fields.
#[verifier::external_body]
fn node_from_shape(s: NodeShape) -> (n: xmltree::XMLNode)
    ensures
        node_of(n) == shape_node(s),
{
    match s {
        NodeShape::Element(e) => xmltree::XMLNode::Element(e),
        NodeShape::Comment(t) => xmltree::XMLNode::Comment(t),
        NodeShape::CData(t) => xmltree::XMLNode::CData(t),
        NodeShape::Text(t) => xmltree::XMLNode::Text(t),
        NodeShape::ProcessingInstruction(n, d) => xmltree::XMLNode::ProcessingInstruction(n, d),
    }
}

/// Calls `xmltree::Element::parse` on the bytes of `text`.
#[verifier::external_body]
fn document_from_str(text: &str) -> (r: Result<xmltree::Element, xmltree::ParseError>)
    ensures
        match r {
            Ok(e) => parsed_document(text@) == Some(element_of(e)),
            Err(_) => parsed_document(text@) is None,
        },
{
    xmltree::Element::parse(text.as_bytes())
}

/// Calls `xmltree::Element::parse_all` on the bytes of `text`.
#[verifier::external_body]
fn nodes_from_str(text: &str) -> (r: Result<Vec<xmltree::XMLNode>, xmltree::ParseError>)
    ensures
        match r {
            Ok(nodes) => parsed_nodes(text@) == Some(shape_nodes(nodes@)),
            Err(_) => parsed_nodes(text@) is None,
        },
{
    xmltree::Element::parse_all(text.as_bytes())
}

impl MarkupNode {
    /// The node that an `xmltree::XMLNode` holds.
    pub fn from_outside(n: &xmltree::XMLNode) -> (r: MarkupNode)
        ensures
            r@ == node_of(*n),
        decreases node_of(*n), 0int,
    {
        match node_shape(n) {
            NodeShape::Element(e) => {
                assert(node_of(*n)->Element_0 == element_of(e));
                assert(decreases_to!(node_of(*n) => node_of(*n)->Element_0));
                MarkupNode::Element(MarkupElement::from_outside(&e))
            },
            NodeShape::Comment(t) => MarkupNode::Comment(t),
            NodeShape::CData(t) => MarkupNode::CData(t),
            NodeShape::Text(t) => MarkupNode::Text(t),
            NodeShape::ProcessingInstruction(name, data) => MarkupNode::ProcessingInstruction(
                name,
                data,
            ),
        }
    }
}

impl MarkupElement {
    /// The element that an `xmltree::Element` holds.
    pub fn from_outside(e: &xmltree::Element) -> (r: MarkupElement)
        ensures
            r@ == element_of(*e),
            unique_keys(r@.attributes),
        decreases element_of(*e), 1int,
    {
        let (name, attributes, nodes) = element_parts(e);
        let ghost model = shape_nodes(nodes@);
        assert(element_of(*e).children == model);
        assert(decreases_to!(element_of(*e) => element_of(*e).children));
        let mut children: Vec<MarkupNode> = Vec::new();
        let mut i: usize = 0;
        while i < nodes.len()
            invariant
                i <= nodes@.len(),
                model == shape_nodes(nodes@),
                decreases_to!(element_of(*e) => model),
                nodes_view(children@) == model.take(i as int),
            decreases nodes@.len() - i,
        {
            proof {
                assert(decreases_to!(model => model[i as int]));
            }
            let child = MarkupNode::from_outside(&nodes[i]);
            let ghost before = children@;
            children.push(child);
            assert(nodes_view(children@) =~= nodes_view(before).push(child@));
            assert(model.take(i + 1) =~= model.take(i as int).push(model[i as int]));
            i += 1;
        }
        assert(model.take(i as int) =~= model);
        MarkupElement { name, attributes, children }
    }

    /// Reads a document and returns its root element, or the error of
    /// `xmltree` where the text is not well-formed.
    pub fn parse(text: &str) -> (r: Result<MarkupElement, xmltree::ParseError>)
        ensures
            match parsed_document(text@) {
                Some(root) => r is Ok && r->Ok_0@ == root,
                None => r is Err,
            },
    {
        match document_from_str(text) {
            Ok(e) => Ok(MarkupElement::from_outside(&e)),
            Err(e) => Err(e),
        }
    }

    /// Reads a text of several documents and returns the nodes at its top
    /// level, or the error of `xmltree` where the text is not well-formed.
    pub fn parse_all(text: &str) -> (r: Result<Vec<MarkupNode>, xmltree::ParseError>)
        ensures
            match parsed_nodes(text@) {
                Some(nodes) => r is Ok && nodes_view(r->Ok_0@) == nodes,
                None => r is Err,
            },
    {
        match nodes_from_str(text) {
            Ok(nodes) => {
                let ghost model = shape_nodes(nodes@);
                let mut out: Vec<MarkupNode> = Vec::new();
                let mut i: usize = 0;
                while i < nodes.len()
                    invariant
                        i <= nodes@.len(),
                        model == shape_nodes(nodes@),
                        nodes_view(out@) == model.take(i as int),
                    decreases nodes@.len() - i,
                {
                    let node = MarkupNode::from_outside(&nodes[i]);
                    let ghost before = out@;
                    out.push(node);
                    assert(nodes_view(out@) =~= nodes_view(before).push(node@));
                    assert(model.take(i + 1) =~= model.take(i as int).push(model[i as int]));
                    i += 1;
                }
                assert(model.take(i as int) =~= model);
                Ok(out)
            },
            Err(e) => Err(e),
        }
    }
}

/// Whether no two attributes have the same name.
pub fn attributes_unique(attrs: &Vec<(String, String)>) -> (r: bool)
    ensures
        r == unique_keys(attributes_view(attrs@)),
{
    let ghost all = attributes_view(attrs@);
    let mut j: usize = 0;
    while j < attrs.len()
        invariant
            j <= attrs@.len(),
            all == attributes_view(attrs@),
            forall|a: int, b: int| 0 <= a < b < j ==> (#[trigger] all[a]).0 != (#[trigger] all[b]).0,
        decreases attrs@.len() - j,
    {
        let mut i: usize = 0;
        while i < j
            invariant
                i <= j < attrs@.len(),
                all == attributes_view(attrs@),
                forall|a: int| 0 <= a < i ==> (#[trigger] all[a]).0 != all[j as int].0,
            decreases j - i,
        {
            if attrs[i].0 == attrs[j].0 {
                assert(all[i as int].0 == all[j as int].0);
                return false;
            }
            i += 1;
        }
        j += 1;
    }
    true
}

impl MarkupNode {
    /// The `xmltree::XMLNode` that holds this node; `None` where an element
    /// at or below it has two attributes of one name.
    pub fn to_outside(&self) -> (r: Option<xmltree::XMLNode>)
        ensures
            match self@ {
                NodeView::Element(e) => element_unique(e) == (r is Some),
                _ => r is Some,
            },
            r matches Some(n) ==> node_of(n) == self@,
        decreases self, 0int,
    {
        match self {
            MarkupNode::Element(e) => match e.to_outside() {
                Some(x) => Some(node_from_shape(NodeShape::Element(x))),
                None => None,
            },
            MarkupNode::Comment(t) => Some(node_from_shape(NodeShape::Comment(t.clone()))),
            MarkupNode::CData(t) => Some(node_from_shape(NodeShape::CData(t.clone()))),
            MarkupNode::Text(t) => Some(node_from_shape(NodeShape::Text(t.clone()))),
            MarkupNode::ProcessingInstruction(name, data) => Some(
                node_from_shape(
                    NodeShape::ProcessingInstruction(
                        name.clone(),
                        match data {
                            Some(d) => Some(d.clone()),
                            None => None,
                        },
                    ),
                ),
            ),
        }
    }
}

impl MarkupElement {
    /// The `xmltree::Element` that holds this element; `None` where it or
    /// an element below it has two attributes of one name.
    pub fn to_outside(&self) -> (r: Option<xmltree::Element>)
        ensures
            element_unique(self@) == (r is Some),
            r matches Some(e) ==> element_of(e) == self@,
        decreases self, 1int,
    {
        if !attributes_unique(&self.attributes) {
            return None;
        }
        let ghost all = nodes_view(self.children@);
        let mut children: Vec<xmltree::XMLNode> = Vec::new();
        let mut i: usize = 0;
        while i < self.children.len()
            invariant
                i <= self.children@.len(),
                all == nodes_view(self.children@),
                decreases_to!(*self => self.children@),
                nodes_unique(all, i as int),
                shape_nodes(children@) == all.take(i as int),
            decreases self.children@.len() - i,
        {
            proof {
                assert(decreases_to!(self.children@ => self.children@[i as int]));
            }
            match self.children[i].to_outside() {
                Some(n) => {
                    let ghost before = children@;
                    children.push(n);
                    assert(shape_nodes(children@) =~= shape_nodes(before).push(node_of(n)));
                    assert(all.take(i + 1) =~= all.take(i as int).push(all[i as int]));
                },
                None => {
                    proof {
                        assert(!nodes_unique(all, i + 1));
                        lemma_nodes_unique_upto(all, i + 1, all.len() as int);
                    }
                    return None;
                },
            }
            i += 1;
        }
        assert(all.take(i as int) =~= all);
        let mut attributes: Vec<(String, String)> = Vec::new();
        let mut k: usize = 0;
        while k < self.attributes.len()
            invariant
                k <= self.attributes@.len(),
                attributes_view(attributes@) == attributes_view(self.attributes@).take(k as int),
            decreases self.attributes@.len() - k,
        {
            let ghost before = attributes@;
            let pair = (self.attributes[k].0.clone(), self.attributes[k].1.clone());
            attributes.push(pair);
            assert(attributes_view(attributes@) =~= attributes_view(before).push(
                (pair.0@, pair.1@),
            ));
            assert(attributes_view(self.attributes@).take(k + 1) =~= attributes_view(
                self.attributes@,
            ).take(k as int).push(attributes_view(self.attributes@)[k as int]));
            k += 1;
        }
        assert(attributes_view(self.attributes@).take(k as int) =~= attributes_view(
            self.attributes@,
        ));
        Some(element_from_parts(self.name.as_str(), attributes, children))
    }
}

/// Once an element has two attributes of one name, every longer list of
/// nodes holds such an element.
pub proof fn lemma_nodes_unique_upto(nodes: Seq<NodeView>, n: int, m: int)
    requires
        0 <= n <= m <= nodes.len(),
        !nodes_unique(nodes, n),
    ensures
        !nodes_unique(nodes, m),
    decreases m - n,
{
    if n < m {
        lemma_nodes_unique_upto(nodes, n, m - 1);
    }
}

} // verus!
