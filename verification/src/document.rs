//! The node tree of a parsed document, and how it is walked.
//!
//! A document is its root node. Contracts speak of a node by its view, a
//! `NodeModel`, and of "document order": a node comes before its children,
//! and a child's whole subtree before the next child.

use crate::text::{chars_of, eq_ignore_ascii_case, same_ignoring_ascii_case};
use vstd::prelude::*;

verus! {

/// One attribute of an element: the namespace of its name, which is empty
/// for a plain attribute, the name itself, and its value.
#[derive(Debug, PartialEq, Eq)]
pub struct Attribute {
    pub namespace: String,
    pub name: String,
    pub value: String,
}

/// What an element carries: its tag name, its classes and its attributes.
#[derive(Debug, PartialEq, Eq)]
pub struct Element {
    pub name: String,
    pub classes: Vec<String>,
    pub attributes: Vec<Attribute>,
}

/// What a node carries.
#[derive(Debug, PartialEq, Eq)]
pub enum Content {
    /// An element.
    Element(Element),
    /// A run of text.
    Text(String),
    /// Anything else: the document root, a comment, a doctype.
    Other,
}

/// A node with its children, first to last.
#[derive(Debug, PartialEq, Eq)]
pub struct Node {
    pub content: Content,
    pub children: Vec<Node>,
}

/// What an attribute stands for in contracts.
pub struct AttributeModel {
    pub namespace: Seq<char>,
    pub name: Seq<char>,
    pub value: Seq<char>,
}

/// What an element stands for in contracts.
pub struct ElementModel {
    pub name: Seq<char>,
    pub classes: Seq<Seq<char>>,
    pub attributes: Seq<AttributeModel>,
}

/// What the content of a node stands for in contracts.
pub enum ContentModel {
    Element(ElementModel),
    Text(Seq<char>),
    Other,
}

/// What a node stands for in contracts: a tree of any shape.
pub struct NodeModel {
    pub content: ContentModel,
    pub children: Seq<NodeModel>,
}

impl View for Attribute {
    type V = AttributeModel;

    open spec fn view(&self) -> AttributeModel {
        AttributeModel { namespace: self.namespace@, name: self.name@, value: self.value@ }
    }
}

impl View for Element {
    type V = ElementModel;

    open spec fn view(&self) -> ElementModel {
        ElementModel {
            name: self.name@,
            classes: self.classes@.map_values(|class: String| class@),
            attributes: self.attributes@.map_values(|attribute: Attribute| attribute@),
        }
    }
}

impl View for Content {
    type V = ContentModel;

    open spec fn view(&self) -> ContentModel {
        match self {
            Content::Element(element) => ContentModel::Element(element@),
            Content::Text(text) => ContentModel::Text(text@),
            Content::Other => ContentModel::Other,
        }
    }
}

/// What a node stands for in contracts: its content's view, and its
/// children's, first to last.
pub open spec fn model_of(node: Node) -> NodeModel
    decreases node,
{
    NodeModel {
        content: node.content@,
        children: Seq::new(
            node.children@.len(),
            |i: int|
                if 0 <= i < node.children@.len() {
                    model_of(node.children@[i])
                } else {
                    arbitrary()
                },
        ),
    }
}

impl View for Node {
    type V = NodeModel;

    open spec fn view(&self) -> NodeModel {
        model_of(*self)
    }
}

/// The views of `nodes`, in the same order.
pub open spec fn node_views(nodes: Seq<Node>) -> Seq<NodeModel> {
    nodes.map_values(|node: Node| node@)
}

/// The views of the nodes that `nodes` refers to, in the same order.
pub open spec fn ref_views(nodes: Seq<&Node>) -> Seq<NodeModel> {
    nodes.map_values(|node: &Node| node@)
}

/// The element has `class` among its classes, the case of ASCII letters ignored.
pub open spec fn has_class(element: ElementModel, class: Seq<char>) -> bool {
    exists|i: int|
        0 <= i < element.classes.len() && eq_ignore_ascii_case(#[trigger] element.classes[i], class)
}

/// The attribute is a plain one called `name`: its name has no namespace.
pub open spec fn is_plain(attribute: AttributeModel, name: Seq<char>) -> bool {
    attribute.namespace.len() == 0 && attribute.name == name
}

/// The value of the first of `attributes` that is a plain one called `name`.
pub open spec fn lookup(attributes: Seq<AttributeModel>, name: Seq<char>) -> Option<Seq<char>>
    decreases attributes.len(),
{
    if attributes.len() == 0 {
        None
    } else if is_plain(attributes[0], name) {
        Some(attributes[0].value)
    } else {
        lookup(attributes.drop_first(), name)
    }
}

/// The node is an element that has `class`.
pub open spec fn is_classed(node: NodeModel, class: Seq<char>) -> bool {
    node.content matches ContentModel::Element(element) && has_class(element, class)
}

/// The node is an element whose tag name is `name`.
pub open spec fn is_named(node: NodeModel, name: Seq<char>) -> bool {
    node.content matches ContentModel::Element(element) && element.name == name
}

/// The value of the node's attribute `name`, if the node is an element that has one.
pub open spec fn attribute_of(node: NodeModel, name: Seq<char>) -> Option<Seq<char>> {
    match node.content {
        ContentModel::Element(element) => lookup(element.attributes, name),
        _ => None,
    }
}

/// The node and all its descendants, in document order.
pub open spec fn subtree(node: NodeModel) -> Seq<NodeModel>
    decreases node, 1int,
{
    seq![node] + forest(node.children)
}

/// The nodes of the subtrees of `nodes`, in document order.
pub open spec fn forest(nodes: Seq<NodeModel>) -> Seq<NodeModel>
    decreases nodes, 0int,
{
    if nodes.len() == 0 {
        Seq::empty()
    } else {
        forest(nodes.drop_last()) + subtree(nodes.last())
    }
}

/// The first of `nodes` that is an element with `class`.
pub open spec fn first_classed(nodes: Seq<NodeModel>, class: Seq<char>) -> Option<NodeModel>
    decreases nodes.len(),
{
    if nodes.len() == 0 {
        None
    } else if is_classed(nodes[0], class) {
        Some(nodes[0])
    } else {
        first_classed(nodes.drop_first(), class)
    }
}

/// The first of `nodes` that is an element called `name`.
pub open spec fn first_named(nodes: Seq<NodeModel>, name: Seq<char>) -> Option<NodeModel>
    decreases nodes.len(),
{
    if nodes.len() == 0 {
        None
    } else if is_named(nodes[0], name) {
        Some(nodes[0])
    } else {
        first_named(nodes.drop_first(), name)
    }
}

/// Those of `nodes` that are elements with `class`, in the same order.
pub open spec fn classed_among(nodes: Seq<NodeModel>, class: Seq<char>) -> Seq<NodeModel>
    decreases nodes.len(),
{
    if nodes.len() == 0 {
        Seq::empty()
    } else if is_classed(nodes.last(), class) {
        classed_among(nodes.drop_last(), class).push(nodes.last())
    } else {
        classed_among(nodes.drop_last(), class)
    }
}

/// Those of `nodes` that are elements called `name`, in the same order.
pub open spec fn named_among(nodes: Seq<NodeModel>, name: Seq<char>) -> Seq<NodeModel>
    decreases nodes.len(),
{
    if nodes.len() == 0 {
        Seq::empty()
    } else if is_named(nodes.last(), name) {
        named_among(nodes.drop_last(), name).push(nodes.last())
    } else {
        named_among(nodes.drop_last(), name)
    }
}

/// The first of `nodes` that is an element.
pub open spec fn first_element(nodes: Seq<NodeModel>) -> Option<NodeModel>
    decreases nodes.len(),
{
    if nodes.len() == 0 {
        None
    } else if nodes[0].content is Element {
        Some(nodes[0])
    } else {
        first_element(nodes.drop_first())
    }
}

/// The first of `nodes` with `class` is one of them, has the class, and none
/// before it has: the first match wins.
pub proof fn lemma_first_classed(nodes: Seq<NodeModel>, class: Seq<char>)
    ensures
        match first_classed(nodes, class) {
            Some(found) => exists|i: int|
                {
                    &&& 0 <= i < nodes.len()
                    &&& #[trigger] nodes[i] == found
                    &&& is_classed(found, class)
                    &&& forall|k: int| 0 <= k < i ==> !is_classed(#[trigger] nodes[k], class)
                },
            None => forall|k: int| 0 <= k < nodes.len() ==> !is_classed(#[trigger] nodes[k], class),
        },
    decreases nodes.len(),
{
    if nodes.len() > 0 && !is_classed(nodes[0], class) {
        let rest = nodes.drop_first();
        lemma_first_classed(rest, class);
        match first_classed(rest, class) {
            Some(found) => {
                let i = choose|i: int|
                    {
                        &&& 0 <= i < rest.len()
                        &&& #[trigger] rest[i] == found
                        &&& is_classed(found, class)
                        &&& forall|k: int| 0 <= k < i ==> !is_classed(#[trigger] rest[k], class)
                    };
                assert(nodes[i + 1] == found);
                assert forall|k: int| 0 <= k < i + 1 implies !is_classed(
                    #[trigger] nodes[k],
                    class,
                ) by {
                    if k > 0 {
                        assert(rest[k - 1] == nodes[k]);
                    }
                }
            },
            None => {
                assert forall|k: int| 0 <= k < nodes.len() implies !is_classed(
                    #[trigger] nodes[k],
                    class,
                ) by {
                    if k > 0 {
                        assert(rest[k - 1] == nodes[k]);
                    }
                }
            },
        }
    } else if nodes.len() > 0 {
        assert(nodes[0] == nodes[0]);
    }
}

/// The first text node met in document order in the subtrees of
/// `nodes[from..]`, together with the siblings that follow it.
pub open spec fn first_text_run(nodes: Seq<NodeModel>, from: int) -> Option<Seq<NodeModel>>
    decreases nodes, nodes.len() - from,
{
    if from < 0 || from >= nodes.len() {
        None
    } else if nodes[from].content is Text {
        Some(nodes.skip(from))
    } else {
        match first_text_run(nodes[from].children, 0) {
            Some(run) => Some(run),
            None => first_text_run(nodes, from + 1),
        }
    }
}

impl Element {
    /// Whether the element has `class`, the case of ASCII letters ignored.
    pub fn has_class(&self, class: &str) -> (found: bool)
        ensures
            found == has_class(self@, class@),
    {
        let wanted = chars_of(class);
        let mut i: usize = 0;
        while i < self.classes.len()
            invariant
                i <= self.classes.len(),
                wanted@ == class@,
                forall|k: int| 0 <= k < i ==> !eq_ignore_ascii_case(#[trigger] self@.classes[k], class@),
            decreases self.classes.len() - i,
        {
            let own = chars_of(self.classes[i].as_str());
            if same_ignoring_ascii_case(&own, &wanted) {
                assert(self@.classes[i as int] == own@);
                return true;
            }
            assert(self@.classes[i as int] == own@);
            i += 1;
        }
        false
    }

    /// The value of the element's first plain attribute called `name`.
    pub fn attribute(&self, name: &str) -> (value: Option<&String>)
        ensures
            match value {
                Some(v) => lookup(self@.attributes, name@) == Some(v@),
                None => lookup(self@.attributes, name@) is None,
            },
    {
        let wanted = name.to_owned();
        let mut i: usize = 0;
        assert(self@.attributes.skip(0) == self@.attributes);
        while i < self.attributes.len()
            invariant
                i <= self.attributes.len(),
                wanted@ == name@,
                lookup(self@.attributes, name@) == lookup(self@.attributes.skip(i as int), name@),
            decreases self.attributes.len() - i,
        {
            let ghost rest = self@.attributes.skip(i as int);
            assert(rest[0] == self.attributes@[i as int]@);
            assert(rest.drop_first() == self@.attributes.skip(i + 1));
            let attribute = &self.attributes[i];
            if attribute.namespace.as_str().is_empty() && attribute.name == wanted {
                return Some(&attribute.value);
            }
            i += 1;
        }
        None
    }
}

impl Node {
    /// A text node.
    pub fn text(text: &str) -> (node: Node)
        ensures
            node@ == (NodeModel { content: ContentModel::Text(text@), children: Seq::empty() }),
    {
        let node = Node { content: Content::Text(text.to_owned()), children: Vec::new() };
        assert(node@.children =~= Seq::empty());
        node
    }

    /// A node that is neither an element nor text, with its children.
    pub fn other(children: Vec<Node>) -> (node: Node)
        ensures
            node@ == (NodeModel {
                content: ContentModel::Other,
                children: node_views(children@),
            }),
    {
        let node = Node { content: Content::Other, children };
        assert(node@.children =~= node_views(node.children@));
        node
    }

    /// An element node with its children.
    pub fn element(element: Element, children: Vec<Node>) -> (node: Node)
        ensures
            node@ == (NodeModel {
                content: ContentModel::Element(element@),
                children: node_views(children@),
            }),
    {
        let node = Node { content: Content::Element(element), children };
        assert(node@.children =~= node_views(node.children@));
        node
    }

    /// The element that the node carries, if it is one.
    pub fn as_element(&self) -> (element: Option<&Element>)
        ensures
            match element {
                Some(e) => self@.content == ContentModel::Element(e@),
                None => !(self@.content is Element),
            },
    {
        match &self.content {
            Content::Element(element) => Some(element),
            _ => None,
        }
    }

    /// Whether the node is an element with `class`.
    pub fn is_classed(&self, class: &str) -> (found: bool)
        ensures
            found == is_classed(self@, class@),
    {
        match &self.content {
            Content::Element(element) => element.has_class(class),
            _ => false,
        }
    }

    /// Whether the node is an element called `name`.
    pub fn is_named(&self, name: &str) -> (found: bool)
        ensures
            found == is_named(self@, name@),
    {
        match &self.content {
            Content::Element(element) => element.name == name.to_owned(),
            _ => false,
        }
    }

    /// The node and all its descendants, in document order.
    pub fn descendants<'a>(&'a self) -> (nodes: Vec<&'a Node>)
        ensures
            ref_views(nodes@) == subtree(self@),
        decreases self,
    {
        let mut nodes: Vec<&'a Node> = Vec::new();
        nodes.push(self);
        assert(ref_views(nodes@) =~= seq![self@]);
        assert(self@.children.take(0) =~= Seq::empty());
        let mut i: usize = 0;
        while i < self.children.len()
            invariant
                i <= self.children.len(),
                self@.children.len() == self.children.len(),
                ref_views(nodes@) == seq![self@] + forest(self@.children.take(i as int)),
            decreases self.children.len() - i,
        {
            let ghost before = nodes@;
            let mut below = self.children[i].descendants();
            let ghost added = below@;
            nodes.append(&mut below);
            proof {
                let upto = self@.children.take(i + 1);
                assert(upto.drop_last() == self@.children.take(i as int));
                assert(upto.last() == self.children@[i as int]@);
                assert(ref_views(nodes@) =~= ref_views(before) + ref_views(added));
                assert(seq![self@] + forest(upto) == (seq![self@] + forest(
                    self@.children.take(i as int),
                )) + subtree(upto.last()));
            }
            i += 1;
        }
        assert(self@.children.take(self.children.len() as int) == self@.children);
        nodes
    }
}

/// The first of `nodes` that is an element with `class`.
pub fn find_classed<'a>(nodes: &Vec<&'a Node>, class: &str) -> (found: Option<&'a Node>)
    ensures
        match found {
            Some(node) => first_classed(ref_views(nodes@), class@) == Some(node@),
            None => first_classed(ref_views(nodes@), class@) is None,
        },
{
    let ghost all = ref_views(nodes@);
    assert(all.skip(0) == all);
    let mut i: usize = 0;
    while i < nodes.len()
        invariant
            i <= nodes.len(),
            all == ref_views(nodes@),
            first_classed(all, class@) == first_classed(all.skip(i as int), class@),
        decreases nodes.len() - i,
    {
        let node: &'a Node = nodes[i];
        assert(all.skip(i as int)[0] == node@);
        assert(all.skip(i as int).drop_first() == all.skip(i + 1));
        if node.is_classed(class) {
            return Some(node);
        }
        i += 1;
    }
    None
}

/// The first of `nodes` that is an element called `name`.
pub fn find_named<'a>(nodes: &Vec<&'a Node>, name: &str) -> (found: Option<&'a Node>)
    ensures
        match found {
            Some(node) => first_named(ref_views(nodes@), name@) == Some(node@),
            None => first_named(ref_views(nodes@), name@) is None,
        },
{
    let ghost all = ref_views(nodes@);
    assert(all.skip(0) == all);
    let mut i: usize = 0;
    while i < nodes.len()
        invariant
            i <= nodes.len(),
            all == ref_views(nodes@),
            first_named(all, name@) == first_named(all.skip(i as int), name@),
        decreases nodes.len() - i,
    {
        let node: &'a Node = nodes[i];
        assert(all.skip(i as int)[0] == node@);
        assert(all.skip(i as int).drop_first() == all.skip(i + 1));
        if node.is_named(name) {
            return Some(node);
        }
        i += 1;
    }
    None
}

/// Those of `nodes` that are elements with `class`, in the same order.
pub fn select_classed<'a>(nodes: &Vec<&'a Node>, class: &str) -> (found: Vec<&'a Node>)
    ensures
        ref_views(found@) == classed_among(ref_views(nodes@), class@),
{
    let ghost all = ref_views(nodes@);
    let mut found: Vec<&'a Node> = Vec::new();
    assert(all.take(0) =~= Seq::empty());
    assert(ref_views(found@) =~= Seq::empty());
    let mut i: usize = 0;
    while i < nodes.len()
        invariant
            i <= nodes.len(),
            all == ref_views(nodes@),
            ref_views(found@) == classed_among(all.take(i as int), class@),
        decreases nodes.len() - i,
    {
        let node: &'a Node = nodes[i];
        let ghost before = found@;
        assert(all.take(i + 1).drop_last() == all.take(i as int));
        assert(all.take(i + 1).last() == node@);
        if node.is_classed(class) {
            found.push(node);
            assert(ref_views(found@) =~= ref_views(before).push(node@));
        }
        i += 1;
    }
    assert(all.take(nodes.len() as int) == all);
    found
}

/// Those of `nodes` that are elements called `name`, in the same order.
pub fn select_named<'a>(nodes: &Vec<&'a Node>, name: &str) -> (found: Vec<&'a Node>)
    ensures
        ref_views(found@) == named_among(ref_views(nodes@), name@),
{
    let ghost all = ref_views(nodes@);
    let mut found: Vec<&'a Node> = Vec::new();
    assert(all.take(0) =~= Seq::empty());
    assert(ref_views(found@) =~= Seq::empty());
    let mut i: usize = 0;
    while i < nodes.len()
        invariant
            i <= nodes.len(),
            all == ref_views(nodes@),
            ref_views(found@) == named_among(all.take(i as int), name@),
        decreases nodes.len() - i,
    {
        let node: &'a Node = nodes[i];
        let ghost before = found@;
        assert(all.take(i + 1).drop_last() == all.take(i as int));
        assert(all.take(i + 1).last() == node@);
        if node.is_named(name) {
            found.push(node);
            assert(ref_views(found@) =~= ref_views(before).push(node@));
        }
        i += 1;
    }
    assert(all.take(nodes.len() as int) == all);
    found
}

/// The first child of `node` that is an element.
pub fn first_element_child<'a>(node: &'a Node) -> (found: Option<&'a Node>)
    ensures
        match found {
            Some(child) => first_element(node@.children) == Some(child@),
            None => first_element(node@.children) is None,
        },
{
    let ghost all = node@.children;
    assert(all =~= node_views(node.children@));
    assert(all.skip(0) == all);
    let mut i: usize = 0;
    while i < node.children.len()
        invariant
            i <= node.children.len(),
            all == node@.children,
            all == node_views(node.children@),
            first_element(all) == first_element(all.skip(i as int)),
        decreases node.children.len() - i,
    {
        let child = &node.children[i];
        assert(all.skip(i as int)[0] == child@);
        assert(child@.content == child.content@);
        assert(all.skip(i as int).drop_first() == all.skip(i + 1));
        match &child.content {
            Content::Element(_) => {
                return Some(child);
            },
            _ => {},
        }
        i += 1;
    }
    None
}

/// Where the first text node in the subtrees of `nodes[from..]` stands: the
/// list of children that holds it, and its place in that list.
pub fn find_text_run<'a>(nodes: &'a Vec<Node>, from: usize) -> (run: Option<(&'a Vec<Node>, usize)>)
    ensures
        match run {
            Some((siblings, at)) => {
                &&& at < siblings.len()
                &&& first_text_run(node_views(nodes@), from as int) == Some(
                    node_views(siblings@).skip(at as int),
                )
            },
            None => first_text_run(node_views(nodes@), from as int) is None,
        },
    decreases nodes, nodes.len() - from,
{
    let mut i: usize = from;
    while i < nodes.len()
        invariant
            from <= i,
            first_text_run(node_views(nodes@), from as int) == first_text_run(
                node_views(nodes@),
                i as int,
            ),
        decreases nodes.len() - i,
    {
        let node = &nodes[i];
        assert(node_views(nodes@)[i as int] == node@);
        assert(node@.children =~= node_views(node.children@));
        match &node.content {
            Content::Text(_) => {
                return Some((nodes, i));
            },
            _ => {},
        }
        match find_text_run(&node.children, 0) {
            Some(run) => {
                return Some(run);
            },
            None => {},
        }
        i += 1;
    }
    None
}

} // verus!
