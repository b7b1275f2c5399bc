//! From markup text to a node tree.
//!
//! The parser hands a document over as the walk through its tree: one edge
//! into each node and one out of it, in document order. `build_tree` puts the
//! tree together again and is proved to be the inverse of that walk.

use crate::document::{Attribute, Content, ContentModel, Element, Node, NodeModel, node_views};
use ego_tree::iter::Edge as Step;
use scraper::Node as Parsed;
use vstd::prelude::*;

verus! {

/// One step of a walk through a tree.
#[derive(Debug, PartialEq, Eq)]
pub enum Edge {
    /// Into a node, which carries this content.
    Open(Content),
    /// Out of the node that was entered last and not yet left.
    Close,
}

/// What an edge stands for in contracts.
pub enum EdgeModel {
    Open(ContentModel),
    Close,
}

impl View for Edge {
    type V = EdgeModel;

    open spec fn view(&self) -> EdgeModel {
        match self {
            Edge::Open(content) => EdgeModel::Open(content@),
            Edge::Close => EdgeModel::Close,
        }
    }
}

/// The views of `edges`, in the same order.
pub open spec fn edge_views(edges: Seq<Edge>) -> Seq<EdgeModel> {
    edges.map_values(|edge: Edge| edge@)
}

/// The walk through `node`: into it, through its children first to last, out of it.
pub open spec fn edges_of(node: NodeModel) -> Seq<EdgeModel>
    decreases node, 1int,
{
    seq![EdgeModel::Open(node.content)] + forest_edges(node.children) + seq![EdgeModel::Close]
}

/// The walks through `nodes`, one after the other.
pub open spec fn forest_edges(nodes: Seq<NodeModel>) -> Seq<EdgeModel>
    decreases nodes, 0int,
{
    if nodes.len() == 0 {
        Seq::empty()
    } else {
        forest_edges(nodes.drop_last()) + edges_of(nodes.last())
    }
}

/// The tree whose walk is `edges`, if `edges` is the walk through a tree.
pub open spec fn tree_of(edges: Seq<EdgeModel>) -> Option<NodeModel> {
    if exists|tree: NodeModel| #[trigger] edges_of(tree) == edges {
        Some(choose|tree: NodeModel| #[trigger] edges_of(tree) == edges)
    } else {
        None
    }
}

/// How many more nodes `edges` enters than it leaves.
pub open spec fn depth(edges: Seq<EdgeModel>) -> int
    decreases edges.len(),
{
    if edges.len() == 0 {
        0
    } else {
        depth(edges.drop_last()) + if edges.last() is Open {
            1int
        } else {
            -1int
        }
    }
}

/// The edges that the parser's walk through the document written in `markup` consists of.
pub uninterp spec fn document_edges(markup: Seq<char>) -> Seq<EdgeModel>;

/// Parses `markup` with `scraper::Html::parse_document` and walks the tree it
/// built with `traverse` from the root. Each edge into a node carries what the
/// node holds: of an element its name, its classes in the order in which
/// `classes` gives them and its attributes in the order of `attrs`, each
/// with the namespace and the local part of its name; of a text node its
/// text. The contract claims that the same markup always gives the same
/// walk, and that the walk is that of one tree: `traverse` enters the root
/// first, leaves it last, and leaves each node after its last child.
#[verifier::external_body]
pub(crate) fn parse_edges(markup: &str) -> (edges: Vec<Edge>)
    ensures
        edge_views(edges@) == document_edges(markup@),
        tree_of(edge_views(edges@)) is Some,
{
    scraper::Html::parse_document(markup).tree.root().traverse().map(|edge| match edge {
        Step::Open(node) => Edge::Open(match node.value() {
            Parsed::Element(e) => Content::Element(Element {
                name: e.name().to_string(),
                classes: e.classes().map(str::to_string).collect(),
                attributes: e.attrs.iter().map(|(n, v)| Attribute {
                    namespace: n.ns.to_string(), name: n.local.to_string(), value: v.to_string(),
                }).collect(),
            }),
            Parsed::Text(text) => Content::Text(text.to_string()),
            _ => Content::Other,
        }),
        Step::Close(_) => Edge::Close,
    }).collect()
}

/// A node that the walk has entered and not yet left, with the children
/// gathered for it so far.
struct Frame {
    content: Content,
    children: Vec<Node>,
}

/// The edges read so far when `frames` are the nodes entered and not yet
/// left, outermost first.
spec fn frames_edges(frames: Seq<Frame>) -> Seq<EdgeModel>
    decreases frames.len(),
{
    if frames.len() == 0 {
        Seq::empty()
    } else {
        frames_edges(frames.drop_last()) + seq![EdgeModel::Open(frames.last().content@)]
            + forest_edges(node_views(frames.last().children@))
    }
}

/// One edge goes one node deeper or one node back.
pub proof fn lemma_depth_single(edge: EdgeModel)
    ensures
        depth(seq![edge]) == if edge is Open {
            1int
        } else {
            -1int
        },
{
    assert(seq![edge].drop_last() =~= Seq::<EdgeModel>::empty());
    assert(depth(seq![edge].drop_last()) == 0);
}

/// The depth of two walks in a row is the sum of their depths.
pub proof fn lemma_depth_add(a: Seq<EdgeModel>, b: Seq<EdgeModel>)
    ensures
        depth(a + b) == depth(a) + depth(b),
    decreases b.len(),
{
    if b.len() == 0 {
        assert(a + b == a);
    } else {
        assert((a + b).drop_last() == a + b.drop_last());
        lemma_depth_add(a, b.drop_last());
    }
}

/// The walk through a tree ends at the depth at which it began, and is
/// deeper everywhere in between.
pub proof fn lemma_tree_depth(node: NodeModel)
    ensures
        edges_of(node).len() >= 2,
        edges_of(node)[0] == EdgeModel::Open(node.content),
        depth(edges_of(node)) == 0,
        forall|k: int| 0 < k < edges_of(node).len() ==> depth(#[trigger] edges_of(node).take(k)) >= 1,
    decreases node, 1int,
{
    let open = seq![EdgeModel::Open(node.content)];
    let inner = forest_edges(node.children);
    let close = seq![EdgeModel::Close];
    let all = edges_of(node);
    lemma_forest_depth(node.children);
    lemma_depth_single(open[0]);
    lemma_depth_single(close[0]);
    lemma_depth_add(open, inner);
    lemma_depth_add(open + inner, close);
    assert forall|k: int| 0 < k < all.len() implies depth(#[trigger] all.take(k)) >= 1 by {
        assert(all.take(k) =~= open + inner.take(k - 1));
        lemma_depth_add(open, inner.take(k - 1));
    }
}

/// The walks through a row of trees never go below the depth at which they began.
pub proof fn lemma_forest_depth(nodes: Seq<NodeModel>)
    ensures
        depth(forest_edges(nodes)) == 0,
        nodes.len() > 0 ==> forest_edges(nodes).len() >= 2,
        forall|k: int|
            0 <= k <= forest_edges(nodes).len() ==> depth(#[trigger] forest_edges(nodes).take(k))
                >= 0,
    decreases nodes, 0int,
{
    if nodes.len() > 0 {
        let before = forest_edges(nodes.drop_last());
        let last = edges_of(nodes.last());
        let all = forest_edges(nodes);
        lemma_forest_depth(nodes.drop_last());
        lemma_tree_depth(nodes.last());
        lemma_depth_add(before, last);
        assert forall|k: int| 0 <= k <= all.len() implies depth(#[trigger] all.take(k)) >= 0 by {
            if k <= before.len() {
                assert(all.take(k) =~= before.take(k));
            } else {
                assert(all.take(k) =~= before + last.take(k - before.len()));
                lemma_depth_add(before, last.take(k - before.len()));
                if k == all.len() {
                    assert(last.take(k - before.len()) =~= last);
                }
            }
        }
    } else {
        assert forall|k: int| 0 <= k <= forest_edges(nodes).len() implies depth(
            #[trigger] forest_edges(nodes).take(k),
        ) >= 0 by {
            assert(forest_edges(nodes).take(k) =~= Seq::<EdgeModel>::empty());
        }
    }
}

/// Two trees with the same walk are the same tree.
pub proof fn lemma_edges_injective(a: NodeModel, b: NodeModel)
    requires
        edges_of(a) == edges_of(b),
    ensures
        a == b,
    decreases a, 1int,
{
    let fa = forest_edges(a.children);
    let fb = forest_edges(b.children);
    assert(edges_of(a)[0] == EdgeModel::Open(a.content));
    assert(edges_of(b)[0] == EdgeModel::Open(b.content));
    assert(fa =~= edges_of(a).subrange(1, edges_of(a).len() - 1));
    assert(fb =~= edges_of(b).subrange(1, edges_of(b).len() - 1));
    lemma_forest_injective(a.children, b.children);
}

/// Two rows of trees with the same walks are the same row.
pub proof fn lemma_forest_injective(p: Seq<NodeModel>, q: Seq<NodeModel>)
    requires
        forest_edges(p) == forest_edges(q),
    ensures
        p == q,
    decreases p, 0int,
{
    lemma_forest_depth(p);
    lemma_forest_depth(q);
    if p.len() == 0 || q.len() == 0 {
        assert(p =~= q);
    } else {
        let all = forest_edges(p);
        let pa = forest_edges(p.drop_last());
        let pl = edges_of(p.last());
        let qa = forest_edges(q.drop_last());
        let ql = edges_of(q.last());
        lemma_tree_depth(p.last());
        lemma_tree_depth(q.last());
        if pl.len() < ql.len() {
            // `pl` is what remains of `ql` after a part of it that ends at depth one or more
            let cut = ql.len() - pl.len();
            assert(ql =~= ql.take(cut) + pl) by {
                assert forall|i: int| 0 <= i < pl.len() implies ql[cut + i] == pl[i] by {
                    assert(all[qa.len() + cut + i] == ql[cut + i]);
                    assert(all[pa.len() + i] == pl[i]);
                }
            }
            lemma_depth_add(ql.take(cut), pl);
            assert(false);
        }
        if ql.len() < pl.len() {
            let cut = pl.len() - ql.len();
            assert(pl =~= pl.take(cut) + ql) by {
                assert forall|i: int| 0 <= i < ql.len() implies pl[cut + i] == ql[i] by {
                    assert(all[pa.len() + cut + i] == pl[cut + i]);
                    assert(all[qa.len() + i] == ql[i]);
                }
            }
            lemma_depth_add(pl.take(cut), ql);
            assert(false);
        }
        assert(pl =~= ql) by {
            assert forall|i: int| 0 <= i < pl.len() implies pl[i] == ql[i] by {
                assert(all[pa.len() + i] == pl[i]);
                assert(all[qa.len() + i] == ql[i]);
            }
        }
        assert(pa =~= qa) by {
            assert forall|i: int| 0 <= i < pa.len() implies pa[i] == qa[i] by {
                assert(all[i] == pa[i]);
                assert(all[i] == qa[i]);
            }
        }
        lemma_edges_injective(p.last(), q.last());
        lemma_forest_injective(p.drop_last(), q.drop_last());
        assert(p =~= p.drop_last().push(p.last()));
        assert(q =~= q.drop_last().push(q.last()));
    }
}

/// The tree of the walk through a tree is that tree.
pub proof fn lemma_tree_of_walk(tree: NodeModel)
    ensures
        tree_of(edges_of(tree)) == Some(tree),
{
    let found = choose|other: NodeModel| #[trigger] edges_of(other) == edges_of(tree);
    lemma_edges_injective(found, tree);
}

/// With `frames` entered and not yet left, the walk is as deep as there are frames.
proof fn lemma_frames_depth(frames: Seq<Frame>)
    ensures
        depth(frames_edges(frames)) == frames.len(),
        frames.len() > 0 ==> frames_edges(frames).len() > 0,
    decreases frames.len(),
{
    if frames.len() > 0 {
        let before = frames_edges(frames.drop_last());
        let open = seq![EdgeModel::Open(frames.last().content@)];
        let inner = forest_edges(node_views(frames.last().children@));
        lemma_frames_depth(frames.drop_last());
        lemma_forest_depth(node_views(frames.last().children@));
        lemma_depth_single(open[0]);
        lemma_depth_add(before, open);
        lemma_depth_add(before + open, inner);
    }
}

/// No tree's walk goes on after it has come back to the depth at which it began.
proof fn lemma_no_tree_beyond(edges: Seq<EdgeModel>, k: int)
    requires
        0 < k < edges.len(),
        depth(edges.take(k)) <= 0,
    ensures
        tree_of(edges) is None,
{
    assert forall|tree: NodeModel| #[trigger] edges_of(tree) != edges by {
        lemma_tree_depth(tree);
    }
}

/// The tree whose walk is `edges`: `None` where `edges` is not the walk
/// through one tree.
pub fn build_tree(edges: Vec<Edge>) -> (tree: Option<Node>)
    ensures
        match tree {
            Some(t) => tree_of(edge_views(edges@)) == Some(t@),
            None => tree_of(edge_views(edges@)) is None,
        },
{
    let ghost all = edge_views(edges@);
    let mut open: Vec<Frame> = Vec::new();
    let mut root: Option<Node> = None;
    assert(all.take(0) =~= Seq::<EdgeModel>::empty());
    for edge in it: edges
        invariant
            it.seq() == edges@,
            all == edge_views(edges@),
            match root {
                Some(t) => open@.len() == 0 && edges_of(t@) == all.take(it.index()),
                None => frames_edges(open@) == all.take(it.index()),
            },
    {
        let ghost i = it.index();
        let ghost start = open@;
        assert(all.take(i + 1) =~= all.take(i).push(edge@));
        if root.is_some() {
            proof {
                lemma_tree_depth(root.unwrap()@);
                lemma_no_tree_beyond(all, i);
            }
            return None;
        }
        match edge {
            Edge::Open(content) => {
                let ghost before = open@;
                open.push(Frame { content, children: Vec::new() });
                proof {
                    assert(open@.drop_last() =~= before);
                    assert(node_views(open@.last().children@) =~= Seq::<NodeModel>::empty());
                    assert(frames_edges(open@) =~= all.take(i + 1));
                }
            },
            Edge::Close => {
                match open.pop() {
                    None => {
                        proof {
                            assert(all.take(i) =~= Seq::<EdgeModel>::empty());
                            assert forall|tree: NodeModel| #[trigger] edges_of(tree) != all by {
                                lemma_tree_depth(tree);
                            }
                        }
                        return None;
                    },
                    Some(frame) => {
                        let ghost below = open@;
                        let ghost inner = forest_edges(node_views(frame.children@));
                        let node = Node { content: frame.content, children: frame.children };
                        proof {
                            assert(start.drop_last() =~= below);
                            assert(start.last() == frame);
                            assert(all.take(i) == frames_edges(below) + seq![
                                EdgeModel::Open(frame.content@),
                            ] + inner);
                            assert(node@.children =~= node_views(node.children@));
                            assert(edges_of(node@) == seq![EdgeModel::Open(node@.content)] + inner
                                + seq![EdgeModel::Close]);
                        }
                        match open.pop() {
                            None => {
                                proof {
                                    assert(frames_edges(below) =~= Seq::<EdgeModel>::empty());
                                    assert(edges_of(node@) =~= all.take(i + 1));
                                }
                                root = Some(node);
                            },
                            Some(parent) => {
                                let ghost outer = open@;
                                let ghost kids = node_views(parent.children@);
                                let mut children = parent.children;
                                children.push(node);
                                open.push(Frame { content: parent.content, children });
                                proof {
                                    let grown = node_views(open@.last().children@);
                                    assert(below.drop_last() =~= outer);
                                    assert(below.last() == parent);
                                    assert(open@.drop_last() =~= outer);
                                    assert(grown =~= kids.push(node@));
                                    assert(grown.drop_last() =~= kids);
                                    assert(forest_edges(grown) == forest_edges(kids) + edges_of(
                                        node@,
                                    ));
                                    assert(frames_edges(below) == frames_edges(outer) + seq![
                                        EdgeModel::Open(parent.content@),
                                    ] + forest_edges(kids));
                                    assert(frames_edges(open@) == frames_edges(outer) + seq![
                                        EdgeModel::Open(parent.content@),
                                    ] + forest_edges(grown));
                                    assert(frames_edges(open@) =~= all.take(i + 1));
                                }
                            },
                        }
                    },
                }
            },
        }
    }
    assert(all.take(all.len() as int) =~= all);
    match root {
        Some(t) => {
            proof {
                let found = choose|tree: NodeModel| #[trigger] edges_of(tree) == all;
                lemma_edges_injective(found, t@);
            }
            Some(t)
        },
        None => {
            proof {
                lemma_frames_depth(open@);
                assert forall|tree: NodeModel| #[trigger] edges_of(tree) != all by {
                    lemma_tree_depth(tree);
                }
            }
            None
        },
    }
}

/// The tree of the document written in `markup`.
pub fn parse_document(markup: &str) -> (document: Node)
    ensures
        tree_of(document_edges(markup@)) == Some(document@),
{
    build_tree(parse_edges(markup)).unwrap()
}

} // verus!
