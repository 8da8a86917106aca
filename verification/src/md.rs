//! The markdown parser, as plain values.
//!
//! comrak hands back a tree in an arena. What the rest of the crate reads of a node is five
//! things: its name, the level and form of a heading, where it stands, and its children.
use comrak::nodes::NodeValue;
use vstd::prelude::*;
use crate::blocks::{Pos, Span};

verus! {

/// The markdown extensions a document is read with.
#[derive(Debug, Clone, Copy, PartialEq, Eq, Structural)]
pub struct Options {
    pub table: bool,
    pub tasklist: bool,
    pub strikethrough: bool,
    pub autolink: bool,
    pub footnotes: bool,
}

/// The parser configuration every view of a document goes through.
pub open spec fn extensions() -> Options {
    Options { table: true, tasklist: true, strikethrough: true, autolink: true, footnotes: true }
}

pub fn options() -> (r: Options)
    ensures
        r == extensions(),
{
    Options { table: true, tasklist: true, strikethrough: true, autolink: true, footnotes: true }
}

/// One node of the parsed document.
#[derive(Debug, Clone, Copy)]
pub struct MdNode {
    /// comrak's name for the kind of node.
    pub name: &'static str,
    /// Heading level; 0 for every other node.
    pub level: usize,
    /// A heading underlined rather than opened by a `#` run.
    pub setext: bool,
    /// Where comrak says the node stands, not yet brought into the bounds of the file.
    pub at: Span,
    /// How many children follow it.
    pub kids: usize,
}

/// The nodes of comrak's parse of `src` in document order, each before its children.
pub uninterp spec fn comrak_nodes(src: Seq<char>, o: Options) -> Seq<MdNode>;

/// A node from what comrak holds of it: its name, the level and form of a heading, the line and
/// column of its first byte and of its last, and the number of its children.
fn node_of(
    name: &'static str,
    heading: (u8, bool),
    line: usize,
    col: usize,
    end_line: usize,
    end_col: usize,
    kids: usize,
) -> (r: MdNode)
    ensures
        r == (MdNode {
            name,
            level: heading.0 as usize,
            setext: heading.1,
            at: Span {
                start: Pos { line, col },
                end: Pos { line: end_line, col: end_col },
            },
            kids,
        }),
{
    let at = Span { start: Pos::new(line, col), end: Pos::new(end_line, end_col) };
    MdNode { name, level: heading.0 as usize, setext: heading.1, at, kids }
}

/// `comrak::parse_document`, with the tree it returns read out node by node: in the order of
/// `Node::descendants`, of each node its `xml_node_name`, the level and form of a heading, its
/// `sourcepos` and the number of its `children`. Nothing is claimed of the nodes but that they are
/// determined by the text and the extensions.
#[verifier::external_body]
fn document_nodes(src: &str, o: Options) -> (r: Vec<MdNode>)
    ensures
        r@ == comrak_nodes(src@, o),
{
    let mut c = comrak::Options::default();
    let x = &mut c.extension;
    x.table = o.table; x.tasklist = o.tasklist;
    x.strikethrough = o.strikethrough; x.autolink = o.autolink;
    x.footnotes = o.footnotes;
    let arena = comrak::Arena::new();
    comrak::parse_document(&arena, src, &c).descendants().map(|n| {
        let d = n.data.borrow();
        let p = d.sourcepos;
        let heading = match d.value { NodeValue::Heading(h) => (h.level, h.setext), _ => (0, false) };
        node_of(d.value.xml_node_name(), heading, p.start.line, p.start.column, p.end.line, p.end.column, n.children().count())
    }).collect()
}

/// A parsed document, or a part of one.
pub struct Md {
    pub node: MdNode,
    pub kids: Vec<Md>,
}

/// The mathematical form of [`Md`].
pub struct MdTree {
    pub node: MdNode,
    pub kids: Seq<MdTree>,
}

impl Md {
    pub open spec fn shape(self) -> MdTree
        decreases self,
    {
        MdTree {
            node: self.node,
            kids: Seq::new(
                self.kids@.len(),
                |i: int|
                    if 0 <= i < self.kids@.len() {
                        self.kids@[i].shape()
                    } else {
                        arbitrary()
                    },
            ),
        }
    }
}

/// The shapes of a list of trees.
pub open spec fn shapes(v: Seq<Md>) -> Seq<MdTree> {
    Seq::new(v.len(), |i: int| v[i].shape())
}

/// The tree whose root is node `i` of a list in document order, and the index after its last node.
pub open spec fn grow(nodes: Seq<MdNode>, i: int) -> (MdTree, int)
    decreases nodes.len() - i, 0int,
{
    if 0 <= i < nodes.len() {
        let r = grow_kids(nodes, i + 1, nodes[i].kids as int);
        (MdTree { node: nodes[i], kids: r.0 }, r.1)
    } else {
        arbitrary()
    }
}

/// `n` trees one after the other from node `i` on, fewer where the list ends first.
pub open spec fn grow_kids(nodes: Seq<MdNode>, i: int, n: int) -> (Seq<MdTree>, int)
    decreases nodes.len() - i, 1int,
{
    if n <= 0 || !(0 <= i < nodes.len()) {
        (Seq::empty(), i)
    } else {
        let t = grow(nodes, i);
        let next = if i < t.1 <= nodes.len() {
            t.1
        } else {
            i + 1
        };
        let r = grow_kids(nodes, next, n - 1);
        (seq![t.0] + r.0, r.1)
    }
}

fn grown(nodes: &Vec<MdNode>, i: usize) -> (r: (Md, usize))
    requires
        i < nodes@.len(),
    ensures
        r.0.shape() == grow(nodes@, i as int).0,
        r.1 == grow(nodes@, i as int).1,
        i < r.1 <= nodes@.len(),
    decreases nodes@.len() - i, 0int,
{
    let _n: usize = nodes.len();
    let k = grown_kids(nodes, i + 1, nodes[i].kids);
    let m = Md { node: nodes[i], kids: k.0 };
    proof {
        assert(m.shape().kids =~= shapes(m.kids@));
    }
    (m, k.1)
}

fn grown_kids(nodes: &Vec<MdNode>, i: usize, n: usize) -> (r: (Vec<Md>, usize))
    requires
        i <= nodes@.len(),
    ensures
        shapes(r.0@) == grow_kids(nodes@, i as int, n as int).0,
        r.1 == grow_kids(nodes@, i as int, n as int).1,
        i <= r.1 <= nodes@.len(),
    decreases nodes@.len() - i, 1int,
{
    let mut out: Vec<Md> = Vec::new();
    let mut at: usize = i;
    let mut left: usize = n;
    proof {
        assert(shapes(out@) + grow_kids(nodes@, i as int, n as int).0 =~= grow_kids(nodes@, i as int, n as int).0);
    }
    while left > 0 && at < nodes.len()
        invariant
            i <= at <= nodes@.len(),
            shapes(out@) + grow_kids(nodes@, at as int, left as int).0 == grow_kids(
                nodes@,
                i as int,
                n as int,
            ).0,
            grow_kids(nodes@, at as int, left as int).1 == grow_kids(nodes@, i as int, n as int).1,
        decreases nodes@.len() - at,
    {
        let ghost before = shapes(out@);
        let t = grown(nodes, at);
        let next: usize = t.1;
        let ghost shape = t.0.shape();
        proof {
            let r = grow_kids(nodes@, next as int, left - 1);
            assert(before.push(shape) + r.0 =~= before + (seq![shape] + r.0));
        }
        out.push(t.0);
        proof {
            assert(shapes(out@) =~= before.push(shape));
        }
        at = next;
        left -= 1;
    }
    proof {
        assert(shapes(out@) =~= grow_kids(nodes@, i as int, n as int).0);
    }
    (out, at)
}

/// The children of the document that the nodes describe: the first node is the document itself.
pub open spec fn document(nodes: Seq<MdNode>) -> Seq<MdTree> {
    if nodes.len() == 0 {
        Seq::empty()
    } else {
        grow(nodes, 0).0.kids
    }
}

/// The top-level nodes of the document that `nodes` describe.
pub fn assemble(nodes: &Vec<MdNode>) -> (r: Vec<Md>)
    ensures
        shapes(r@) == document(nodes@),
{
    if nodes.len() == 0 {
        let out: Vec<Md> = Vec::new();
        proof {
            assert(shapes(out@) =~= document(nodes@));
        }
        return out;
    }
    let r = grown(nodes, 0);
    proof {
        assert(r.0.shape().kids =~= shapes(r.0.kids@));
    }
    r.0.kids
}

/// Reads a markdown document.
pub fn read(src: &str) -> (r: Vec<Md>)
    ensures
        shapes(r@) == document(comrak_nodes(src@, extensions())),
{
    assemble(&document_nodes(src, options()))
}

/// The nodes of a tree in document order, each before its children.
pub open spec fn listed(t: MdTree) -> Seq<MdNode>
    decreases t, 0int,
{
    seq![t.node] + listed_from(t.kids, 0)
}

/// The nodes of the trees from number `k` on, one tree after the other.
pub open spec fn listed_from(kids: Seq<MdTree>, k: int) -> Seq<MdNode>
    decreases kids, kids.len() - k,
{
    if 0 <= k < kids.len() {
        listed(kids[k]) + listed_from(kids, k + 1)
    } else {
        Seq::empty()
    }
}

/// Every node says how many children it has.
pub open spec fn counted(t: MdTree) -> bool
    decreases t,
{
    t.node.kids == t.kids.len() && forall|i: int| 0 <= i < t.kids.len() ==> counted(#[trigger] t.kids[i])
}

proof fn lemma_grow(nodes: Seq<MdNode>, i: int, t: MdTree)
    requires
        counted(t),
        0 <= i,
        i + listed(t).len() <= nodes.len(),
        forall|k: int| 0 <= k < listed(t).len() ==> nodes[i + k] == #[trigger] listed(t)[k],
    ensures
        grow(nodes, i) == (t, i + listed(t).len()),
    decreases t, 0int,
{
    let rest = listed_from(t.kids, 0);
    assert(listed(t)[0] == t.node);
    assert(nodes[i + 0] == listed(t)[0]);
    assert forall|k: int| 0 <= k < rest.len() implies nodes[i + 1 + k] == #[trigger] rest[k] by {
        assert(listed(t)[k + 1] == rest[k]);
        assert(nodes[i + (k + 1)] == listed(t)[k + 1]);
    }
    lemma_grow_kids(nodes, i + 1, t.kids, 0);
    assert(t.kids.skip(0) =~= t.kids);
}

proof fn lemma_grow_kids(nodes: Seq<MdNode>, i: int, kids: Seq<MdTree>, k: int)
    requires
        0 <= k <= kids.len(),
        forall|j: int| 0 <= j < kids.len() ==> counted(#[trigger] kids[j]),
        0 <= i,
        i + listed_from(kids, k).len() <= nodes.len(),
        forall|m: int|
            0 <= m < listed_from(kids, k).len() ==> nodes[i + m] == #[trigger] listed_from(kids, k)[m],
    ensures
        grow_kids(nodes, i, kids.len() - k) == (kids.skip(k), i + listed_from(kids, k).len()),
    decreases kids, kids.len() - k,
{
    if k == kids.len() {
        assert(kids.skip(k) =~= Seq::<MdTree>::empty());
    } else {
        let t = kids[k];
        let own = listed(t);
        let rest = listed_from(kids, k + 1);
        let all = listed_from(kids, k);
        assert(all == own + rest);
        assert(own.len() >= 1);
        assert forall|m: int| 0 <= m < own.len() implies nodes[i + m] == #[trigger] own[m] by {
            assert(all[m] == own[m]);
        }
        lemma_grow(nodes, i, t);
        let next = i + own.len();
        assert forall|m: int| 0 <= m < rest.len() implies nodes[next + m] == #[trigger] rest[m] by {
            assert(all[own.len() + m] == rest[m]);
            assert(nodes[i + (own.len() + m)] == all[own.len() + m]);
        }
        lemma_grow_kids(nodes, next, kids, k + 1);
        assert(seq![t] + kids.skip(k + 1) =~= kids.skip(k));
    }
}

/// A document is put together again as it was taken apart: from the list of its nodes in document
/// order, each with the number of its children, come the children of the document, every node in
/// its place and none lost.
pub proof fn law_a_document_is_put_together_whole(root: MdTree)
    requires
        counted(root),
    ensures
        document(listed(root)) == root.kids,
{
    lemma_grow(listed(root), 0, root);
}

/// A document is read with tables, task lists, strikethrough, bare links and footnotes.
pub proof fn law_every_extension_is_read()
    ensures
        extensions().table,
        extensions().tasklist,
        extensions().strikethrough,
        extensions().autolink,
        extensions().footnotes,
{
}

} // verus!
