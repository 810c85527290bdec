//! The document tree model.
//!
//! Nodes are stored in one vector in document order (depth-first
//! preorder), so a node's id is also its document-order rank, and a
//! node's subtree is the contiguous id interval `[id, end)` recorded in
//! its `end` field. The `Tree::wf` invariant pins this layout down;
//! `TreeBuilder` is the intended way to make a tree, and it establishes
//! the invariant by construction.

use vstd::prelude::*;

use crate::schema::Attribute;
use crate::schema::Namespace;
use crate::schema::QualifiedName;

verus! {

/// The kind of one tree node.
#[derive(Debug, Clone, Copy, PartialEq, Eq, Structural)]
pub enum NodeKind {
    Root,
    Element,
    Text,
    Comment,
    PI,
}

/// One stored node. For a processing instruction the target is kept in
/// `name.local_name` and the content in `text`.
#[derive(Debug, Clone, PartialEq)]
pub struct NodeData {
    pub kind: NodeKind,
    pub name: QualifiedName,
    pub attributes: Vec<Attribute>,
    /// Every namespace binding visible at the node, not only the ones
    /// it declares itself. Empty on non-element nodes.
    pub namespaces: Vec<Namespace>,
    pub text: String,
    pub parent: Option<usize>,
    pub children: Vec<usize>,
    /// One past the last node of this subtree; 0 marks a node that a
    /// builder has not closed yet.
    pub end: usize,
}

/// `a` and `b` agree on everything but their tree links and extent.
pub open spec fn same_core(a: NodeData, b: NodeData) -> bool {
    &&& a.kind == b.kind
    &&& a.name == b.name
    &&& a.attributes == b.attributes
    &&& a.namespaces == b.namespaces
    &&& a.text == b.text
}

/// `res` is `nd` with its child list replaced by `cs`.
pub open spec fn with_children(nd: NodeData, cs: Seq<usize>, res: NodeData) -> bool {
    &&& same_core(nd, res)
    &&& res.parent == nd.parent
    &&& res.children@ == cs
    &&& res.end == nd.end
}

/// `res` is `nd` with its subtree end replaced by `e`.
pub open spec fn with_end(nd: NodeData, e: int, res: NodeData) -> bool {
    &&& same_core(nd, res)
    &&& res.parent == nd.parent
    &&& res.children == nd.children
    &&& res.end == e
}

/// An immutable document tree in preorder layout.
#[derive(Debug)]
pub struct Tree {
    pub nodes: Vec<NodeData>,
}

impl Tree {
    pub open spec fn count(self) -> int {
        self.nodes@.len() as int
    }

    pub open spec fn has_node(self, j: int) -> bool {
        0 <= j < self.count()
    }

    pub open spec fn node(self, j: int) -> NodeData {
        self.nodes@[j]
    }

    pub open spec fn end_of(self, j: int) -> int {
        self.node(j).end as int
    }

    pub open spec fn children_of(self, j: int) -> Seq<usize> {
        self.node(j).children@
    }

    /// `d` is a proper descendant of `a`.
    pub open spec fn strict_descendant(self, a: int, d: int) -> bool {
        a < d < self.end_of(a)
    }

    /// `a` is a proper ancestor of `d`: reachable from `d` by parent
    /// links.
    pub open spec fn is_ancestor_of(self, a: int, d: int) -> bool
        decreases d,
    {
        match self.node(d).parent {
            Some(p) => {
                if 0 <= p < d {
                    a == p || self.is_ancestor_of(a, p as int)
                } else {
                    false
                }
            },
            None => false,
        }
    }

    pub open spec fn wf_node(self, j: int) -> bool {
        let n = self.nodes@;
        let nd = n[j];
        let cs = nd.children@;
        &&& j < nd.end <= n.len()
        &&& (match nd.parent {
            Some(p) => (p as int) < j && 0 <= (p as int) && n[p as int].children@.contains(
                j as usize,
            ),
            None => j == 0,
        })
        &&& (j == 0 <==> nd.kind is Root)
        &&& (j == 0 ==> nd.parent is None && nd.end == n.len())
        &&& ((nd.kind is Text || nd.kind is Comment || nd.kind is PI) ==> cs.len() == 0)
        &&& (forall|k: int|
            0 <= k < cs.len() ==> j < #[trigger] cs[k] && (cs[k] as int) < nd.end
                && n[cs[k] as int].parent == Some(j as usize))
        &&& (forall|k: int, m: int| 0 <= k < m < cs.len() ==> cs[k] < cs[m])
        &&& (cs.len() == 0 ==> nd.end == j + 1)
        &&& (cs.len() > 0 ==> cs[0] == j + 1 && (forall|k: int|
            0 <= k < cs.len() - 1 ==> self.end_of(#[trigger] cs[k] as int) == cs[k + 1])
            && self.end_of(cs[cs.len() - 1] as int) == nd.end)
    }

    /// The preorder layout invariant. Every navigation and building
    /// function of the engine assumes and preserves it.
    pub open spec fn wf(self) -> bool {
        &&& 1 <= self.nodes@.len()
        &&& forall|j: int| 0 <= j < self.nodes@.len() ==> self.wf_node(j)
    }

    /// True when `id` names a node of this tree.
    pub fn owns(&self, id: usize) -> (r: bool)
        ensures
            r == self.has_node(id as int),
    {
        id < self.nodes.len()
    }
}

/// A child's subtree interval ends no later than its parent's.
proof fn lemma_child_end_le(t: Tree, q: int, c: usize)
    requires
        t.wf(),
        0 <= q < t.count(),
        t.children_of(q).contains(c),
    ensures
        t.end_of(c as int) <= t.end_of(q),
{
    assert(t.wf_node(q));
    let cs = t.children_of(q);
    let k = choose|k: int| 0 <= k < cs.len() && cs[k] == c;
    assert(cs[k] == c);
    if k == cs.len() - 1 {
        assert(t.end_of(cs[cs.len() - 1] as int) == t.node(q).end);
    } else {
        assert(t.end_of(cs[k] as int) == cs[k + 1]);
        assert(cs[k + 1] < t.node(q).end);
    }
}

/// An ancestor's subtree interval extends at least as far as a
/// descendant's.
proof fn lemma_anc_end_le(t: Tree, a: int, d: int)
    requires
        t.wf(),
        0 <= d < t.count(),
        t.is_ancestor_of(a, d),
    ensures
        t.end_of(d) <= t.end_of(a),
    decreases d,
{
    assert(t.wf_node(d));
    match t.node(d).parent {
        Some(p) => {
            lemma_child_end_le(t, p as int, d as usize);
            if a != p {
                lemma_anc_end_le(t, a, p as int);
            }
        },
        None => {},
    }
}

/// Preorder layout: every proper ancestor precedes its descendant and
/// its subtree interval contains it, so id order is document order.
pub proof fn lemma_ancestor_contains_descendant(t: Tree, a: int, d: int)
    requires
        t.wf(),
        0 <= d < t.count(),
        t.is_ancestor_of(a, d),
    ensures
        t.strict_descendant(a, d),
    decreases d,
{
    assert(t.wf_node(d));
    match t.node(d).parent {
        Some(p) => {
            assert(t.wf_node(p as int));
            let cs = t.children_of(p as int);
            let k = choose|k: int| 0 <= k < cs.len() && cs[k] == d as usize;
            assert(cs[k] == d as usize);
            assert(d < t.end_of(p as int));
            if a != p {
                lemma_ancestor_contains_descendant(t, a, p as int);
                lemma_anc_end_le(t, a, p as int);
            }
        },
        None => {},
    }
}

/// `post` extends `pre` by one node with the given kind, placed under
/// `pre`'s innermost open element; `open` says it was left open.
pub open spec fn appended_under_top(
    pre: TreeBuilder,
    post: TreeBuilder,
    id: int,
    kind: NodeKind,
    open: bool,
) -> bool {
    &&& id == pre.count()
    &&& post.nodes@.len() == pre.nodes@.len() + 1
    &&& post.stack@ == if open {
        pre.stack@.push(id as usize)
    } else {
        pre.stack@
    }
    &&& post.nodes@[id].kind == kind
    &&& post.nodes@[id].parent == Some(pre.top() as usize)
    &&& post.nodes@[id].children@.len() == 0
    &&& post.nodes@[id].end == if open {
        0int
    } else {
        id + 1
    }
    &&& forall|j: int|
        0 <= j < pre.nodes@.len() && j != pre.top() ==> post.nodes@[j] == pre.nodes@[j]
    &&& with_children(
        pre.nodes@[pre.top()],
        pre.nodes@[pre.top()].children@.push(id as usize),
        post.nodes@[pre.top()],
    )
}

/// The node vector's length fits in usize, so ids cast losslessly.
proof fn lemma_len_bound(b: TreeBuilder)
    ensures
        b.nodes@.len() <= usize::MAX,
{
    assert(b.nodes.len() == b.nodes@.len());
}

/// `post` is `pre` with its innermost open element closed off at the
/// current length.
pub open spec fn closed_top(pre: TreeBuilder, post: TreeBuilder) -> bool {
    &&& pre.stack@.len() > 1
    &&& post.stack@ == pre.stack@.drop_last()
    &&& post.nodes@.len() == pre.nodes@.len()
    &&& forall|j: int|
        0 <= j < pre.nodes@.len() && j != pre.top() ==> post.nodes@[j] == pre.nodes@[j]
    &&& with_end(pre.nodes@[pre.top()], pre.nodes@.len() as int, post.nodes@[pre.top()])
}

/// A stack entry never exceeds the top entry.
proof fn lemma_stack_max(b: TreeBuilder, x: usize)
    requires
        b.wf(),
        b.stack@.contains(x),
    ensures
        x as int <= b.top(),
{
    let k = choose|k: int| 0 <= k < b.stack@.len() && b.stack@[k] == x;
    if k < b.stack@.len() - 1 {
        assert(b.stack@[k] < b.stack@[b.stack@.len() - 1]);
    }
}

/// After a push, the open/closed marker still matches the stack.
#[verifier::rlimit(100)]
proof fn lemma_push_marker(pre: TreeBuilder, post: TreeBuilder, id: int, kind: NodeKind, open: bool)
    requires
        pre.wf(),
        appended_under_top(pre, post, id, kind, open),
    ensures
        forall|j: int|
            0 <= j < post.nodes@.len() ==> ((post.nodes@[j].end == 0) <==> post.stack@.contains(
                j as usize,
            )),
{
    reveal(TreeBuilder::wfb_node);
    lemma_len_bound(pre);
    let n = post.nodes@;
    let st = post.stack@;
    let on = pre.nodes@;
    let ost = pre.stack@;
    let p = pre.top();
    assert(ost.contains(ost[ost.len() - 1]));
    assert(on[p].end == 0);
    assert(forall|k: int| 0 <= k < ost.len() ==> (#[trigger] ost[k] as int) < id);
    assert forall|j: int| 0 <= j < n.len() implies ((n[j].end == 0) <==> st.contains(
        j as usize,
    )) by {
        if j < on.len() {
            assert(n[j].end == on[j].end);
            assert((on[j].end == 0) <==> ost.contains(j as usize));
            if ost.contains(j as usize) {
                let k = choose|k: int| 0 <= k < ost.len() && ost[k] == j as usize;
                assert(st[k] == j as usize);
            }
            if st.contains(j as usize) {
                let k = choose|k: int| 0 <= k < st.len() && st[k] == j as usize;
                if open && k == st.len() - 1 {
                    assert(st[k] == id as usize);
                    assert((j as usize) as int == j);
                    assert((id as usize) as int == id);
                    assert(false);
                }
                assert(ost[k] == j as usize);
            }
        } else {
            assert(j == id);
            if open {
                assert(st[st.len() - 1] == id as usize);
            } else {
                assert(n[id].end == id + 1);
                if st.contains(j as usize) {
                    let k = choose|k: int| 0 <= k < st.len() && st[k] == j as usize;
                    assert((ost[k] as int) < id);
                    assert((id as usize) as int == id);
                    assert(false);
                }
            }
        }
    }
}

/// After a push, the appended node satisfies the builder invariant.
#[verifier::rlimit(100)]
proof fn lemma_push_wf_new(pre: TreeBuilder, post: TreeBuilder, id: int, kind: NodeKind, open: bool)
    requires
        pre.wf(),
        appended_under_top(pre, post, id, kind, open),
        !(kind is Root),
        open <==> kind is Element,
    ensures
        post.wfb_node(id),
{
    reveal(TreeBuilder::wfb_node);
    lemma_len_bound(pre);
    let n = post.nodes@;
    let p = pre.top();
    assert(n[p].children@[n[p].children@.len() - 1] == id as usize);
    assert(n[p].children@.contains(id as usize));
    assert(id >= 1);
}

/// After a push, the node it was appended under satisfies the builder
/// invariant.
#[verifier::rlimit(100)]
proof fn lemma_push_wf_top(pre: TreeBuilder, post: TreeBuilder, id: int, kind: NodeKind, open: bool)
    requires
        pre.wf(),
        appended_under_top(pre, post, id, kind, open),
        !(kind is Root),
        open <==> kind is Element,
    ensures
        post.wfb_node(pre.top()),
{
    reveal(TreeBuilder::wfb_node);
    lemma_len_bound(pre);
    let n = post.nodes@;
    let on = pre.nodes@;
    let ost = pre.stack@;
    let p = pre.top();
    assert(ost.contains(ost[ost.len() - 1]));
    assert(on[p].end == 0);
    assert(pre.wfb_node(p));
    assert(p < on.len());
    let ocs = on[p].children@;
    let cs = n[p].children@;
    assert(cs == ocs.push(id as usize));
    assert(forall|k: int| 0 <= k < ocs.len() ==> cs[k] == ocs[k]);
    assert(cs[cs.len() - 1] == id as usize);
    // the old top is open, hence not a leaf kind
    assert(!(on[p].kind is Text || on[p].kind is Comment || on[p].kind is PI));
    assert(n[p].end == 0);
    // the old last child, if any, was closed exactly up to the old end
    if ocs.len() > 0 {
        let cl = ocs[ocs.len() - 1] as int;
        assert(p < cl && cl < on.len());
        assert(on[cl].end == 0 || on[cl].end == on.len());
        if on[cl].end == 0 {
            // an open node other than the top would be a stack entry
            // above the top
            assert(ost.contains(cl as usize));
            lemma_stack_max(pre, cl as usize);
            assert(false);
        }
        assert(cl != id && cl != p);
        assert(n[cl].end == on.len());
    } else {
        assert(p + 1 == on.len());
    }
    // children bounds, parents, order
    assert forall|k: int|
        0 <= k < cs.len() implies p < #[trigger] cs[k] && (cs[k] as int) < n.len()
        && n[cs[k] as int].parent == Some(p as usize) by {
        if k < ocs.len() {
            assert(cs[k] == ocs[k]);
            assert(p < ocs[k] && (ocs[k] as int) < on.len());
            assert(on[ocs[k] as int].parent == Some(p as usize));
            assert(cs[k] as int != p);
            if cs[k] as int != id {
                assert(n[cs[k] as int] == on[cs[k] as int]);
            }
        } else {
            assert(cs[k] == id as usize);
        }
    }
    assert forall|k: int, m: int| 0 <= k < m < cs.len() implies cs[k] < cs[m] by {
        if m == cs.len() - 1 {
            assert((cs[k] as int) < on.len());
            assert(cs[m] == id as usize);
        }
    }
    // the chain of child extents
    assert forall|k: int|
        0 <= k < cs.len() - 1 implies n[#[trigger] cs[k] as int].end == cs[k + 1] by {
        if k < ocs.len() - 1 {
            assert(on[cs[k] as int].end == ocs[k + 1]);
            assert(cs[k] as int != p && cs[k] as int != id);
        } else {
            assert(k == ocs.len() - 1);
            assert(cs[k + 1] == id as usize);
        }
    }
    if ocs.len() == 0 {
        assert(cs[0] == id as usize);
        assert(id == p + 1);
    }
    match n[p].parent {
        Some(pp) => {
            assert(on[pp as int].children@.contains(p as usize));
            assert(pp as int != p);
            assert(n[pp as int].children@.contains(p as usize));
        },
        None => {},
    }
}

/// After a push, every untouched node satisfies the builder invariant.
#[verifier::rlimit(100)]
proof fn lemma_push_wf_other(
    pre: TreeBuilder,
    post: TreeBuilder,
    id: int,
    kind: NodeKind,
    open: bool,
    j: int,
)
    requires
        pre.wf(),
        appended_under_top(pre, post, id, kind, open),
        !(kind is Root),
        open <==> kind is Element,
        0 <= j < pre.nodes@.len(),
        j != pre.top(),
    ensures
        post.wfb_node(j),
{
    reveal(TreeBuilder::wfb_node);
    lemma_len_bound(pre);
    let n = post.nodes@;
    let on = pre.nodes@;
    let ost = pre.stack@;
    let p = pre.top();
    assert(ost.contains(ost[ost.len() - 1]));
    assert(on[p].end == 0);
    assert(pre.wfb_node(j));
    assert(n[j] == on[j]);
    let cs = n[j].children@;
    assert(cs == on[j].children@);
    match n[j].parent {
        Some(pj) => {
            assert(on[pj as int].children@.contains(j as usize));
            if pj as int == p {
                let k = choose|k: int|
                    0 <= k < on[p].children@.len() && on[p].children@[k] == j as usize;
                assert(n[p].children@[k] == j as usize);
                assert(n[p].children@.contains(j as usize));
            }
        },
        None => {},
    }
    assert forall|k: int|
        0 <= k < cs.len() implies j < #[trigger] cs[k] && (cs[k] as int) < n.len()
        && n[cs[k] as int].parent == Some(j as usize) by {
        assert(on[cs[k] as int].parent == Some(j as usize));
        if cs[k] as int == p {
            assert(n[p].parent == on[p].parent);
        }
    }
    assert forall|k: int|
        0 <= k < cs.len() - 1 implies n[#[trigger] cs[k] as int].end == cs[k + 1] by {
        if cs[k] as int == p {
            assert(n[p].end == on[p].end);
        }
    }
    assert(n[j].end == on[j].end);
    if cs.len() > 0 {
        let cl = cs[cs.len() - 1] as int;
        if cl == p {
            assert(n[p].end == on[p].end);
            assert(on[p].end == 0);
        }
        if n[j].end == 0 && n[cl].end != 0 {
            // j is open but not the top, so its last child is the next
            // stack entry, which is open
            assert(ost.contains(j as usize));
            let k = choose|k: int| 0 <= k < ost.len() && ost[k] == j as usize;
            assert(ost[k] as int == j);
            if k == ost.len() - 1 {
                assert(j == p);
                assert(false);
            }
            assert({
                let ch = on[ost[k] as int].children@;
                ch.len() > 0 && ch[ch.len() - 1] == ost[k + 1]
            });
            assert(cl as usize == ost[k + 1]);
            assert(ost.contains(ost[k + 1]));
            assert(on[cl].end == 0);
            assert(cl != p);
            assert(n[cl].end == 0);
            assert(false);
        }
    }
    if n[j].end == 0 && cs.len() == 0 {
        // an open childless node is the top, and the top just gained a
        // child
        assert(ost.contains(j as usize));
        let k = choose|k: int| 0 <= k < ost.len() && ost[k] == j as usize;
        assert(ost[k] as int == j);
        if k < ost.len() - 1 {
            assert({
                let ch = on[ost[k] as int].children@;
                ch.len() > 0 && ch[ch.len() - 1] == ost[k + 1]
            });
            assert(on[j].children@.len() > 0);
            assert(false);
        }
        assert(j == p);
        assert(false);
    }
}

/// A push preserves the whole builder invariant.
#[verifier::rlimit(100)]
proof fn lemma_push_wf(pre: TreeBuilder, post: TreeBuilder, id: int, kind: NodeKind, open: bool)
    requires
        pre.wf(),
        appended_under_top(pre, post, id, kind, open),
        !(kind is Root),
        open <==> kind is Element,
    ensures
        post.wf(),
{
    reveal(TreeBuilder::wfb_node);
    lemma_len_bound(pre);
    let n = post.nodes@;
    let st = post.stack@;
    let on = pre.nodes@;
    let ost = pre.stack@;
    let p = pre.top();
    assert(ost.contains(ost[ost.len() - 1]));
    assert(on[p].end == 0);
    lemma_push_marker(pre, post, id, kind, open);
    // stack chain
    assert forall|k: int|
        0 <= k < st.len() - 1 implies {
        let ch = n[#[trigger] st[k] as int].children@;
        ch.len() > 0 && ch[ch.len() - 1] == st[k + 1]
    } by {
        if open && k == st.len() - 2 {
            assert(st[k] as int == p);
            assert(n[p].children@[n[p].children@.len() - 1] == id as usize);
        } else {
            assert(ost[k] as int != p || k == ost.len() - 1);
            if st[k] as int == p {
                assert(false);
            }
        }
    }
    assert forall|j: int| 0 <= j < n.len() implies post.wfb_node(j) by {
        if j == id {
            lemma_push_wf_new(pre, post, id, kind, open);
        } else if j == p {
            lemma_push_wf_top(pre, post, id, kind, open);
        } else {
            lemma_push_wf_other(pre, post, id, kind, open, j);
        }
    }
}

/// After a close, the open/closed marker still matches the stack.
#[verifier::rlimit(100)]
proof fn lemma_close_marker(pre: TreeBuilder, post: TreeBuilder)
    requires
        pre.wf(),
        closed_top(pre, post),
    ensures
        forall|j: int|
            0 <= j < post.nodes@.len() ==> ((post.nodes@[j].end == 0) <==> post.stack@.contains(
                j as usize,
            )),
{
    reveal(TreeBuilder::wfb_node);
    lemma_len_bound(pre);
    let n = post.nodes@;
    let st = post.stack@;
    let on = pre.nodes@;
    let ost = pre.stack@;
    let t = pre.top();
    assert(ost.contains(ost[ost.len() - 1]));
    assert(forall|k: int| 0 <= k < st.len() ==> st[k] == ost[k]);
    assert forall|j: int| 0 <= j < n.len() implies ((n[j].end == 0) <==> st.contains(
        j as usize,
    )) by {
        if j == t {
            assert(n[t].end == on.len());
            if st.contains(j as usize) {
                let k = choose|k: int| 0 <= k < st.len() && st[k] == j as usize;
                assert(ost[k] == j as usize);
                assert(ost[k] < ost[ost.len() - 1]);
                assert(ost[k] as int == j);
                assert(false);
            }
        } else {
            assert(n[j].end == on[j].end);
            assert((on[j].end == 0) <==> ost.contains(j as usize));
            if ost.contains(j as usize) {
                let k = choose|k: int| 0 <= k < ost.len() && ost[k] == j as usize;
                assert(ost[k] as int == j);
                assert(k != ost.len() - 1);
                assert(st[k] == j as usize);
            }
            if st.contains(j as usize) {
                let k = choose|k: int| 0 <= k < st.len() && st[k] == j as usize;
                assert(ost[k] == j as usize);
            }
        }
    }
}

/// After a close, the popped node satisfies the builder invariant.
#[verifier::rlimit(100)]
proof fn lemma_close_wf_popped(pre: TreeBuilder, post: TreeBuilder)
    requires
        pre.wf(),
        closed_top(pre, post),
    ensures
        post.wfb_node(pre.top()),
{
    reveal(TreeBuilder::wfb_node);
    lemma_len_bound(pre);
    let n = post.nodes@;
    let on = pre.nodes@;
    let ost = pre.stack@;
    let t = pre.top();
    assert(ost.contains(ost[ost.len() - 1]));
    assert(on[t].end == 0);
    assert(pre.wfb_node(t));
    assert(t < on.len());
    assert(n[t].end == on.len());
    let cs = n[t].children@;
    assert(cs == on[t].children@);
    assert forall|k: int|
        0 <= k < cs.len() implies t < #[trigger] cs[k] && (cs[k] as int) < n.len()
        && n[cs[k] as int].parent == Some(t as usize) && (cs[k] as int) < n[t].end by {
        assert(cs[k] as int != t);
        assert(n[cs[k] as int] == on[cs[k] as int]);
    }
    assert forall|k: int|
        0 <= k < cs.len() - 1 implies n[#[trigger] cs[k] as int].end == cs[k + 1] by {
        assert(cs[k] as int != t);
    }
    if cs.len() > 0 {
        let cl = cs[cs.len() - 1] as int;
        assert(on[cl].end == 0 || on[cl].end == on.len());
        if on[cl].end == 0 {
            assert(ost.contains(cl as usize));
            lemma_stack_max(pre, cl as usize);
            assert(false);
        }
        assert(cl != t);
        assert(n[cl].end == on.len());
    } else {
        assert(t + 1 == on.len());
    }
    match n[t].parent {
        Some(pp) => {
            assert(on[pp as int].children@.contains(t as usize));
            assert(pp as int != t);
            assert(n[pp as int].children@.contains(t as usize));
        },
        None => {},
    }
}

/// After a close, every untouched node satisfies the builder invariant.
#[verifier::rlimit(100)]
proof fn lemma_close_wf_other(pre: TreeBuilder, post: TreeBuilder, j: int)
    requires
        pre.wf(),
        closed_top(pre, post),
        0 <= j < pre.nodes@.len(),
        j != pre.top(),
    ensures
        post.wfb_node(j),
{
    reveal(TreeBuilder::wfb_node);
    lemma_len_bound(pre);
    let n = post.nodes@;
    let on = pre.nodes@;
    let ost = pre.stack@;
    let t = pre.top();
    assert(ost.contains(ost[ost.len() - 1]));
    assert(on[t].end == 0);
    assert(pre.wfb_node(j));
    assert(n[j] == on[j]);
    let cs = n[j].children@;
    assert forall|k: int|
        0 <= k < cs.len() implies j < #[trigger] cs[k] && (cs[k] as int) < n.len()
        && n[cs[k] as int].parent == Some(j as usize) by {
        assert(on[cs[k] as int].parent == Some(j as usize));
        if cs[k] as int == t {
            assert(n[t].parent == on[t].parent);
        }
    }
    assert forall|k: int|
        0 <= k < cs.len() - 1 implies n[#[trigger] cs[k] as int].end == cs[k + 1] by {
        if cs[k] as int == t {
            // the still-open popped node cannot be a non-last child
            assert(on[cs[k] as int].end == cs[k + 1]);
            assert(on[t].end == 0);
            assert(j < cs[k + 1]);
            assert(false);
        }
    }
    if cs.len() > 0 {
        let cl = cs[cs.len() - 1] as int;
        if cl == t {
            assert(n[t].end == on.len());
            if n[j].end != 0 {
                // a closed node cannot have had an open child
                assert(on[cl].end == on[j].end);
                assert(false);
            }
        }
    }
}

/// A close preserves the whole builder invariant.
#[verifier::rlimit(100)]
proof fn lemma_close_wf(pre: TreeBuilder, post: TreeBuilder)
    requires
        pre.wf(),
        closed_top(pre, post),
    ensures
        post.wf(),
{
    reveal(TreeBuilder::wfb_node);
    lemma_len_bound(pre);
    let n = post.nodes@;
    let st = post.stack@;
    let on = pre.nodes@;
    let ost = pre.stack@;
    let t = pre.top();
    assert(ost.contains(ost[ost.len() - 1]));
    assert(forall|k: int| 0 <= k < st.len() ==> st[k] == ost[k]);
    lemma_close_marker(pre, post);
    assert(st.len() >= 1);
    assert(st[0] == 0usize);
    assert forall|k: int|
        0 <= k < st.len() - 1 implies {
        let ch = n[#[trigger] st[k] as int].children@;
        ch.len() > 0 && ch[ch.len() - 1] == st[k + 1]
    } by {
        assert(ost[k] < ost[ost.len() - 1]);
        assert(st[k] as int != t);
        assert(n[st[k] as int] == on[st[k] as int]);
    }
    assert forall|j: int| 0 <= j < n.len() implies post.wfb_node(j) by {
        if j == t {
            lemma_close_wf_popped(pre, post);
        } else {
            lemma_close_wf_other(pre, post, j);
        }
    }
}

/// Builds a `Tree` in document order. The builder keeps the chain of
/// currently open elements (root first); new nodes are appended under
/// the innermost open one.
#[derive(Debug)]
pub struct TreeBuilder {
    pub nodes: Vec<NodeData>,
    pub stack: Vec<usize>,
}

impl TreeBuilder {
    pub open spec fn count(self) -> int {
        self.nodes@.len() as int
    }

    /// The innermost open node.
    pub open spec fn top(self) -> int {
        self.stack@[self.stack@.len() - 1] as int
    }

    #[verifier::opaque]
    pub open spec fn wfb_node(self, j: int) -> bool {
        let n = self.nodes@;
        let nd = n[j];
        let cs = nd.children@;
        &&& (match nd.parent {
            Some(p) => (p as int) < j && 0 <= (p as int) && n[p as int].children@.contains(
                j as usize,
            ),
            None => j == 0,
        })
        &&& (j == 0 <==> nd.kind is Root)
        &&& (j == 0 ==> nd.parent is None)
        &&& ((nd.kind is Text || nd.kind is Comment || nd.kind is PI) ==> cs.len() == 0 && nd.end
            == j + 1)
        &&& (nd.end != 0 ==> j < nd.end <= n.len())
        &&& (nd.end != 0 ==> forall|k: int|
            0 <= k < cs.len() ==> (#[trigger] cs[k] as int) < nd.end)
        &&& (nd.end != 0 && cs.len() == 0 ==> nd.end == j + 1)
        &&& (forall|k: int|
            0 <= k < cs.len() ==> j < #[trigger] cs[k] && (cs[k] as int) < n.len()
                && n[cs[k] as int].parent == Some(j as usize))
        &&& (forall|k: int, m: int| 0 <= k < m < cs.len() ==> cs[k] < cs[m])
        &&& (cs.len() > 0 ==> cs[0] == j + 1)
        &&& (forall|k: int| 0 <= k < cs.len() - 1 ==> n[#[trigger] cs[k] as int].end == cs[k + 1])
        &&& (cs.len() > 0 && nd.end != 0 ==> n[cs[cs.len() - 1] as int].end == nd.end)
        &&& (cs.len() > 0 && nd.end == 0 ==> {
            let cl = n[cs[cs.len() - 1] as int];
            cl.end == 0 || cl.end == n.len()
        })
        &&& (nd.end == 0 && cs.len() == 0 ==> j + 1 == n.len())
    }

    pub open spec fn wf(self) -> bool {
        let n = self.nodes@;
        let st = self.stack@;
        &&& 1 <= n.len()
        &&& 1 <= st.len()
        &&& st[0] == 0usize
        &&& (forall|k: int| 0 <= k < st.len() ==> (#[trigger] st[k] as int) < n.len())
        &&& (forall|k: int, m: int| 0 <= k < m < st.len() ==> st[k] < st[m])
        &&& (forall|k: int|
            0 <= k < st.len() - 1 ==> {
                let ch = n[#[trigger] st[k] as int].children@;
                ch.len() > 0 && ch[ch.len() - 1] == st[k + 1]
            })
        &&& (forall|j: int| 0 <= j < n.len() ==> ((n[j].end == 0) <==> st.contains(j as usize)))
        &&& (forall|j: int| 0 <= j < n.len() ==> self.wfb_node(j))
    }

    /// A fresh builder holding only the (still open) root node.
    pub fn new() -> (b: TreeBuilder)
        ensures
            b.wf(),
            b.nodes@.len() == 1,
            b.stack@ =~= seq![0usize],
            b.nodes@[0].kind is Root,
            b.nodes@[0].children@.len() == 0,
    {
        let root = NodeData {
            kind: NodeKind::Root,
            name: QualifiedName { uri: String::new(), local_name: String::new() },
            attributes: Vec::new(),
            namespaces: Vec::new(),
            text: String::new(),
            parent: None,
            children: Vec::new(),
            end: 0,
        };
        let mut nodes: Vec<NodeData> = Vec::new();
        nodes.push(root);
        let mut stack: Vec<usize> = Vec::new();
        stack.push(0);
        let b = TreeBuilder { nodes, stack };
        proof {
            reveal(TreeBuilder::wfb_node);
            assert(b.stack@[0] == 0usize);
            assert(b.stack@.contains(0usize));
            assert forall|j: int| 0 <= j < b.nodes@.len() implies b.wfb_node(j) by {
                assert(b.nodes@[0].children@.len() == 0);
            }
        }
        b
    }

    /// Appends one record and links it under `parent`, without touching
    /// the stack.
    fn push_record(&mut self, data: NodeData, parent: usize, open: bool) -> (id: usize)
        requires
            (parent as int) < old(self).nodes@.len(),
            data.children@.len() == 0,
        ensures
            id == old(self).nodes@.len(),
            final(self).nodes@.len() == old(self).nodes@.len() + 1,
            final(self).stack == old(self).stack,
            same_core(data, final(self).nodes@[id as int]),
            final(self).nodes@[id as int].parent == Some(parent),
            final(self).nodes@[id as int].children@.len() == 0,
            final(self).nodes@[id as int].end == if open {
                0int
            } else {
                id + 1
            },
            forall|j: int|
                0 <= j < old(self).nodes@.len() && j != parent as int ==> final(self).nodes@[j]
                    == old(self).nodes@[j],
            with_children(
                old(self).nodes@[parent as int],
                old(self).nodes@[parent as int].children@.push(id as usize),
                final(self).nodes@[parent as int],
            ),
    {
        let id = self.nodes.len();
        let mut data = data;
        data.parent = Some(parent);
        data.end = 0;
        self.nodes.push(data);
        if !open {
            let e = self.nodes.len();
            self.nodes[id].end = e;
        }
        self.nodes[parent].children.push(id);
        id
    }

    /// Appends one node under the innermost open element and returns
    /// its id; `open` says whether it starts a new open element.
    #[verifier::rlimit(100)]
    fn push_node(&mut self, data: NodeData, open: bool) -> (id: usize)
        requires
            old(self).wf(),
            data.children@.len() == 0,
            open <==> data.kind is Element,
            !(data.kind is Root),
        ensures
            final(self).wf(),
            appended_under_top(*old(self), *final(self), id as int, data.kind, open),
            same_core(data, final(self).nodes@[id as int]),
    {
        let parent = self.stack[self.stack.len() - 1];
        let id = self.push_record(data, parent, open);
        if open {
            self.stack.push(id);
        }
        proof {
            assert(appended_under_top(*old(self), *self, id as int, data.kind, open));
            lemma_push_wf(*old(self), *self, id as int, data.kind, open);
        }
        id
    }

    /// Opens a new element under the innermost open one.
    pub fn open_element(
        &mut self,
        name: QualifiedName,
        attributes: Vec<Attribute>,
        namespaces: Vec<Namespace>,
    ) -> (id: usize)
        requires
            old(self).wf(),
        ensures
            final(self).wf(),
            appended_under_top(*old(self), *final(self), id as int, NodeKind::Element, true),
            final(self).nodes@[id as int].name == name,
            final(self).nodes@[id as int].attributes == attributes,
            final(self).nodes@[id as int].namespaces == namespaces,
    {
        self.push_node(
            NodeData {
                kind: NodeKind::Element,
                name,
                attributes,
                namespaces,
                text: String::new(),
                parent: None,
                children: Vec::new(),
                end: 0,
            },
            true,
        )
    }

    /// Appends a text node under the innermost open element.
    pub fn text_node(&mut self, text: String) -> (id: usize)
        requires
            old(self).wf(),
        ensures
            final(self).wf(),
            appended_under_top(*old(self), *final(self), id as int, NodeKind::Text, false),
            final(self).nodes@[id as int].text == text,
    {
        self.push_node(
            NodeData {
                kind: NodeKind::Text,
                name: QualifiedName { uri: String::new(), local_name: String::new() },
                attributes: Vec::new(),
                namespaces: Vec::new(),
                text,
                parent: None,
                children: Vec::new(),
                end: 0,
            },
            false,
        )
    }

    /// Appends a comment node under the innermost open element.
    pub fn comment(&mut self, text: String) -> (id: usize)
        requires
            old(self).wf(),
        ensures
            final(self).wf(),
            appended_under_top(*old(self), *final(self), id as int, NodeKind::Comment, false),
            final(self).nodes@[id as int].text == text,
    {
        self.push_node(
            NodeData {
                kind: NodeKind::Comment,
                name: QualifiedName { uri: String::new(), local_name: String::new() },
                attributes: Vec::new(),
                namespaces: Vec::new(),
                text,
                parent: None,
                children: Vec::new(),
                end: 0,
            },
            false,
        )
    }

    /// Appends a processing-instruction node under the innermost open
    /// element.
    pub fn pi(&mut self, target: String, value: String) -> (id: usize)
        requires
            old(self).wf(),
        ensures
            final(self).wf(),
            appended_under_top(*old(self), *final(self), id as int, NodeKind::PI, false),
            final(self).nodes@[id as int].name.local_name == target,
            final(self).nodes@[id as int].text == value,
    {
        self.push_node(
            NodeData {
                kind: NodeKind::PI,
                name: QualifiedName { uri: String::new(), local_name: target },
                attributes: Vec::new(),
                namespaces: Vec::new(),
                text: value,
                parent: None,
                children: Vec::new(),
                end: 0,
            },
            false,
        )
    }

    /// Closes the innermost open element. Returns false (and changes
    /// nothing) when only the root is open.
    #[verifier::rlimit(100)]
    pub fn close_element(&mut self) -> (r: bool)
        requires
            old(self).wf(),
        ensures
            final(self).wf(),
            r <==> old(self).stack@.len() > 1,
            !r ==> *final(self) == *old(self),
            r ==> {
                &&& final(self).stack@ == old(self).stack@.drop_last()
                &&& final(self).nodes@.len() == old(self).nodes@.len()
                &&& forall|j: int|
                    0 <= j < old(self).nodes@.len() && j != old(self).top()
                        ==> final(self).nodes@[j] == old(self).nodes@[j]
                &&& with_end(
                    old(self).nodes@[old(self).top()],
                    old(self).nodes@.len() as int,
                    final(self).nodes@[old(self).top()],
                )
            },
    {
        if self.stack.len() <= 1 {
            return false;
        }
        let t = self.stack[self.stack.len() - 1];
        self.stack.pop();
        let e = self.nodes.len();
        self.nodes[t].end = e;
        proof {
            assert(closed_top(*old(self), *self));
            lemma_close_wf(*old(self), *self);
        }
        true
    }

    /// Closes every open element (the root last) and returns the
    /// finished tree.
    pub fn finish(self) -> (t: Tree)
        requires
            self.wf(),
        ensures
            t.wf(),
            t.nodes@.len() == self.nodes@.len(),
            forall|j: int|
                0 <= j < self.nodes@.len() ==> if self.nodes@[j].end == 0 {
                    with_end(self.nodes@[j], self.nodes@.len() as int, t.nodes@[j])
                } else {
                    t.nodes@[j] == self.nodes@[j]
                },
    {
        let mut b = self;
        let ghost orig = b;
        while b.stack.len() > 1
            invariant
                b.wf(),
                b.nodes@.len() == orig.nodes@.len(),
                forall|j: int|
                    0 <= j < orig.nodes@.len() ==> if orig.nodes@[j].end != 0 || b.nodes@[j].end
                        == 0 {
                        b.nodes@[j] == orig.nodes@[j]
                    } else {
                        with_end(orig.nodes@[j], orig.nodes@.len() as int, b.nodes@[j])
                    },
            decreases b.stack@.len(),
        {
            proof {
                let p = b.top();
                assert(b.stack@.contains(b.stack@[b.stack@.len() - 1]));
                assert(b.nodes@[p].end == 0);
            }
            b.close_element();
        }
        // close the root itself
        let e = b.nodes.len();
        proof {
            assert(b.stack@.len() == 1);
            assert(b.stack@[0] == 0usize);
            assert(b.stack@.contains(b.stack@[0]));
            assert(b.nodes@[0].end == 0);
        }
        let ghost pre = b;
        b.nodes[0].end = e;
        let t = Tree { nodes: b.nodes };
        proof {
            reveal(TreeBuilder::wfb_node);
            let n = t.nodes@;
            let on = pre.nodes@;
            assert(forall|j: int| 0 < j < on.len() ==> n[j] == on[j]);
            // everything but the root is closed now
            assert forall|j: int| 0 < j < n.len() implies n[j].end != 0 by {
                if on[j].end == 0 {
                    assert(pre.stack@.contains(j as usize));
                    let k = choose|k: int|
                        0 <= k < pre.stack@.len() && pre.stack@[k] == j as usize;
                    assert(k == 0);
                    assert(false);
                }
            }
            assert forall|j: int| 0 <= j < n.len() implies t.wf_node(j) by {
                assert(pre.wfb_node(j));
                let cs = n[j].children@;
                if j == 0 {
                    if cs.len() > 0 {
                        let cl = cs[cs.len() - 1] as int;
                        assert(on[cl].end == 0 || on[cl].end == on.len());
                        if on[cl].end == 0 {
                            assert(pre.stack@.contains(cl as usize));
                            let k = choose|k: int|
                                0 <= k < pre.stack@.len() && pre.stack@[k] == cl as usize;
                            assert(k == 0);
                            assert(false);
                        }
                        assert(n[cl].end == n.len());
                    }
                } else {
                    assert(n[j].end == on[j].end);
                    assert forall|k: int|
                        0 <= k < cs.len() - 1 implies t.end_of(#[trigger] cs[k] as int) == cs[k
                        + 1] by {
                        assert(cs[k] as int != 0);
                    }
                    if cs.len() > 0 {
                        assert(cs[cs.len() - 1] as int != 0);
                        assert(n[cs[cs.len() - 1] as int].end == on[cs[cs.len() - 1] as int].end);
                    }
                }
            }
        }
        t
    }
}

} // verus!
