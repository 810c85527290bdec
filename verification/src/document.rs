//! The engine's handle on one parsed document: selection, text and
//! attribute queries, and the bridge to the queue builder.

use vstd::prelude::*;
use vstd::string::StrSliceExecFns;
use vstd::string::StringExecFns;

use crate::error::BuildError;
use crate::queue::ReplacementMapping;
use crate::queue::emit_spec;
use crate::queue::queue_self_or_map;
use crate::schema::Attribute;
use crate::schema::QualifiedName;
use crate::schema::WriteInstruction;
use crate::schema::copy_attributes;
use crate::schema::copy_qualified_name;
use crate::schema::queue_view;
use crate::select::ActionableSelector;
use crate::select::all_below;
use crate::select::eval_selector;
use crate::select::resolve_selector;
use crate::select::sorted_strict;
use crate::tree::NodeKind;
use crate::tree::Tree;

verus! {

/// A selection result may only hold elements, text nodes and the root;
/// comments and processing instructions are silently excluded.
pub open spec fn selectable_kind(k: NodeKind) -> bool {
    k is Element || k is Text || k is Root
}

/// The concatenation of all text under `node`, in document order
/// (including `node` itself when it is a text node).
pub open spec fn deep_text_spec(t: Tree, node: int) -> Seq<char>
    decreases t.count() - node, 2nat, 0nat,
    when t.wf() && 0 <= node < t.count()
{
    match t.node(node).kind {
        NodeKind::Text => t.node(node).text@,
        NodeKind::Root => deep_text_children(t, node, 0),
        NodeKind::Element => deep_text_children(t, node, 0),
        _ => Seq::empty(),
    }
}

/// The concatenated deep text of the children of `node` from index `k`
/// on.
pub open spec fn deep_text_children(t: Tree, node: int, k: int) -> Seq<char>
    decreases t.count() - node, 1nat, t.children_of(node).len() - k,
    when t.wf() && 0 <= node < t.count() && 0 <= k
    via deep_text_children_decreases
{
    if k >= t.children_of(node).len() {
        Seq::empty()
    } else {
        deep_text_spec(t, t.children_of(node)[k] as int) + deep_text_children(t, node, k + 1)
    }
}

#[via_fn]
proof fn deep_text_children_decreases(t: Tree, node: int, k: int) {
    if t.wf() && 0 <= node < t.count() {
        assert(t.wf_node(node));
    }
}

/// Collects the deep text of `node` onto `acc`.
fn deep_text_onto(tree: &Tree, node: usize, acc: String) -> (r: String)
    requires
        tree.wf(),
        (node as int) < tree.count(),
    ensures
        r@ == acc@ + deep_text_spec(*tree, node as int),
    decreases tree.count() - node, 2nat, 0nat,
{
    let kind = tree.nodes[node].kind;
    proof {
        assert(tree.wf_node(node as int));
    }
    match kind {
        NodeKind::Text => {
            let mut s = acc;
            s.append(tree.nodes[node].text.as_str());
            s
        },
        NodeKind::Root | NodeKind::Element => {
            let len = tree.nodes[node].children.len();
            let mut s = acc;
            let mut k: usize = 0;
            while k < len
                invariant
                    tree.wf(),
                    (node as int) < tree.count(),
                    k <= len,
                    len == tree.children_of(node as int).len(),
                    s@ + deep_text_children(*tree, node as int, k as int) == acc@
                        + deep_text_children(*tree, node as int, 0),
                decreases len - k,
            {
                let c = tree.nodes[node].children[k];
                proof {
                    assert(tree.wf_node(node as int));
                }
                let s2 = deep_text_onto(tree, c, s);
                proof {
                    assert((s@ + deep_text_spec(*tree, c as int)) + deep_text_children(
                        *tree,
                        node as int,
                        k + 1,
                    ) =~= s@ + (deep_text_spec(*tree, c as int) + deep_text_children(
                        *tree,
                        node as int,
                        k + 1,
                    )));
                }
                s = s2;
                k = k + 1;
            }
            proof {
                assert(s@ + Seq::<char>::empty() =~= s@);
                assert(acc@ + deep_text_spec(*tree, node as int) == acc@ + deep_text_children(
                    *tree,
                    node as int,
                    0,
                ));
            }
            s
        },
        _ => {
            proof {
                assert(acc@ + Seq::<char>::empty() =~= acc@);
            }
            acc
        },
    }
}

/// One loaded document, ready to serve queries and to be rendered.
#[derive(Debug)]
pub struct DocumentWrapper {
    pub tree: Tree,
}

impl DocumentWrapper {
    pub open spec fn wf(self) -> bool {
        self.tree.wf()
    }

    /// Wraps a finished tree.
    pub fn new(tree: Tree) -> (r: DocumentWrapper)
        requires
            tree.wf(),
        ensures
            r.wf(),
            r.tree == tree,
    {
        DocumentWrapper { tree }
    }

    /// Evaluates a compiled selector from the given node, keeping only
    /// element, text and root results, deduplicated, in document order.
    pub fn select(&self, id: usize, selector: &ActionableSelector) -> (r: Vec<usize>)
        requires
            self.wf(),
            (id as int) < self.tree.count(),
        ensures
            sorted_strict(r@),
            all_below(r@, self.tree.count()),
            forall|c: usize|
                r@.contains(c) ==> eval_selector(self.tree, id, *selector).contains(c)
                    && selectable_kind(self.tree.node(c as int).kind),
            forall|c: usize|
                eval_selector(self.tree, id, *selector).contains(c) && (c as int)
                    < self.tree.count() && selectable_kind(self.tree.node(c as int).kind)
                    ==> r@.contains(c),
    {
        let raw = resolve_selector(&self.tree, id, selector);
        let mut out: Vec<usize> = Vec::new();
        let len = raw.len();
        let mut i: usize = 0;
        while i < len
            invariant
                self.wf(),
                i <= len,
                len == raw@.len(),
                sorted_strict(raw@),
                all_below(raw@, self.tree.count()),
                sorted_strict(out@),
                all_below(out@, self.tree.count()),
                forall|c: usize|
                    out@.contains(c) ==> raw@.contains(c) && selectable_kind(
                        self.tree.node(c as int).kind,
                    ),
                forall|j: int|
                    0 <= j < i && selectable_kind(
                        self.tree.node(#[trigger] raw@[j] as int).kind,
                    ) ==> out@.contains(raw@[j]),
            decreases len - i,
        {
            let c = raw[i];
            let kind = self.tree.nodes[c].kind;
            let keep = match kind {
                NodeKind::Element => true,
                NodeKind::Text => true,
                NodeKind::Root => true,
                _ => false,
            };
            if keep {
                let ghost pre = out@;
                crate::select::insert_sorted(&mut out, c);
                proof {
                    assert(raw@.contains(raw@[i as int]));
                    assert forall|k: int| 0 <= k < out@.len() implies (#[trigger] out@[k] as int)
                        < self.tree.count() by {
                        assert(out@.contains(out@[k]));
                    }
                }
            }
            i = i + 1;
        }
        proof {
            assert forall|c: usize|
                eval_selector(self.tree, id, *selector).contains(c) && (c as int)
                    < self.tree.count() && selectable_kind(
                self.tree.node(c as int).kind,
            ) implies out@.contains(c) by {
                assert(raw@.contains(c));
                let j = choose|j: int| 0 <= j < raw@.len() && raw@[j] == c;
                assert(selectable_kind(self.tree.node(raw@[j] as int).kind));
            }
        }
        out
    }

    /// The qualified name a selection response reports for a node:
    /// the element's own name, `#text` for text nodes, and the empty
    /// name for every other kind.
    pub fn qualified_name(&self, id: usize) -> (r: QualifiedName)
        requires
            self.wf(),
            (id as int) < self.tree.count(),
        ensures
            match self.tree.node(id as int).kind {
                NodeKind::Element => r@ == self.tree.node(id as int).name@,
                NodeKind::Text => r.uri@ == self.tree.node(id as int).name.uri@ && r.local_name@
                    == "#text"@,
                _ => r.uri@.len() == 0 && r.local_name@.len() == 0,
            },
    {
        let kind = self.tree.nodes[id].kind;
        match kind {
            NodeKind::Element => copy_qualified_name(&self.tree.nodes[id].name),
            NodeKind::Text => QualifiedName {
                uri: self.tree.nodes[id].name.uri.clone(),
                local_name: String::from_str("#text"),
            },
            _ => QualifiedName { uri: String::new(), local_name: String::new() },
        }
    }

    /// The concatenation of all descendant text in document order.
    pub fn text(&self, id: usize) -> (r: String)
        requires
            self.wf(),
            (id as int) < self.tree.count(),
        ensures
            r@ == deep_text_spec(self.tree, id as int),
    {
        let r = deep_text_onto(&self.tree, id, String::new());
        proof {
            assert(Seq::<char>::empty() + deep_text_spec(self.tree, id as int) =~= deep_text_spec(
                self.tree,
                id as int,
            ));
        }
        r
    }

    /// The node's own attribute list.
    pub fn attributes(&self, id: usize) -> (r: Vec<Attribute>)
        requires
            self.wf(),
            (id as int) < self.tree.count(),
        ensures
            r@.map_values(|a: Attribute| a@) == self.tree.node(id as int).attributes@.map_values(
                |a: Attribute| a@,
            ),
    {
        copy_attributes(&self.tree.nodes[id].attributes)
    }

    /// Builds the full serialization plan: the root rendered under mode
    /// `default`, with every override spliced in. The replace-depth
    /// budget exceeds the number of override entries, so only a cyclic
    /// mapping can exhaust it.
    pub fn to_write_instruction_queue(&self, results: &ReplacementMapping) -> (r: Result<
        Vec<WriteInstruction>,
        BuildError,
    >)
        requires
            self.wf(),
            results.entries@.len() < usize::MAX,
        ensures
            match r {
                Ok(q) => emit_spec(
                    self.tree,
                    *results,
                    0,
                    "default"@,
                    results.entries@.len() + 1,
                ) == Ok::<Seq<crate::schema::WriteInstructionView>, BuildError>(queue_view(q@)),
                Err(e) => emit_spec(
                    self.tree,
                    *results,
                    0,
                    "default"@,
                    results.entries@.len() + 1,
                ) == Err::<Seq<crate::schema::WriteInstructionView>, BuildError>(e),
            },
    {
        let mode = String::from_str("default");
        let n = results.len();
        let fuel = n + 1;
        proof {
            assert(self.tree.wf_node(0));
        }
        let r = queue_self_or_map(&self.tree, results, Vec::new(), 0, &mode, fuel);
        proof {
            assert(queue_view(Seq::<WriteInstruction>::empty()) =~= Seq::<
                crate::schema::WriteInstructionView,
            >::empty());
            if r is Ok {
                assert(Seq::<crate::schema::WriteInstructionView>::empty() + emit_spec(
                    self.tree,
                    *results,
                    0,
                    mode@,
                    fuel as nat,
                )->Ok_0 =~= emit_spec(self.tree, *results, 0, mode@, fuel as nat)->Ok_0);
            }
        }
        r
    }
}

} // verus!
