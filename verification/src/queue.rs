//! The write-instruction queue builder.
//!
//! `queue_self_or_map` walks the tree from a node, consulting the
//! override mapping: an overridden node's instructions are replayed
//! verbatim, except that each `Replace` splices in another node's
//! rendering under the named mode. Untouched subtrees are reproduced
//! structurally in document order. `Replace` indirection is guarded by
//! a depth budget: any chain deeper than the number of override
//! entries must revisit a key, so the builder fails with a distinct
//! recursion error instead of looping.

use vstd::prelude::*;
use vstd::string::StringExecFns;

use crate::error::BuildError;
use crate::schema::Attribute;
use crate::schema::copy_attributes;
use crate::schema::copy_instruction;
use crate::schema::copy_namespace;
use crate::schema::copy_namespaces;
use crate::schema::copy_qualified_name;
use crate::schema::Namespace;
use crate::schema::NamespaceView;
use crate::schema::QualifiedName;
use crate::schema::WriteInstruction;
use crate::schema::WriteInstructionView;
use crate::schema::queue_view;
use crate::tree::NodeKind;
use crate::tree::Tree;

verus! {

/// One override entry: the instructions replacing the rendering of
/// `node_id` under `mode`.
#[derive(Debug)]
pub struct ReplacementEntry {
    pub node_id: usize,
    pub mode: String,
    pub instructions: Vec<WriteInstruction>,
}

/// The override mapping accumulated from worker submissions: a table
/// from (node id, mode) to an instruction list, with unique keys.
#[derive(Debug)]
pub struct ReplacementMapping {
    pub entries: Vec<ReplacementEntry>,
}

/// The value stored for the first entry matching the key, scanning
/// from position `i` on.
pub open spec fn lookup_from(
    entries: Seq<ReplacementEntry>,
    i: int,
    node: int,
    mode: Seq<char>,
) -> Option<Seq<WriteInstructionView>>
    decreases entries.len() - i,
{
    if i < 0 || i >= entries.len() {
        None
    } else if entries[i].node_id == node && entries[i].mode@ == mode {
        Some(queue_view(entries[i].instructions@))
    } else {
        lookup_from(entries, i + 1, node, mode)
    }
}

impl ReplacementMapping {
    /// The instruction views stored under a key, if any.
    pub open spec fn lookup(self, node: int, mode: Seq<char>) -> Option<Seq<WriteInstructionView>> {
        lookup_from(self.entries@, 0, node, mode)
    }

    /// Keys are unique, so an insert that finds its key replaces the
    /// one entry that holds it.
    pub open spec fn wf(self) -> bool {
        forall|i: int, j: int|
            0 <= i < j < self.entries@.len() ==> !(self.entries@[i].node_id
                == self.entries@[j].node_id && self.entries@[i].mode@ == self.entries@[j].mode@)
    }

    /// An empty mapping.
    pub fn new() -> (r: ReplacementMapping)
        ensures
            r.wf(),
            r.entries@.len() == 0,
            forall|n: int, md: Seq<char>| r.lookup(n, md) is None,
    {
        ReplacementMapping { entries: Vec::new() }
    }

    /// Inserts one override, replacing any entry with the same key.
    /// Returns true when an entry was replaced.
    pub fn insert(
        &mut self,
        node_id: usize,
        mode: String,
        instructions: Vec<WriteInstruction>,
    ) -> (replaced: bool)
        requires
            old(self).wf(),
        ensures
            final(self).wf(),
            replaced <==> old(self).lookup(node_id as int, mode@) is Some,
            final(self).lookup(node_id as int, mode@) == Some(queue_view(instructions@)),
            forall|n: int, md: Seq<char>|
                !(n == node_id as int && md == mode@) ==> final(self).lookup(n, md) == old(
                    self,
                ).lookup(n, md),
            final(self).entries@.len() == old(self).entries@.len() + (if replaced {
                0int
            } else {
                1int
            }),
    {
        let len = self.entries.len();
        let mut i: usize = 0;
        while i < len
            invariant
                len == self.entries@.len(),
                i <= len,
                *self == *old(self),
                old(self).wf(),
                forall|k: int|
                    0 <= k < i ==> !(self.entries@[k].node_id == node_id
                        && self.entries@[k].mode@ == mode@),
            decreases len - i,
        {
            if self.entries[i].node_id == node_id && self.entries[i].mode.eq(&mode) {
                let ghost pre = self.entries@;
                self.entries[i] = ReplacementEntry { node_id, mode, instructions };
                proof {
                    let post = self.entries@;
                    assert(pre == old(self).entries@);
                    assert(post == pre.update(i as int, post[i as int]));
                    assert(pre[i as int].node_id == node_id && pre[i as int].mode@ == post[i
                        as int].mode@);
                    assert forall|a: int, b: int| 0 <= a < b < pre.len() implies !(pre[a].node_id
                        == pre[b].node_id && pre[a].mode@ == pre[b].mode@) by {
                        assert(!(old(self).entries@[a].node_id == old(self).entries@[b].node_id
                            && old(self).entries@[a].mode@ == old(self).entries@[b].mode@));
                    }
                    assert forall|a: int, b: int| 0 <= a < b < post.len() implies !(post[a].node_id
                        == post[b].node_id && post[a].mode@ == post[b].mode@) by {
                        assert(!(pre[a].node_id == pre[b].node_id && pre[a].mode@ == pre[b].mode@));
                        if a == i as int {
                            assert(post[a].node_id == pre[a].node_id && post[a].mode@
                                == pre[a].mode@);
                        }
                        if b == i as int {
                            assert(post[b].node_id == pre[b].node_id && post[b].mode@
                                == pre[b].mode@);
                        }
                    }
                    lemma_lookup_unique(pre, i as int, node_id as int, post[i as int].mode@);
                    lemma_lookup_update_hit(pre, pre, i as int);
                    assert(old(self).lookup(node_id as int, mode@) is Some);
                    assert forall|n: int, md: Seq<char>|
                        !(n == node_id as int && md == post[i as int].mode@) implies lookup_from(
                        post,
                        0,
                        n,
                        md,
                    ) == lookup_from(pre, 0, n, md) by {
                        lemma_lookup_update_other(pre, post, i as int, n, md);
                    }
                    lemma_lookup_update_hit(pre, post, i as int);
                }
                return true;
            }
            i = i + 1;
        }
        let ghost pre = self.entries@;
        self.entries.push(ReplacementEntry { node_id, mode, instructions });
        proof {
            let post = self.entries@;
            lemma_lookup_push(pre, post, node_id as int, post[pre.len() as int].mode@);
            if lookup_from(pre, 0, node_id as int, post[pre.len() as int].mode@) is Some {
                lemma_lookup_some_implies_match(pre, 0, node_id as int, post[pre.len() as int].mode@);
                assert(false);
            }
        }
        false
    }

    /// The number of stored overrides.
    pub fn len(&self) -> (n: usize)
        ensures
            n == self.entries@.len(),
    {
        self.entries.len()
    }

    /// Looks one key up.
    pub fn get<'a>(&'a self, node_id: usize, mode: &String) -> (r: Option<&'a Vec<
        WriteInstruction,
    >>)
        ensures
            match r {
                Some(v) => self.lookup(node_id as int, mode@) == Some(queue_view(v@)),
                None => self.lookup(node_id as int, mode@) is None,
            },
    {
        let len = self.entries.len();
        let mut i: usize = 0;
        while i < len
            invariant
                len == self.entries@.len(),
                i <= len,
                lookup_from(self.entries@, 0, node_id as int, mode@) == lookup_from(
                    self.entries@,
                    i as int,
                    node_id as int,
                    mode@,
                ),
            decreases len - i,
        {
            if self.entries[i].node_id == node_id && self.entries[i].mode.eq(mode) {
                return Some(&self.entries[i].instructions);
            }
            i = i + 1;
        }
        None
    }
}

/// A lookup that answers `Some` found a matching entry.
proof fn lemma_lookup_some_implies_match(
    entries: Seq<ReplacementEntry>,
    i: int,
    node: int,
    mode: Seq<char>,
)
    requires
        lookup_from(entries, i, node, mode) is Some,
        0 <= i,
    ensures
        exists|k: int|
            i <= k < entries.len() && entries[k].node_id == node && #[trigger] entries[k].mode@
                == mode,
    decreases entries.len() - i,
{
    if i < entries.len() {
        if entries[i].node_id == node && entries[i].mode@ == mode {
            assert(entries[i].mode@ == mode);
        } else {
            lemma_lookup_some_implies_match(entries, i + 1, node, mode);
        }
    }
}

/// In a unique-key table, no entry before or after `i` matches entry
/// `i`'s key.
proof fn lemma_lookup_unique(entries: Seq<ReplacementEntry>, i: int, node: int, mode: Seq<char>)
    requires
        0 <= i < entries.len(),
        entries[i].node_id == node,
        entries[i].mode@ == mode,
        forall|a: int, b: int|
            0 <= a < b < entries.len() ==> !(entries[a].node_id == entries[b].node_id
                && entries[a].mode@ == entries[b].mode@),
    ensures
        forall|k: int|
            0 <= k < entries.len() && k != i ==> !(entries[k].node_id == node
                && #[trigger] entries[k].mode@ == mode),
{
}

/// Updating entry `i` in place leaves lookups of other keys unchanged.
proof fn lemma_lookup_update_other(
    pre: Seq<ReplacementEntry>,
    post: Seq<ReplacementEntry>,
    i: int,
    n: int,
    md: Seq<char>,
)
    requires
        pre.len() == post.len(),
        0 <= i < pre.len(),
        forall|k: int| 0 <= k < pre.len() && k != i ==> post[k] == pre[k],
        post[i].node_id == pre[i].node_id,
        post[i].mode@ == pre[i].mode@,
        !(n == post[i].node_id && md == post[i].mode@),
    ensures
        forall|j: int| 0 <= j ==> lookup_from(post, j, n, md) == lookup_from(pre, j, n, md),
{
    assert forall|j: int| 0 <= j implies lookup_from(post, j, n, md) == lookup_from(
        pre,
        j,
        n,
        md,
    ) by {
        lemma_lookup_update_other_rec(pre, post, i, n, md, j);
    }
}

proof fn lemma_lookup_update_other_rec(
    pre: Seq<ReplacementEntry>,
    post: Seq<ReplacementEntry>,
    i: int,
    n: int,
    md: Seq<char>,
    j: int,
)
    requires
        pre.len() == post.len(),
        0 <= i < pre.len(),
        forall|k: int| 0 <= k < pre.len() && k != i ==> post[k] == pre[k],
        post[i].node_id == pre[i].node_id,
        post[i].mode@ == pre[i].mode@,
        !(n == post[i].node_id && md == post[i].mode@),
        0 <= j,
    ensures
        lookup_from(post, j, n, md) == lookup_from(pre, j, n, md),
    decreases pre.len() - j,
{
    if j < pre.len() {
        lemma_lookup_update_other_rec(pre, post, i, n, md, j + 1);
    }
}

/// After updating entry `i` in place, looking its key up finds the new
/// value, provided no earlier entry matches that key.
proof fn lemma_lookup_update_hit(pre: Seq<ReplacementEntry>, post: Seq<ReplacementEntry>, i: int)
    requires
        pre.len() == post.len(),
        0 <= i < pre.len(),
        forall|k: int| 0 <= k < pre.len() && k != i ==> post[k] == pre[k],
        forall|k: int|
            0 <= k < i ==> !(pre[k].node_id == post[i].node_id && #[trigger] pre[k].mode@
                == post[i].mode@),
    ensures
        lookup_from(post, 0, post[i].node_id as int, post[i].mode@) == Some(
            queue_view(post[i].instructions@),
        ),
{
    lemma_lookup_update_hit_rec(pre, post, i, 0);
}

proof fn lemma_lookup_update_hit_rec(
    pre: Seq<ReplacementEntry>,
    post: Seq<ReplacementEntry>,
    i: int,
    j: int,
)
    requires
        pre.len() == post.len(),
        0 <= i < pre.len(),
        forall|k: int| 0 <= k < pre.len() && k != i ==> post[k] == pre[k],
        forall|k: int|
            0 <= k < i ==> !(pre[k].node_id == post[i].node_id && #[trigger] pre[k].mode@
                == post[i].mode@),
        0 <= j <= i,
    ensures
        lookup_from(post, j, post[i].node_id as int, post[i].mode@) == Some(
            queue_view(post[i].instructions@),
        ),
    decreases i - j,
{
    if j < i {
        lemma_lookup_update_hit_rec(pre, post, i, j + 1);
    }
}

/// Appending an entry leaves all lookups of other keys unchanged and
/// resolves its own key to it when no earlier entry matched.
proof fn lemma_lookup_push(
    pre: Seq<ReplacementEntry>,
    post: Seq<ReplacementEntry>,
    node: int,
    mode: Seq<char>,
)
    requires
        post.len() == pre.len() + 1,
        forall|k: int| 0 <= k < pre.len() ==> post[k] == pre[k],
        post[pre.len() as int].node_id == node,
        post[pre.len() as int].mode@ == mode,
    ensures
        forall|n: int, md: Seq<char>, j: int|
            0 <= j && !(n == node && md == mode) ==> #[trigger] lookup_from(post, j, n, md)
                == lookup_from(pre, j, n, md),
        lookup_from(pre, 0, node, mode) is None ==> lookup_from(post, 0, node, mode) == Some(
            queue_view(post[pre.len() as int].instructions@),
        ),
{
    assert forall|n: int, md: Seq<char>, j: int|
        0 <= j && !(n == node && md == mode) implies #[trigger] lookup_from(post, j, n, md)
        == lookup_from(pre, j, n, md) by {
        lemma_lookup_push_other_rec(pre, post, node, mode, n, md, j);
    }
    if lookup_from(pre, 0, node, mode) is None {
        lemma_lookup_push_hit_rec(pre, post, node, mode, 0);
    }
}

proof fn lemma_lookup_push_other_rec(
    pre: Seq<ReplacementEntry>,
    post: Seq<ReplacementEntry>,
    node: int,
    mode: Seq<char>,
    n: int,
    md: Seq<char>,
    j: int,
)
    requires
        post.len() == pre.len() + 1,
        forall|k: int| 0 <= k < pre.len() ==> post[k] == pre[k],
        post[pre.len() as int].node_id == node,
        post[pre.len() as int].mode@ == mode,
        !(n == node && md == mode),
        0 <= j,
    ensures
        lookup_from(post, j, n, md) == lookup_from(pre, j, n, md),
    decreases post.len() - j,
{
    if j < post.len() {
        lemma_lookup_push_other_rec(pre, post, node, mode, n, md, j + 1);
    }
}

proof fn lemma_lookup_push_hit_rec(
    pre: Seq<ReplacementEntry>,
    post: Seq<ReplacementEntry>,
    node: int,
    mode: Seq<char>,
    j: int,
)
    requires
        post.len() == pre.len() + 1,
        forall|k: int| 0 <= k < pre.len() ==> post[k] == pre[k],
        post[pre.len() as int].node_id == node,
        post[pre.len() as int].mode@ == mode,
        lookup_from(pre, j, node, mode) is None,
        0 <= j <= pre.len(),
    ensures
        lookup_from(post, j, node, mode) == Some(queue_view(post[pre.len() as int].instructions@)),
    decreases post.len() - j,
{
    if j < pre.len() {
        lemma_lookup_push_hit_rec(pre, post, node, mode, j + 1);
    }
}


/// The parent of `node` when it is an element; the override fallback
/// redeclares only bindings the parent element does not already have.
pub open spec fn parent_element_of(t: Tree, node: int) -> Option<int> {
    match t.node(node).parent {
        Some(p) => if t.node(p as int).kind is Element {
            Some(p as int)
        } else {
            None
        },
        None => None,
    }
}

/// The views of a namespace list.
pub open spec fn ns_views(nss: Seq<Namespace>) -> Seq<NamespaceView> {
    nss.map_values(|n: Namespace| n@)
}

/// The bindings of `own` that `parent` does not already hold.
pub open spec fn keep_new_bindings(own: Seq<NamespaceView>, parent: Seq<NamespaceView>) -> Seq<
    NamespaceView,
>
    decreases own.len(),
{
    if own.len() == 0 {
        Seq::empty()
    } else if parent.contains(own[0]) {
        keep_new_bindings(own.drop_first(), parent)
    } else {
        seq![own[0]] + keep_new_bindings(own.drop_first(), parent)
    }
}

/// The bindings a structurally emitted element redeclares: the
/// set-difference against its parent element's visible bindings.
pub open spec fn new_bindings_view(t: Tree, node: int) -> Seq<NamespaceView> {
    match parent_element_of(t, node) {
        Some(p) => keep_new_bindings(
            ns_views(t.node(node).namespaces@),
            ns_views(t.node(p).namespaces@),
        ),
        None => ns_views(t.node(node).namespaces@),
    }
}

/// What the queue builder produces for one node under one mode, given
/// a replace-depth budget: the override entry replayed (with `Replace`
/// resolved), or the structural rendering.
pub open spec fn emit_spec(
    t: Tree,
    m: ReplacementMapping,
    node: int,
    mode: Seq<char>,
    fuel: nat,
) -> Result<Seq<WriteInstructionView>, BuildError>
    decreases fuel, t.count() - node, 2nat, 0nat,
    when t.wf() && 0 <= node < t.count()
{
    match m.lookup(node, mode) {
        Some(instrs) => replay_spec(t, m, instrs, 0, fuel),
        None => match t.node(node).kind {
            NodeKind::Root => match emit_children_spec(t, m, node, 0, mode, fuel) {
                Ok(cs) => Ok(seq![WriteInstructionView::Document] + cs),
                Err(e) => Err(e),
            },
            NodeKind::Element => match emit_children_spec(t, m, node, 0, mode, fuel) {
                Ok(cs) => Ok(
                    seq![
                        WriteInstructionView::StartElement { qualified_name: t.node(node).name@ },
                        WriteInstructionView::Namespaces { namespaces: new_bindings_view(t, node) },
                        WriteInstructionView::Attributes {
                            attributes: t.node(node).attributes@.map_values(|a: Attribute| a@),
                        },
                    ] + cs + seq![
                        WriteInstructionView::EndElement { qualified_name: t.node(node).name@ },
                    ],
                ),
                Err(e) => Err(e),
            },
            NodeKind::Text => Ok(seq![WriteInstructionView::Text { text: t.node(node).text@ }]),
            NodeKind::Comment => Ok(
                seq![WriteInstructionView::Comment { text: t.node(node).text@ }],
            ),
            NodeKind::PI => Ok(
                seq![
                    WriteInstructionView::PI {
                        target: t.node(node).name.local_name@,
                        value: t.node(node).text@,
                    },
                ],
            ),
        },
    }
}

/// The concatenated renderings of the children of `node` from index
/// `k` on.
pub open spec fn emit_children_spec(
    t: Tree,
    m: ReplacementMapping,
    node: int,
    k: int,
    mode: Seq<char>,
    fuel: nat,
) -> Result<Seq<WriteInstructionView>, BuildError>
    decreases fuel, t.count() - node, 1nat, t.children_of(node).len() - k,
    when t.wf() && 0 <= node < t.count() && 0 <= k
    via emit_children_spec_decreases
{
    if k >= t.children_of(node).len() {
        Ok(Seq::empty())
    } else {
        let c = t.children_of(node)[k] as int;
        match emit_spec(t, m, c, mode, fuel) {
            Ok(head) => match emit_children_spec(t, m, node, k + 1, mode, fuel) {
                Ok(rest) => Ok(head + rest),
                Err(e) => Err(e),
            },
            Err(e) => Err(e),
        }
    }
}

#[via_fn]
proof fn emit_children_spec_decreases(
    t: Tree,
    m: ReplacementMapping,
    node: int,
    k: int,
    mode: Seq<char>,
    fuel: nat,
) {
    if t.wf() && 0 <= node < t.count() {
        assert(t.wf_node(node));
    }
}

/// An override entry's instructions from index `k` on, with each
/// `Replace` resolved to the target's rendering at one budget less.
pub open spec fn replay_spec(
    t: Tree,
    m: ReplacementMapping,
    instrs: Seq<WriteInstructionView>,
    k: int,
    fuel: nat,
) -> Result<Seq<WriteInstructionView>, BuildError>
    decreases fuel, 0nat, 0nat, instrs.len() - k,
    when t.wf()
{
    if k < 0 || k >= instrs.len() {
        Ok(Seq::empty())
    } else {
        match instrs[k] {
            WriteInstructionView::Replace { node_id, mode } => {
                if fuel == 0 {
                    Err(BuildError::ReplaceRecursionLimit)
                } else if !(0 <= node_id < t.count()) {
                    Err(BuildError::ReplaceTargetMissing)
                } else {
                    match emit_spec(t, m, node_id, mode, (fuel - 1) as nat) {
                        Ok(head) => match replay_spec(t, m, instrs, k + 1, fuel) {
                            Ok(rest) => Ok(head + rest),
                            Err(e) => Err(e),
                        },
                        Err(e) => Err(e),
                    }
                }
            },
            _ => match replay_spec(t, m, instrs, k + 1, fuel) {
                Ok(rest) => Ok(seq![instrs[k]] + rest),
                Err(e) => Err(e),
            },
        }
    }
}

/// Combines an already-built prefix with the rest of a rendering.
pub open spec fn with_tail(
    acc: Seq<WriteInstructionView>,
    rest: Result<Seq<WriteInstructionView>, BuildError>,
) -> Result<Seq<WriteInstructionView>, BuildError> {
    match rest {
        Ok(tail) => Ok(acc + tail),
        Err(e) => Err(e),
    }
}

/// Whether a namespace list holds a binding with this view.
fn ns_in(list: &Vec<Namespace>, ns: &Namespace) -> (r: bool)
    ensures
        r == ns_views(list@).contains(ns@),
{
    let len = list.len();
    let mut i: usize = 0;
    while i < len
        invariant
            i <= len,
            len == list@.len(),
            forall|k: int| 0 <= k < i ==> ns_views(list@)[k] != ns@,
        decreases len - i,
    {
        if list[i].prefix.eq(&ns.prefix) && list[i].uri.eq(&ns.uri) {
            proof {
                assert(ns_views(list@)[i as int] == ns@);
            }
            return true;
        }
        proof {
            assert(ns_views(list@)[i as int] == list@[i as int]@);
        }
        i = i + 1;
    }
    proof {
        if ns_views(list@).contains(ns@) {
            let k = choose|k: int| 0 <= k < ns_views(list@).len() && ns_views(list@)[k] == ns@;
            assert(false);
        }
    }
    false
}

/// The bindings this element introduces beyond its parent element's.
fn new_bindings(tree: &Tree, node: usize) -> (r: Vec<Namespace>)
    requires
        tree.wf(),
        (node as int) < tree.count(),
    ensures
        r@.map_values(|n: Namespace| n@) == new_bindings_view(*tree, node as int),
{
    proof {
        assert(tree.wf_node(node as int));
    }
    let own = &tree.nodes[node].namespaces;
    let parent = tree.nodes[node].parent;
    let mut out: Vec<Namespace> = Vec::new();
    match parent {
        Some(p) => {
            if matches!(tree.nodes[p].kind, NodeKind::Element) {
                let plist = &tree.nodes[p].namespaces;
                let len = own.len();
                proof {
                    assert(ns_views(own@).skip(0) =~= ns_views(own@));
                    assert(out@.map_values(|n: Namespace| n@) =~= Seq::<NamespaceView>::empty());
                    assert(Seq::<NamespaceView>::empty() + keep_new_bindings(
                        ns_views(own@),
                        ns_views(plist@),
                    ) =~= keep_new_bindings(ns_views(own@), ns_views(plist@)));
                }
                let mut i: usize = 0;
                while i < len
                    invariant
                        i <= len,
                        len == own@.len(),
                        out@.map_values(|n: Namespace| n@) + keep_new_bindings(
                            ns_views(own@).skip(i as int),
                            ns_views(plist@),
                        ) =~= keep_new_bindings(ns_views(own@), ns_views(plist@)),
                    decreases len - i,
                {
                    let ghost pre = out@.map_values(|n: Namespace| n@);
                    proof {
                        assert(ns_views(own@).skip(i as int)[0] == ns_views(own@)[i as int]);
                        assert(ns_views(own@)[i as int] == own@[i as int]@);
                        assert(ns_views(own@).skip(i as int).drop_first() =~= ns_views(
                            own@,
                        ).skip(i + 1));
                    }
                    let ghost rest = keep_new_bindings(ns_views(own@).skip(i + 1), ns_views(plist@));
                    if !ns_in(plist, &own[i]) {
                        out.push(copy_namespace(&own[i]));
                        proof {
                            assert(out@.map_values(|n: Namespace| n@) =~= pre.push(
                                own@[i as int]@,
                            ));
                            assert(keep_new_bindings(ns_views(own@).skip(i as int), ns_views(plist@))
                                == seq![ns_views(own@)[i as int]] + rest);
                            assert(pre.push(own@[i as int]@) + rest =~= pre + (seq![
                                ns_views(own@)[i as int],
                            ] + rest));
                        }
                    } else {
                        proof {
                            assert(keep_new_bindings(ns_views(own@).skip(i as int), ns_views(plist@))
                                == rest);
                        }
                    }
                    i = i + 1;
                }
                proof {
                    assert(ns_views(own@).skip(len as int) =~= Seq::<NamespaceView>::empty());
                }
                return out;
            }
            let r = copy_namespaces(own);
            proof {
                assert(r@.map_values(|n: Namespace| n@) == new_bindings_view(*tree, node as int));
            }
            r
        },
        None => {
            let r = copy_namespaces(own);
            r
        },
    }
}

/// Renders `node` under `mode` onto the end of `queue`: the recursive
/// rule of the queue builder, with `fuel` bounding `Replace` depth.
pub fn queue_self_or_map(
    tree: &Tree,
    mapping: &ReplacementMapping,
    queue: Vec<WriteInstruction>,
    node: usize,
    mode: &String,
    fuel: usize,
) -> (r: Result<Vec<WriteInstruction>, BuildError>)
    requires
        tree.wf(),
        (node as int) < tree.count(),
    ensures
        with_tail(
            queue_view(queue@),
            emit_spec(*tree, *mapping, node as int, mode@, fuel as nat),
        ) == (match r {
            Ok(q) => Ok::<Seq<WriteInstructionView>, BuildError>(queue_view(q@)),
            Err(e) => Err::<Seq<WriteInstructionView>, BuildError>(e),
        }),
    decreases fuel, tree.count() - node, 2nat, 0nat,
{
    let found = mapping.get(node, mode);
    match found {
        Some(instrs) => {
            let ghost ivs = queue_view(instrs@);
            let len = instrs.len();
            let mut q = queue;
            let mut k: usize = 0;
            while k < len
                invariant
                    tree.wf(),
                    (node as int) < tree.count(),
                    k <= len,
                    len == ivs.len(),
                    ivs == queue_view(instrs@),
                    mapping.lookup(node as int, mode@) == Some(ivs),
                    with_tail(queue_view(q@), replay_spec(*tree, *mapping, ivs, k as int, fuel as nat))
                        == with_tail(
                        queue_view(queue@),
                        replay_spec(*tree, *mapping, ivs, 0, fuel as nat),
                    ),
                decreases len - k,
            {
                let ghost pre = queue_view(q@);
                proof {
                    assert(ivs[k as int] == instrs@[k as int]@);
                }
                match &instrs[k] {
                    WriteInstruction::Replace { node_id, mode: rmode } => {
                        if fuel == 0 {
                            return Err(BuildError::ReplaceRecursionLimit);
                        }
                        if !tree.owns(*node_id) {
                            return Err(BuildError::ReplaceTargetMissing);
                        }
                        let ghost sub_spec = emit_spec(
                            *tree,
                            *mapping,
                            *node_id as int,
                            rmode@,
                            (fuel - 1) as nat,
                        );
                        let sub = queue_self_or_map(tree, mapping, q, *node_id, rmode, fuel - 1);
                        match sub {
                            Ok(q2) => {
                                proof {
                                    assert(sub_spec is Ok && queue_view(q2@) == pre
                                        + sub_spec->Ok_0);
                                    lemma_with_tail_assoc();
                                }
                                q = q2;
                            },
                            Err(e) => {
                                proof {
                                    assert(sub_spec == Err::<Seq<WriteInstructionView>, BuildError>(
                                        e,
                                    ));
                                    assert(replay_spec(*tree, *mapping, ivs, k as int, fuel as nat)
                                        == Err::<Seq<WriteInstructionView>, BuildError>(e));
                                }
                                return Err(e);
                            },
                        }
                    },
                    _ => {
                        let w = copy_instruction(&instrs[k]);
                        q.push(w);
                        proof {
                            assert(queue_view(q@) =~= pre.push(ivs[k as int]));
                            assert(queue_view(q@) =~= pre + seq![ivs[k as int]]);
                        }
                    },
                }
                proof {
                    lemma_with_tail_assoc();
                }
                k = k + 1;
            }
            proof {
                assert(queue_view(q@) + Seq::<WriteInstructionView>::empty() =~= queue_view(q@));
            }
            Ok(q)
        },
        None => {
            let nd_kind = tree.nodes[node].kind;
            proof {
                assert(tree.wf_node(node as int));
            }
            match nd_kind {
                NodeKind::Root => {
                    let mut q = queue;
                    q.push(WriteInstruction::Document);
                    proof {
                        assert(queue_view(q@) =~= queue_view(queue@) + seq![
                            WriteInstructionView::Document,
                        ]);
                    }
                    let sub = emit_children(tree, mapping, q, node, mode, fuel);
                    proof {
                        lemma_with_tail_assoc();
                    }
                    sub
                },
                NodeKind::Element => {
                    let mut q = queue;
                    let ghost base = queue_view(queue@);
                    q.push(
                        WriteInstruction::StartElement {
                            qualified_name: copy_qualified_name(&tree.nodes[node].name),
                        },
                    );
                    q.push(WriteInstruction::Namespaces { namespaces: new_bindings(tree, node) });
                    q.push(
                        WriteInstruction::Attributes {
                            attributes: copy_attributes(&tree.nodes[node].attributes),
                        },
                    );
                    proof {
                        assert(queue_view(q@) =~= base + seq![
                            WriteInstructionView::StartElement {
                                qualified_name: tree.node(node as int).name@,
                            },
                            WriteInstructionView::Namespaces {
                                namespaces: new_bindings_view(*tree, node as int),
                            },
                            WriteInstructionView::Attributes {
                                attributes: tree.node(node as int).attributes@.map_values(
                                    |a: Attribute| a@,
                                ),
                            },
                        ]);
                    }
                    let ghost head = seq![
                        WriteInstructionView::StartElement {
                            qualified_name: tree.node(node as int).name@,
                        },
                        WriteInstructionView::Namespaces {
                            namespaces: new_bindings_view(*tree, node as int),
                        },
                        WriteInstructionView::Attributes {
                            attributes: tree.node(node as int).attributes@.map_values(
                                |a: Attribute| a@,
                            ),
                        },
                    ];
                    let ghost cres = emit_children_spec(
                        *tree,
                        *mapping,
                        node as int,
                        0,
                        mode@,
                        fuel as nat,
                    );
                    let sub = emit_children(tree, mapping, q, node, mode, fuel);
                    match sub {
                        Ok(mut q2) => {
                            let ghost mid = queue_view(q2@);
                            q2.push(
                                WriteInstruction::EndElement {
                                    qualified_name: copy_qualified_name(&tree.nodes[node].name),
                                },
                            );
                            proof {
                                let evw = WriteInstructionView::EndElement {
                                    qualified_name: tree.node(node as int).name@,
                                };
                                assert(cres is Ok && mid == (base + head) + cres->Ok_0);
                                assert(queue_view(q2@) =~= mid.push(evw));
                                assert(((base + head) + cres->Ok_0).push(evw) =~= base + (head
                                    + cres->Ok_0 + seq![evw]));
                            }
                            Ok(q2)
                        },
                        Err(e) => Err(e),
                    }
                },
                NodeKind::Text => {
                    let mut q = queue;
                    q.push(WriteInstruction::Text { text: tree.nodes[node].text.clone() });
                    proof {
                        assert(queue_view(q@) =~= queue_view(queue@) + seq![
                            WriteInstructionView::Text { text: tree.node(node as int).text@ },
                        ]);
                    }
                    Ok(q)
                },
                NodeKind::Comment => {
                    let mut q = queue;
                    q.push(WriteInstruction::Comment { text: tree.nodes[node].text.clone() });
                    proof {
                        assert(queue_view(q@) =~= queue_view(queue@) + seq![
                            WriteInstructionView::Comment { text: tree.node(node as int).text@ },
                        ]);
                    }
                    Ok(q)
                },
                NodeKind::PI => {
                    let mut q = queue;
                    q.push(
                        WriteInstruction::PI {
                            target: tree.nodes[node].name.local_name.clone(),
                            value: tree.nodes[node].text.clone(),
                        },
                    );
                    proof {
                        assert(queue_view(q@) =~= queue_view(queue@) + seq![
                            WriteInstructionView::PI {
                                target: tree.node(node as int).name.local_name@,
                                value: tree.node(node as int).text@,
                            },
                        ]);
                    }
                    Ok(q)
                },
            }
        },
    }
}

/// Concatenation under `with_tail` reassociates freely.
proof fn lemma_with_tail_assoc()
    ensures
        forall|a: Seq<WriteInstructionView>, b: Seq<WriteInstructionView>, r: Result<
            Seq<WriteInstructionView>,
            BuildError,
        >| #[trigger] with_tail(a + b, r) == with_tail(a, with_tail(b, r)),
{
    assert forall|a: Seq<WriteInstructionView>, b: Seq<WriteInstructionView>, r: Result<
        Seq<WriteInstructionView>,
        BuildError,
    >| #[trigger] with_tail(a + b, r) == with_tail(a, with_tail(b, r)) by {
        match r {
            Ok(tail) => {
                assert((a + b) + tail =~= a + (b + tail));
            },
            Err(e) => {},
        }
    }
}

/// Renders every child of `node` in document order.
fn emit_children(
    tree: &Tree,
    mapping: &ReplacementMapping,
    queue: Vec<WriteInstruction>,
    node: usize,
    mode: &String,
    fuel: usize,
) -> (r: Result<Vec<WriteInstruction>, BuildError>)
    requires
        tree.wf(),
        (node as int) < tree.count(),
    ensures
        with_tail(
            queue_view(queue@),
            emit_children_spec(*tree, *mapping, node as int, 0, mode@, fuel as nat),
        ) == (match r {
            Ok(q) => Ok::<Seq<WriteInstructionView>, BuildError>(queue_view(q@)),
            Err(e) => Err::<Seq<WriteInstructionView>, BuildError>(e),
        }),
    decreases fuel, tree.count() - node, 1nat, 0nat,
{
    let len = tree.nodes[node].children.len();
    let mut q = queue;
    let mut k: usize = 0;
    while k < len
        invariant
            tree.wf(),
            (node as int) < tree.count(),
            k <= len,
            len == tree.children_of(node as int).len(),
            with_tail(
                queue_view(q@),
                emit_children_spec(*tree, *mapping, node as int, k as int, mode@, fuel as nat),
            ) == with_tail(
                queue_view(queue@),
                emit_children_spec(*tree, *mapping, node as int, 0, mode@, fuel as nat),
            ),
        decreases len - k,
    {
        let c = tree.nodes[node].children[k];
        proof {
            assert(tree.wf_node(node as int));
        }
        let sub = queue_self_or_map(tree, mapping, q, c, mode, fuel);
        match sub {
            Ok(q2) => {
                q = q2;
            },
            Err(e) => {
                return Err(e);
            },
        }
        proof {
            lemma_with_tail_assoc();
        }
        k = k + 1;
    }
    proof {
        assert(queue_view(q@) + Seq::<WriteInstructionView>::empty() =~= queue_view(q@));
    }
    Ok(q)
}


/// Bindings already present at the parent are never redeclared.
proof fn lemma_keep_new_all_present(own: Seq<NamespaceView>, parent: Seq<NamespaceView>)
    requires
        forall|k: int| 0 <= k < own.len() ==> parent.contains(#[trigger] own[k]),
    ensures
        keep_new_bindings(own, parent) == Seq::<NamespaceView>::empty(),
    decreases own.len(),
{
    if own.len() > 0 {
        assert(parent.contains(own[0]));
        assert forall|k: int| 0 <= k < own.drop_first().len() implies parent.contains(
            #[trigger] own.drop_first()[k],
        ) by {
            assert(own.drop_first()[k] == own[k + 1]);
        }
        lemma_keep_new_all_present(own.drop_first(), parent);
    }
}

/// Namespace minimization: a child element whose visible bindings are
/// all already visible at its parent element — in particular one that
/// redeclares the identical prefix→uri binding — produces an empty
/// `Namespaces` instruction.
pub proof fn lemma_namespace_minimization(t: Tree, node: int, p: int)
    requires
        t.wf(),
        0 <= node < t.count(),
        parent_element_of(t, node) == Some(p),
        forall|k: int|
            0 <= k < ns_views(t.node(node).namespaces@).len() ==> ns_views(
                t.node(p).namespaces@,
            ).contains(#[trigger] ns_views(t.node(node).namespaces@)[k]),
    ensures
        new_bindings_view(t, node) == Seq::<NamespaceView>::empty(),
{
    lemma_keep_new_all_present(ns_views(t.node(node).namespaces@), ns_views(t.node(p).namespaces@));
}

} // verus!
