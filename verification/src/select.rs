//! Path selectors and their evaluation.
//!
//! A selector is an ordered sequence of steps; each step walks one axis
//! from every node of the current set and keeps the candidates that
//! satisfy all of the step's requirements. Results are kept as strictly
//! ascending id vectors, which de-duplicates them and returns them in
//! document order with no separate sort pass.

use vstd::prelude::*;
use vstd::string::StrSliceExecFns;

use crate::schema::Attribute;
use crate::schema::Namespace;
use crate::tree::Tree;

verus! {

/// A tree-traversal relationship used by one selector step. `Ancestor`
/// and `Descendant` exclude the node itself; `Next` and `Previous` are
/// single-hop.
#[derive(Debug, Clone, Copy, PartialEq, Eq, Structural)]
pub enum Axis {
    Ancestor,
    Parent,
    Descendant,
    Child,
    Next,
    Previous,
    FollowingSibling,
    PrecedingSibling,
    Current,
}

/// A namespace requirement: either the prefix currently bound to the
/// name's uri, or the resolved uri itself.
#[derive(Debug, Clone, PartialEq)]
pub enum NamespaceReq {
    Prefix(String),
    Uri(String),
}

/// What an attribute's value must satisfy.
#[derive(Debug, Clone, PartialEq)]
pub enum AttributeOp {
    Exists,
    Equals(String),
    Contains(String),
}

/// One attribute requirement: at least one attribute passing the name
/// and namespace filters must satisfy the operation.
#[derive(Debug, Clone, PartialEq)]
pub struct AttributeRequirement {
    pub localname: Option<String>,
    pub namespace: Option<NamespaceReq>,
    pub op: AttributeOp,
}

/// One step of a selector.
#[derive(Debug)]
pub struct ActionableStep {
    pub axis: Axis,
    pub localname: Option<String>,
    pub namespace: Option<NamespaceReq>,
    pub attributes: Vec<AttributeRequirement>,
    /// Nested selectors that must evaluate to a non-empty set from the
    /// candidate node.
    pub paths: Vec<ActionableSelector>,
}

/// An executable selector: an ordered sequence of steps.
#[derive(Debug)]
pub struct ActionableSelector {
    pub steps: Vec<ActionableStep>,
}

/// Whether a character counts as whitespace when an attribute value is
/// split into tokens. Named after the result of `char::is_whitespace`,
/// which depends on the character alone.
pub uninterp spec fn unicode_whitespace(c: char) -> bool;

/// Relies on `char::is_whitespace` of std: a pure table lookup of the
/// Unicode white-space property.
#[verifier::external_body]
fn is_whitespace_char(c: char) -> (r: bool)
    ensures
        r == unicode_whitespace(c),
{
    c.is_whitespace()
}

/// `s[i..j]` is a maximal whitespace-free run of `s`.
pub open spec fn token_at(s: Seq<char>, i: int, j: int) -> bool {
    &&& 0 <= i < j <= s.len()
    &&& (forall|k: int| i <= k < j ==> !unicode_whitespace(#[trigger] s[k]))
    &&& (i == 0 || unicode_whitespace(s[i - 1]))
    &&& (j == s.len() || unicode_whitespace(s[j]))
}

/// `tok` occurs in `s` as a whitespace-separated token.
pub open spec fn has_token(s: Seq<char>, tok: Seq<char>) -> bool {
    exists|i: int, j: int| token_at(s, i, j) && s.subrange(i, j) == tok
}

/// The characters of `s`, one by one.
pub fn str_chars(s: &str) -> (r: Vec<char>)
    ensures
        r@ == s@,
{
    let n = s.unicode_len();
    let mut r: Vec<char> = Vec::new();
    let mut i: usize = 0;
    while i < n
        invariant
            i <= n,
            n == s@.len(),
            r@ == s@.subrange(0, i as int),
        decreases n - i,
    {
        r.push(s.get_char(i));
        proof {
            assert(r@ =~= s@.subrange(0, i + 1));
        }
        i = i + 1;
    }
    proof {
        assert(s@.subrange(0, n as int) =~= s@);
    }
    r
}

/// Compares the run `s[start..j]` with `tok`.
fn run_equals(s: &Vec<char>, start: usize, j: usize, tok: &Vec<char>) -> (r: bool)
    requires
        start <= j <= s@.len(),
    ensures
        r == (s@.subrange(start as int, j as int) == tok@),
{
    if j - start != tok.len() {
        proof {
            assert(s@.subrange(start as int, j as int).len() == j - start);
        }
        return false;
    }
    let mut k: usize = 0;
    while k < tok.len()
        invariant
            k <= tok@.len(),
            tok@.len() == j - start,
            start <= j <= s@.len(),
            forall|m: int| 0 <= m < k ==> s@[start + m] == tok@[m],
        decreases tok@.len() - k,
    {
        if s[start + k] != tok[k] {
            proof {
                assert(s@.subrange(start as int, j as int)[k as int] == s@[start + k]);
            }
            return false;
        }
        k = k + 1;
    }
    proof {
        assert(s@.subrange(start as int, j as int) =~= tok@);
    }
    true
}

/// Whether `value`, split on whitespace, contains the token `tok`.
fn contains_token(value: &str, tok: &str) -> (r: bool)
    ensures
        r == has_token(value@, tok@),
{
    let s = str_chars(value);
    let t = str_chars(tok);
    let n = s.len();
    let mut i: usize = 0;
    while i < n
        invariant
            i <= n,
            n == s@.len(),
            s@ == value@,
            t@ == tok@,
            i == 0 || i == n || unicode_whitespace(s@[i - 1]) || (i < n && unicode_whitespace(
                s@[i as int],
            )),
            forall|ti: int, tj: int|
                token_at(s@, ti, tj) && ti < i ==> s@.subrange(ti, tj) != tok@,
        decreases n - i,
    {
        if is_whitespace_char(s[i]) {
            proof {
                assert(forall|ti: int, tj: int|
                    token_at(s@, ti, tj) && ti < i + 1 ==> s@.subrange(ti, tj) != tok@);
            }
            i = i + 1;
        } else {
            let start = i;
            let mut j = i;
            while j < n && !is_whitespace_char(s[j])
                invariant
                    start <= j <= n,
                    n == s@.len(),
                    forall|k: int| start <= k < j ==> !unicode_whitespace(#[trigger] s@[k]),
                decreases n - j,
            {
                j = j + 1;
            }
            proof {
                assert(token_at(s@, start as int, j as int));
            }
            if run_equals(&s, start, j, &t) {
                return true;
            }
            proof {
                // every token beginning before j begins before or at
                // start, and the one at start ends exactly at j
                assert forall|ti: int, tj: int|
                    token_at(s@, ti, tj) && ti < j implies s@.subrange(ti, tj) != tok@ by {
                    if ti < start {
                    } else if ti == start {
                        if tj < j {
                            assert(!unicode_whitespace(s@[tj]));
                        } else if tj > j {
                            assert(unicode_whitespace(s@[j as int]));
                        }
                    } else {
                        assert(!unicode_whitespace(s@[ti - 1]));
                    }
                }
            }
            i = j;
        }
    }
    proof {
        assert forall|ti: int, tj: int| token_at(s@, ti, tj) implies s@.subrange(ti, tj)
            != tok@ by {
            assert(ti < n);
        }
        if has_token(value@, tok@) {
            let (ti, tj) = choose|ti: int, tj: int|
                token_at(value@, ti, tj) && value@.subrange(ti, tj) == tok@;
            assert(false);
        }
    }
    false
}

/// The prefix of the first visible binding of `uri`, scanning the
/// node's namespace list from position `i` on.
pub open spec fn ns_match_from(nss: Seq<Namespace>, uri: Seq<char>, i: int) -> Option<Seq<char>>
    decreases nss.len() - i,
{
    if i < 0 || i >= nss.len() {
        None
    } else if nss[i].uri@ == uri {
        Some(nss[i].prefix@)
    } else {
        ns_match_from(nss, uri, i + 1)
    }
}

/// The prefix bound to `uri` among the bindings visible at a node, if
/// any: the first match in declaration order.
pub open spec fn lookup_prefix_spec(nss: Seq<Namespace>, uri: Seq<char>) -> Option<Seq<char>> {
    ns_match_from(nss, uri, 0)
}

/// Finds the prefix bound to `uri` in a node's visible namespace list.
fn lookup_prefix<'a>(nss: &'a Vec<Namespace>, uri: &String) -> (r: Option<&'a String>)
    ensures
        match r {
            Some(px) => lookup_prefix_spec(nss@, uri@) == Some(px@),
            None => lookup_prefix_spec(nss@, uri@) is None,
        },
{
    let mut i: usize = 0;
    while i < nss.len()
        invariant
            i <= nss@.len(),
            ns_match_from(nss@, uri@, 0) == ns_match_from(nss@, uri@, i as int),
        decreases nss@.len() - i,
    {
        if nss[i].uri.eq(uri) {
            return Some(&nss[i].prefix);
        }
        i = i + 1;
    }
    None
}


/// Strictly ascending: sorted in document order with no duplicates.
pub open spec fn sorted_strict(s: Seq<usize>) -> bool {
    forall|k: int, m: int| 0 <= k < m < s.len() ==> s[k] < s[m]
}

/// `s` is the immediate next sibling of `n`: a later child of the same
/// parent with no sibling between them. Children are listed in document
/// order, which for a well-formed tree is id order.
pub open spec fn is_next_sibling(t: Tree, n: usize, s: usize) -> bool {
    match t.node(n as int).parent {
        Some(p) => t.children_of(p as int).contains(s) && n < s && (forall|c: usize|
            t.children_of(p as int).contains(c) ==> !(n < c && c < s)),
        None => false,
    }
}

/// `s` is the immediate preceding sibling of `n`.
pub open spec fn is_prev_sibling(t: Tree, n: usize, s: usize) -> bool {
    match t.node(n as int).parent {
        Some(p) => t.children_of(p as int).contains(s) && s < n && (forall|c: usize|
            t.children_of(p as int).contains(c) ==> !(s < c && c < n)),
        None => false,
    }
}

/// `s` is a later sibling of `n` (any distance).
pub open spec fn is_following_sibling(t: Tree, n: usize, s: usize) -> bool {
    match t.node(n as int).parent {
        Some(p) => t.children_of(p as int).contains(s) && n < s,
        None => false,
    }
}

/// `s` is an earlier sibling of `n` (any distance).
pub open spec fn is_preceding_sibling(t: Tree, n: usize, s: usize) -> bool {
    match t.node(n as int).parent {
        Some(p) => t.children_of(p as int).contains(s) && s < n,
        None => false,
    }
}

/// The candidate set one axis yields from node `n`.
pub open spec fn axis_set(t: Tree, n: usize, axis: Axis) -> Set<usize> {
    match axis {
        Axis::Ancestor => Set::new(|a: usize| t.is_ancestor_of(a as int, n as int)),
        Axis::Parent => match t.node(n as int).parent {
            Some(p) => set![p],
            None => Set::empty(),
        },
        Axis::Descendant => Set::new(|d: usize| t.strict_descendant(n as int, d as int)),
        Axis::Child => Set::new(|c: usize| t.children_of(n as int).contains(c)),
        Axis::Next => Set::new(|s: usize| is_next_sibling(t, n, s)),
        Axis::Previous => Set::new(|s: usize| is_prev_sibling(t, n, s)),
        Axis::FollowingSibling => Set::new(|s: usize| is_following_sibling(t, n, s)),
        Axis::PrecedingSibling => Set::new(|s: usize| is_preceding_sibling(t, n, s)),
        Axis::Current => set![n],
    }
}

/// The step's name requirement holds at node `c`.
pub open spec fn name_matches(t: Tree, c: usize, step: ActionableStep) -> bool {
    &&& match step.localname {
        Some(ln) => t.node(c as int).name.local_name@ == ln@,
        None => true,
    }
    &&& match step.namespace {
        Some(NamespaceReq::Uri(u)) => t.node(c as int).name.uri@.len() > 0 && t.node(
            c as int,
        ).name.uri@ == u@,
        Some(NamespaceReq::Prefix(px)) => t.node(c as int).name.uri@.len() > 0
            && lookup_prefix_spec(t.node(c as int).namespaces@, t.node(c as int).name.uri@)
            == Some(px@),
        None => true,
    }
}

/// One attribute of node `c` passes the requirement's filters and
/// operation.
pub open spec fn attr_matches(t: Tree, c: usize, attr: Attribute, req: AttributeRequirement) -> bool {
    &&& match req.localname {
        Some(ln) => attr.qualified_name.local_name@ == ln@,
        None => true,
    }
    &&& match req.namespace {
        Some(NamespaceReq::Uri(u)) => attr.qualified_name.uri@.len() > 0
            && attr.qualified_name.uri@ == u@,
        Some(NamespaceReq::Prefix(px)) => attr.qualified_name.uri@.len() > 0 && lookup_prefix_spec(
            t.node(c as int).namespaces@,
            attr.qualified_name.uri@,
        ) == Some(px@),
        None => true,
    }
    &&& match req.op {
        AttributeOp::Exists => true,
        AttributeOp::Equals(v) => attr.value@ == v@,
        AttributeOp::Contains(v) => has_token(attr.value@, v@),
    }
}

/// Some attribute of node `c` satisfies the requirement.
pub open spec fn attr_req_holds(t: Tree, c: usize, req: AttributeRequirement) -> bool {
    exists|k: int|
        0 <= k < t.node(c as int).attributes@.len() && attr_matches(
            t,
            c,
            #[trigger] t.node(c as int).attributes@[k],
            req,
        )
}

/// The set holds at least one node.
pub open spec fn set_nonempty(s: Set<usize>) -> bool {
    exists|m: usize| s.contains(m)
}

/// Node `c` satisfies all of the step's requirements.
pub open spec fn node_matches(t: Tree, c: usize, step: ActionableStep) -> bool
    decreases step, 0nat,
{
    &&& name_matches(t, c, step)
    &&& (forall|k: int|
        0 <= k < step.attributes@.len() ==> attr_req_holds(t, c, #[trigger] step.attributes@[k]))
    &&& (forall|k: int|
        0 <= k < step.paths@.len() ==> set_nonempty(eval_selector(t, c, #[trigger] step.paths@[k])))
}

/// Node `c` belongs to the step's result from the current set `cur`.
pub open spec fn in_step(t: Tree, cur: Set<usize>, step: ActionableStep, c: usize) -> bool
    decreases step, 1nat,
{
    &&& node_matches(t, c, step)
    &&& exists|n: usize| #[trigger] cur.contains(n) && axis_set(t, n, step.axis).contains(c)
}

/// The result set of one step applied to the current set.
pub open spec fn step_set(t: Tree, cur: Set<usize>, step: ActionableStep) -> Set<usize>
    decreases step, 2nat,
{
    Set::new(|c: usize| in_step(t, cur, step, c))
}

/// The result of the remaining steps applied to the current set.
pub open spec fn eval_steps(t: Tree, cur: Set<usize>, steps: Seq<ActionableStep>) -> Set<usize>
    decreases steps, 3nat,
{
    if steps.len() == 0 {
        cur
    } else {
        eval_steps(t, step_set(t, cur, steps[0]), steps.drop_first())
    }
}

/// The deduplicated result set of a selector evaluated from `start`.
pub open spec fn eval_selector(t: Tree, start: usize, sel: ActionableSelector) -> Set<usize>
    decreases sel, 4nat,
{
    eval_steps(t, set![start], sel.steps@)
}

/// Every ancestor lies strictly before its descendant in document
/// order.
pub proof fn lemma_anc_lt(t: Tree, a: int, d: int)
    requires
        t.is_ancestor_of(a, d),
    ensures
        a < d,
    decreases d,
{
    match t.node(d).parent {
        Some(p) => {
            if 0 <= p < d && a != p {
                lemma_anc_lt(t, a, p as int);
            }
        },
        None => {},
    }
}

/// Ancestry extends through one more parent link.
proof fn lemma_anc_step(t: Tree, n: int, a: int, p: int)
    requires
        t.is_ancestor_of(a, n),
        t.node(a).parent == Some(p as usize),
        0 <= p < a,
    ensures
        t.is_ancestor_of(p, n),
    decreases n,
{
    match t.node(n).parent {
        Some(q) => {
            if 0 <= q < n {
                if a == q {
                    assert(t.is_ancestor_of(p, q as int));
                } else {
                    lemma_anc_step(t, q as int, a, p);
                }
            }
        },
        None => {},
    }
}

/// Inserts `x` into a strictly ascending vector, keeping it strictly
/// ascending; inserting a present element changes nothing.
pub fn insert_sorted(v: &mut Vec<usize>, x: usize)
    requires
        sorted_strict(old(v)@),
    ensures
        sorted_strict(final(v)@),
        forall|y: usize| final(v)@.contains(y) <==> (old(v)@.contains(y) || y == x),
{
    let mut pos: usize = 0;
    while pos < v.len() && v[pos] < x
        invariant
            pos <= v@.len(),
            sorted_strict(v@),
            forall|k: int| 0 <= k < pos ==> v@[k] < x,
        decreases v@.len() - pos,
    {
        pos = pos + 1;
    }
    if pos < v.len() && v[pos] == x {
        proof {
            assert(v@.contains(v@[pos as int]));
        }
        return ;
    }
    let ghost oldv = v@;
    v.insert(pos, x);
    proof {
        assert(v@ == oldv.insert(pos as int, x));
        assert(forall|k: int| 0 <= k < pos ==> v@[k] == oldv[k]);
        assert(v@[pos as int] == x);
        assert(forall|k: int| pos < k < v@.len() ==> v@[k] == oldv[k - 1]);
        assert(forall|k: int| pos <= k < oldv.len() ==> oldv[k] >= x);
        assert forall|k: int, m: int| 0 <= k < m < v@.len() implies v@[k] < v@[m] by {
            if k == pos {
                assert(oldv[m - 1] >= x);
                assert(oldv[m - 1] != x);
            } else if m == pos {
            } else if k < pos && m > pos {
                assert(oldv[m - 1] >= x);
            }
        }
        assert forall|y: usize| v@.contains(y) <==> (oldv.contains(y) || y == x) by {
            if v@.contains(y) {
                let k = choose|k: int| 0 <= k < v@.len() && v@[k] == y;
                if k < pos {
                    assert(oldv[k] == y);
                } else if k > pos {
                    assert(oldv[k - 1] == y);
                }
            }
            if oldv.contains(y) {
                let k = choose|k: int| 0 <= k < oldv.len() && oldv[k] == y;
                if k < pos {
                    assert(v@[k] == y);
                } else {
                    assert(v@[k + 1] == y);
                }
            }
            if y == x {
                assert(v@[pos as int] == y);
            }
        }
    }
}


/// Every entry names a node of a tree with `n` nodes.
pub open spec fn all_below(s: Seq<usize>, n: int) -> bool {
    forall|k: int| 0 <= k < s.len() ==> (#[trigger] s[k] as int) < n
}

/// One attribute against one requirement.
fn attr_matches_exec(tree: &Tree, c: usize, attr: &Attribute, req: &AttributeRequirement) -> (r:
    bool)
    requires
        tree.wf(),
        (c as int) < tree.count(),
    ensures
        r == attr_matches(*tree, c, *attr, *req),
{
    match &req.localname {
        Some(ln) => {
            if !attr.qualified_name.local_name.eq(ln) {
                return false;
            }
        },
        None => {},
    }
    match &req.namespace {
        Some(NamespaceReq::Uri(u)) => {
            if attr.qualified_name.uri.as_str().is_empty() {
                return false;
            }
            if !attr.qualified_name.uri.eq(u) {
                return false;
            }
        },
        Some(NamespaceReq::Prefix(px)) => {
            if attr.qualified_name.uri.as_str().is_empty() {
                return false;
            }
            match lookup_prefix(&tree.nodes[c].namespaces, &attr.qualified_name.uri) {
                Some(p) => {
                    if !p.eq(px) {
                        return false;
                    }
                },
                None => {
                    return false;
                },
            }
        },
        None => {},
    }
    match &req.op {
        AttributeOp::Exists => true,
        AttributeOp::Equals(v) => attr.value.eq(v),
        AttributeOp::Contains(v) => contains_token(attr.value.as_str(), v.as_str()),
    }
}

/// Whether some attribute of node `c` satisfies the requirement.
fn attr_requirement_holds(tree: &Tree, c: usize, req: &AttributeRequirement) -> (r: bool)
    requires
        tree.wf(),
        (c as int) < tree.count(),
    ensures
        r == attr_req_holds(*tree, c, *req),
{
    let n = tree.nodes[c].attributes.len();
    let mut k: usize = 0;
    while k < n
        invariant
            tree.wf(),
            (c as int) < tree.count(),
            k <= n,
            n == tree.node(c as int).attributes@.len(),
            forall|m: int|
                0 <= m < k ==> !attr_matches(
                    *tree,
                    c,
                    #[trigger] tree.node(c as int).attributes@[m],
                    *req,
                ),
        decreases n - k,
    {
        if attr_matches_exec(tree, c, &tree.nodes[c].attributes[k], req) {
            return true;
        }
        k = k + 1;
    }
    false
}

/// Whether node `c` satisfies all requirements of the step.
fn node_condition(tree: &Tree, c: usize, step: &ActionableStep) -> (r: bool)
    requires
        tree.wf(),
        (c as int) < tree.count(),
    ensures
        r == node_matches(*tree, c, *step),
    decreases *step, 0nat,
{
    match &step.localname {
        Some(ln) => {
            if !tree.nodes[c].name.local_name.eq(ln) {
                return false;
            }
        },
        None => {},
    }
    match &step.namespace {
        Some(NamespaceReq::Uri(u)) => {
            if tree.nodes[c].name.uri.as_str().is_empty() {
                return false;
            }
            if !tree.nodes[c].name.uri.eq(u) {
                return false;
            }
        },
        Some(NamespaceReq::Prefix(px)) => {
            if tree.nodes[c].name.uri.as_str().is_empty() {
                return false;
            }
            match lookup_prefix(&tree.nodes[c].namespaces, &tree.nodes[c].name.uri) {
                Some(p) => {
                    if !p.eq(px) {
                        return false;
                    }
                },
                None => {
                    return false;
                },
            }
        },
        None => {},
    }
    let na = step.attributes.len();
    let mut k: usize = 0;
    while k < na
        invariant
            tree.wf(),
            (c as int) < tree.count(),
            k <= na,
            na == step.attributes@.len(),
            forall|m: int|
                0 <= m < k ==> attr_req_holds(*tree, c, #[trigger] step.attributes@[m]),
        decreases na - k,
    {
        if !attr_requirement_holds(tree, c, &step.attributes[k]) {
            return false;
        }
        k = k + 1;
    }
    let np = step.paths.len();
    let mut k2: usize = 0;
    while k2 < np
        invariant
            tree.wf(),
            (c as int) < tree.count(),
            k2 <= np,
            np == step.paths@.len(),
            forall|m: int|
                0 <= m < k2 ==> set_nonempty(eval_selector(*tree, c, #[trigger] step.paths@[m])),
        decreases np - k2,
    {
        let sub = resolve_selector(tree, c, &step.paths[k2]);
        if sub.len() == 0 {
            proof {
                if set_nonempty(eval_selector(*tree, c, step.paths@[k2 as int])) {
                    let w = choose|w: usize|
                        eval_selector(*tree, c, step.paths@[k2 as int]).contains(w);
                    assert(sub@.contains(w));
                    assert(false);
                }
                if node_matches(*tree, c, *step) {
                    assert(set_nonempty(eval_selector(*tree, c, step.paths@[k2 as int])));
                }
            }
            return false;
        }
        proof {
            assert(sub@.contains(sub@[0]));
            assert(eval_selector(*tree, c, step.paths@[k2 as int]).contains(sub@[0]));
            assert(set_nonempty(eval_selector(*tree, c, step.paths@[k2 as int])));
        }
        k2 = k2 + 1;
    }
    true
}

/// Adds `c` to the result when it satisfies the step.
fn consider(tree: &Tree, c: usize, step: &ActionableStep, out: Vec<usize>) -> (r: Vec<usize>)
    requires
        tree.wf(),
        (c as int) < tree.count(),
        sorted_strict(out@),
        all_below(out@, tree.count()),
    ensures
        sorted_strict(r@),
        all_below(r@, tree.count()),
        forall|y: usize|
            r@.contains(y) <==> (out@.contains(y) || (y == c && node_matches(*tree, c, *step))),
    decreases *step, 1nat,
{
    let mut v = out;
    if node_condition(tree, c, step) {
        insert_sorted(&mut v, c);
        proof {
            assert forall|k: int| 0 <= k < v@.len() implies (#[trigger] v@[k] as int)
                < tree.count() by {
                assert(v@.contains(v@[k]));
            }
        }
    }
    v
}

/// The position of `n` in the child list of `p`.
fn child_index(tree: &Tree, p: usize, n: usize) -> (k: usize)
    requires
        tree.wf(),
        (p as int) < tree.count(),
        tree.children_of(p as int).contains(n),
    ensures
        k < tree.children_of(p as int).len(),
        tree.children_of(p as int)[k as int] == n,
{
    let cs = &tree.nodes[p].children;
    let len = cs.len();
    let mut k: usize = 0;
    while k < len
        invariant
            k <= len,
            len == tree.children_of(p as int).len(),
            cs@ == tree.children_of(p as int),
            tree.children_of(p as int).contains(n),
            forall|m: int| 0 <= m < k ==> tree.children_of(p as int)[m] != n,
        decreases len - k,
    {
        if cs[k] == n {
            return k;
        }
        k = k + 1;
    }
    proof {
        let w = choose|w: int|
            0 <= w < tree.children_of(p as int).len() && tree.children_of(p as int)[w] == n;
        assert(false);
    }
    0
}

/// Walks the parent chain of `n`, considering every proper ancestor.
fn collect_ancestors(tree: &Tree, n: usize, step: &ActionableStep, out: Vec<usize>) -> (r: Vec<
    usize,
>)
    requires
        tree.wf(),
        (n as int) < tree.count(),
        sorted_strict(out@),
        all_below(out@, tree.count()),
    ensures
        sorted_strict(r@),
        all_below(r@, tree.count()),
        forall|y: usize| out@.contains(y) ==> r@.contains(y),
        forall|y: usize|
            r@.contains(y) ==> out@.contains(y) || (tree.is_ancestor_of(y as int, n as int)
                && node_matches(*tree, y, *step)),
        forall|y: usize|
            tree.is_ancestor_of(y as int, n as int) && node_matches(*tree, y, *step)
                ==> r@.contains(y),
    decreases *step, 2nat,
{
    let ghost orig = out@;
    let mut v = out;
    let mut a = n;
    loop
        invariant
            tree.wf(),
            (a as int) < tree.count(),
            (n as int) < tree.count(),
            a == n || tree.is_ancestor_of(a as int, n as int),
            sorted_strict(v@),
            all_below(v@, tree.count()),
            forall|y: usize| orig.contains(y) ==> v@.contains(y),
            forall|y: usize|
                v@.contains(y) ==> orig.contains(y) || (tree.is_ancestor_of(y as int, n as int)
                    && node_matches(*tree, y, *step)),
            forall|y: usize|
                tree.is_ancestor_of(y as int, n as int) && !tree.is_ancestor_of(y as int, a as int)
                    && node_matches(*tree, y, *step) ==> v@.contains(y),
        ensures
            sorted_strict(v@),
            all_below(v@, tree.count()),
            forall|y: usize| orig.contains(y) ==> v@.contains(y),
            forall|y: usize|
                v@.contains(y) ==> orig.contains(y) || (tree.is_ancestor_of(y as int, n as int)
                    && node_matches(*tree, y, *step)),
            forall|y: usize|
                tree.is_ancestor_of(y as int, n as int) && node_matches(*tree, y, *step)
                    ==> v@.contains(y),
        decreases a,
    {
        let parent = tree.nodes[a].parent;
        match parent {
            Some(p) => {
                proof {
                    assert(tree.wf_node(a as int));
                    assert((p as int) < a as int);
                    if a == n {
                        assert(tree.is_ancestor_of(p as int, n as int));
                    } else {
                        lemma_anc_step(*tree, n as int, a as int, p as int);
                    }
                }
                let ghost olda = a;
                v = consider(tree, p, step, v);
                proof {
                    assert forall|y: usize|
                        tree.is_ancestor_of(y as int, n as int) && !tree.is_ancestor_of(
                            y as int,
                            p as int,
                        ) && node_matches(*tree, y, *step) implies v@.contains(y) by {
                        assert(tree.is_ancestor_of(y as int, olda as int) == ((y as int
                            == p as int) || tree.is_ancestor_of(y as int, p as int)));
                    }
                }
                a = p;
            },
            None => {
                proof {
                    assert(tree.wf_node(a as int));
                    assert(forall|y: usize| !tree.is_ancestor_of(y as int, a as int));
                }
                break ;
            },
        }
    }
    v
}

/// Considers every node of the subtree interval below `n`.
fn collect_descendants(tree: &Tree, n: usize, step: &ActionableStep, out: Vec<usize>) -> (r: Vec<
    usize,
>)
    requires
        tree.wf(),
        (n as int) < tree.count(),
        sorted_strict(out@),
        all_below(out@, tree.count()),
    ensures
        sorted_strict(r@),
        all_below(r@, tree.count()),
        forall|y: usize| out@.contains(y) ==> r@.contains(y),
        forall|y: usize|
            r@.contains(y) ==> out@.contains(y) || (tree.strict_descendant(n as int, y as int)
                && node_matches(*tree, y, *step)),
        forall|y: usize|
            tree.strict_descendant(n as int, y as int) && node_matches(*tree, y, *step)
                ==> r@.contains(y),
    decreases *step, 2nat,
{
    let ghost orig = out@;
    let mut v = out;
    proof {
        assert(tree.wf_node(n as int));
    }
    let e = tree.nodes[n].end;
    let mut d = n + 1;
    while d < e
        invariant
            tree.wf(),
            (n as int) < tree.count(),
            n < d <= e,
            e as int == tree.end_of(n as int),
            e as int <= tree.count(),
            sorted_strict(v@),
            all_below(v@, tree.count()),
            forall|y: usize| orig.contains(y) ==> v@.contains(y),
            forall|y: usize|
                v@.contains(y) ==> orig.contains(y) || ((n as int) < (y as int) < tree.end_of(
                    n as int,
                ) && node_matches(*tree, y, *step)),
            forall|y: usize|
                (n as int) < (y as int) < (d as int) && node_matches(*tree, y, *step)
                    ==> v@.contains(y),
        decreases e - d,
    {
        v = consider(tree, d, step, v);
        d = d + 1;
    }
    v
}

/// Considers each child of `n`.
fn collect_children(tree: &Tree, n: usize, step: &ActionableStep, out: Vec<usize>) -> (r: Vec<
    usize,
>)
    requires
        tree.wf(),
        (n as int) < tree.count(),
        sorted_strict(out@),
        all_below(out@, tree.count()),
    ensures
        sorted_strict(r@),
        all_below(r@, tree.count()),
        forall|y: usize| out@.contains(y) ==> r@.contains(y),
        forall|y: usize|
            r@.contains(y) ==> out@.contains(y) || (tree.children_of(n as int).contains(y)
                && node_matches(*tree, y, *step)),
        forall|y: usize|
            tree.children_of(n as int).contains(y) && node_matches(*tree, y, *step)
                ==> r@.contains(y),
    decreases *step, 2nat,
{
    let ghost orig = out@;
    let ghost cs = tree.children_of(n as int);
    let mut v = out;
    let len = tree.nodes[n].children.len();
    let mut k: usize = 0;
    while k < len
        invariant
            tree.wf(),
            (n as int) < tree.count(),
            k <= len,
            len == cs.len(),
            cs == tree.children_of(n as int),
            sorted_strict(v@),
            all_below(v@, tree.count()),
            forall|y: usize| orig.contains(y) ==> v@.contains(y),
            forall|y: usize|
                v@.contains(y) ==> orig.contains(y) || (cs.contains(y) && node_matches(
                    *tree,
                    y,
                    *step,
                )),
            forall|w: int|
                0 <= w < k && node_matches(*tree, #[trigger] cs[w], *step) ==> v@.contains(cs[w]),
        decreases len - k,
    {
        let c = tree.nodes[n].children[k];
        proof {
            assert(tree.wf_node(n as int));
            assert(cs[k as int] == c);
            assert(cs.contains(c));
        }
        v = consider(tree, c, step, v);
        k = k + 1;
    }
    proof {
        assert forall|y: usize|
            cs.contains(y) && node_matches(*tree, y, *step) implies v@.contains(y) by {
            let w = choose|w: int| 0 <= w < cs.len() && cs[w] == y;
            assert(node_matches(*tree, cs[w], *step));
        }
    }
    v
}

/// Considers the siblings of `n` that one axis selects: the immediate
/// one only, or all on one side.
#[verifier::rlimit(100)]
fn collect_siblings_from(
    tree: &Tree,
    p: usize,
    n: usize,
    step: &ActionableStep,
    lo: usize,
    hi: usize,
    out: Vec<usize>,
) -> (r: Vec<usize>)
    requires
        tree.wf(),
        (p as int) < tree.count(),
        lo <= hi <= tree.children_of(p as int).len(),
        sorted_strict(out@),
        all_below(out@, tree.count()),
    ensures
        sorted_strict(r@),
        all_below(r@, tree.count()),
        forall|y: usize| out@.contains(y) ==> r@.contains(y),
        forall|y: usize|
            r@.contains(y) ==> out@.contains(y) || (exists|w: int|
                lo <= w < hi && #[trigger] tree.children_of(p as int)[w] == y && node_matches(
                    *tree,
                    y,
                    *step,
                )),
        forall|w: int|
            lo <= w < hi && node_matches(*tree, #[trigger] tree.children_of(p as int)[w], *step)
                ==> r@.contains(tree.children_of(p as int)[w]),
    decreases *step, 2nat,
{
    let ghost orig = out@;
    let ghost cs = tree.children_of(p as int);
    let mut v = out;
    let mut m = lo;
    while m < hi
        invariant
            tree.wf(),
            (p as int) < tree.count(),
            cs == tree.children_of(p as int),
            lo <= m <= hi <= cs.len(),
            sorted_strict(v@),
            all_below(v@, tree.count()),
            forall|y: usize| orig.contains(y) ==> v@.contains(y),
            forall|y: usize|
                v@.contains(y) ==> orig.contains(y) || (exists|w: int|
                    (lo as int) <= w < m && #[trigger] cs[w] == y && node_matches(
                        *tree,
                        y,
                        *step,
                    )),
            forall|w: int|
                (lo as int) <= w < m && node_matches(*tree, #[trigger] cs[w], *step)
                    ==> v@.contains(cs[w]),
        decreases hi - m,
    {
        let c = tree.nodes[p].children[m];
        proof {
            assert(tree.wf_node(p as int));
            assert(cs[m as int] == c);
        }
        let ghost before = v@;
        v = consider(tree, c, step, v);
        proof {
            assert forall|y: usize|
                v@.contains(y) implies orig.contains(y) || (exists|w: int|
                (lo as int) <= w < m + 1 && #[trigger] cs[w] == y && node_matches(
                    *tree,
                    y,
                    *step,
                )) by {
                if !orig.contains(y) {
                    if before.contains(y) {
                        let w = choose|w: int|
                            (lo as int) <= w < m && #[trigger] cs[w] == y && node_matches(
                                *tree,
                                y,
                                *step,
                            );
                        assert(cs[w] == y && node_matches(*tree, y, *step));
                    } else {
                        assert(y == c);
                        assert(cs[m as int] == y && node_matches(*tree, y, *step));
                    }
                }
            }
        }
        m = m + 1;
    }
    v
}

/// Considers every candidate of a sibling axis from node `n`.
#[verifier::rlimit(100)]
fn collect_sibling_axis(tree: &Tree, n: usize, step: &ActionableStep, out: Vec<usize>) -> (r: Vec<
    usize,
>)
    requires
        tree.wf(),
        (n as int) < tree.count(),
        (step.axis is Next || step.axis is Previous || step.axis is FollowingSibling
            || step.axis is PrecedingSibling),
        sorted_strict(out@),
        all_below(out@, tree.count()),
    ensures
        sorted_strict(r@),
        all_below(r@, tree.count()),
        forall|y: usize| out@.contains(y) ==> r@.contains(y),
        forall|y: usize|
            r@.contains(y) ==> out@.contains(y) || (axis_set(*tree, n, step.axis).contains(y)
                && node_matches(*tree, y, *step)),
        forall|y: usize|
            axis_set(*tree, n, step.axis).contains(y) && node_matches(*tree, y, *step)
                ==> r@.contains(y),
    decreases *step, 3nat,
{
    let parent = tree.nodes[n].parent;
    match parent {
        Some(p) => {
            proof {
                assert(tree.wf_node(n as int));
            }
            let k = child_index(tree, p, n);
            let ghost cs = tree.children_of(p as int);
            proof {
                assert(tree.wf_node(p as int));
                assert forall|m: int| 0 <= m < cs.len() && cs[m] == n implies m == k by {
                    if m < k as int {
                        assert(cs[m] < cs[k as int]);
                    }
                    if m > k as int {
                        assert(cs[k as int] < cs[m]);
                    }
                }
            }
            let len = tree.nodes[p].children.len();
            let lo: usize;
            let hi: usize;
            match step.axis {
                Axis::Next => {
                    if k + 1 < len {
                        lo = k + 1;
                        hi = k + 2;
                    } else {
                        lo = len;
                        hi = len;
                    }
                },
                Axis::Previous => {
                    lo = if k > 0 {
                        k - 1
                    } else {
                        0
                    };
                    hi = k;
                },
                Axis::FollowingSibling => {
                    lo = k + 1;
                    hi = len;
                },
                _ => {
                    lo = 0;
                    hi = k;
                },
            }
            let v = collect_siblings_from(tree, p, n, step, lo, hi, out);
            proof {
                lemma_sibling_window(*tree, p, n, k as int, step.axis, lo as int, hi as int);
            }
            v
        },
        None => {
            proof {
                assert(tree.wf_node(n as int));
                assert forall|y: usize| !axis_set(*tree, n, step.axis).contains(y) by {}
            }
            out
        },
    }
}

/// Considers every candidate of the step's axis from node `n`.
fn collect_axis(tree: &Tree, n: usize, step: &ActionableStep, out: Vec<usize>) -> (r: Vec<usize>)
    requires
        tree.wf(),
        (n as int) < tree.count(),
        sorted_strict(out@),
        all_below(out@, tree.count()),
    ensures
        sorted_strict(r@),
        all_below(r@, tree.count()),
        forall|y: usize| out@.contains(y) ==> r@.contains(y),
        forall|y: usize|
            r@.contains(y) ==> out@.contains(y) || (axis_set(*tree, n, step.axis).contains(y)
                && node_matches(*tree, y, *step)),
        forall|y: usize|
            axis_set(*tree, n, step.axis).contains(y) && node_matches(*tree, y, *step)
                ==> r@.contains(y),
    decreases *step, 4nat,
{
    match step.axis {
        Axis::Ancestor => collect_ancestors(tree, n, step, out),
        Axis::Parent => {
            let mut v = out;
            let parent = tree.nodes[n].parent;
            match parent {
                Some(p) => {
                    proof {
                        assert(tree.wf_node(n as int));
                    }
                    v = consider(tree, p, step, v);
                },
                None => {},
            }
            v
        },
        Axis::Descendant => collect_descendants(tree, n, step, out),
        Axis::Child => collect_children(tree, n, step, out),
        Axis::Current => consider(tree, n, step, out),
        Axis::Next | Axis::Previous | Axis::FollowingSibling | Axis::PrecedingSibling => {
            collect_sibling_axis(tree, n, step, out)
        },
    }
}

/// The window `[lo, hi)` of the parent's child list holds exactly the
/// candidates of a sibling axis of `n`.
#[verifier::rlimit(100)]
proof fn lemma_sibling_window(t: Tree, p: usize, n: usize, k: int, axis: Axis, lo: int, hi: int)
    requires
        t.wf(),
        (p as int) < t.count(),
        t.node(n as int).parent == Some(p),
        0 <= k < t.children_of(p as int).len(),
        t.children_of(p as int)[k] == n,
        forall|m: int|
            0 <= m < t.children_of(p as int).len() && t.children_of(p as int)[m] == n ==> m == k,
        (axis is Next || axis is Previous || axis is FollowingSibling || axis is PrecedingSibling),
        ({
            let len = t.children_of(p as int).len() as int;
            match axis {
                Axis::Next => lo == (if k + 1 < len {
                    k + 1
                } else {
                    len
                }) && hi == (if k + 2 < len {
                    k + 2
                } else {
                    len
                }),
                Axis::Previous => lo == (if k > 0 {
                    k - 1
                } else {
                    0
                }) && hi == k,
                Axis::FollowingSibling => lo == k + 1 && hi == len,
                Axis::PrecedingSibling => lo == 0 && hi == k,
                _ => false,
            }
        }),
    ensures
        forall|y: usize|
            axis_set(t, n, axis).contains(y) <==> (exists|w: int|
                lo <= w < hi && #[trigger] t.children_of(p as int)[w] == y),
{
    let cs = t.children_of(p as int);
    assert(t.wf_node(p as int));
    assert forall|y: usize|
        axis_set(t, n, axis).contains(y) implies (exists|w: int|
        lo <= w < hi && #[trigger] cs[w] == y) by {
        assert(cs.contains(y));
        let m = choose|m: int| 0 <= m < cs.len() && cs[m] == y;
        assert(cs[m] == y);
        match axis {
            Axis::Next => {
                assert(n < y);
                if m <= k {
                    assert(m < k ==> cs[m] < cs[k]);
                    assert(false);
                }
                if m > k + 1 {
                    assert(cs[k + 1] > cs[k] && cs[k + 1] < cs[m]);
                    assert(cs.contains(cs[k + 1]));
                    assert(false);
                }
                assert(m == k + 1);
            },
            Axis::Previous => {
                assert(y < n);
                if m >= k {
                    assert(m > k ==> cs[k] < cs[m]);
                    assert(false);
                }
                if m < k - 1 {
                    assert(cs[k - 1] < cs[k] && cs[m] < cs[k - 1]);
                    assert(cs.contains(cs[k - 1]));
                    assert(false);
                }
                assert(m == k - 1);
            },
            Axis::FollowingSibling => {
                assert(n < y);
                if m <= k {
                    assert(m < k ==> cs[m] < cs[k]);
                    assert(false);
                }
            },
            Axis::PrecedingSibling => {
                assert(y < n);
                if m >= k {
                    assert(m > k ==> cs[k] < cs[m]);
                    assert(false);
                }
            },
            _ => {},
        }
    }
    assert forall|y: usize|
        (exists|w: int| lo <= w < hi && #[trigger] cs[w] == y) implies axis_set(
        t,
        n,
        axis,
    ).contains(y) by {
        let w = choose|w: int| lo <= w < hi && #[trigger] cs[w] == y;
        assert(cs.contains(cs[w]));
        match axis {
            Axis::Next => {
                assert(w == k + 1);
                assert(cs[k] < cs[k + 1]);
                assert forall|c: usize| cs.contains(c) implies !(n < c && c < y) by {
                    let m2 = choose|m2: int| 0 <= m2 < cs.len() && cs[m2] == c;
                    assert(cs[m2] == c);
                    if m2 <= k {
                        assert(m2 < k ==> cs[m2] < cs[k]);
                    } else {
                        assert(m2 >= k + 1);
                        assert(m2 > k + 1 ==> cs[k + 1] < cs[m2]);
                    }
                }
            },
            Axis::Previous => {
                assert(w == k - 1);
                assert(cs[k - 1] < cs[k]);
                assert forall|c: usize| cs.contains(c) implies !(y < c && c < n) by {
                    let m2 = choose|m2: int| 0 <= m2 < cs.len() && cs[m2] == c;
                    assert(cs[m2] == c);
                    if m2 >= k {
                        assert(m2 > k ==> cs[k] < cs[m2]);
                    } else {
                        assert(m2 <= k - 1);
                        assert(m2 < k - 1 ==> cs[m2] < cs[k - 1]);
                    }
                }
            },
            Axis::FollowingSibling => {
                assert(cs[k] < cs[w]);
            },
            Axis::PrecedingSibling => {
                assert(cs[w] < cs[k]);
            },
            _ => {},
        }
    }
}

/// Applies one step to the current result set.
pub fn step_result(tree: &Tree, start: &Vec<usize>, step: &ActionableStep) -> (r: Vec<usize>)
    requires
        tree.wf(),
        all_below(start@, tree.count()),
    ensures
        sorted_strict(r@),
        all_below(r@, tree.count()),
        forall|c: usize| r@.contains(c) ==> in_step(*tree, start@.to_set(), *step, c),
        forall|c: usize| in_step(*tree, start@.to_set(), *step, c) ==> r@.contains(c),
    decreases *step, 5nat,
{
    let mut out: Vec<usize> = Vec::new();
    let len = start.len();
    let mut i: usize = 0;
    while i < len
        invariant
            tree.wf(),
            all_below(start@, tree.count()),
            i <= len,
            len == start@.len(),
            sorted_strict(out@),
            all_below(out@, tree.count()),
            forall|c: usize|
                out@.contains(c) ==> node_matches(*tree, c, *step) && (exists|k: int|
                    0 <= k < i && axis_set(*tree, #[trigger] start@[k], step.axis).contains(c)),
            forall|c: usize, k: int|
                0 <= k < i && #[trigger] axis_set(*tree, start@[k], step.axis).contains(c)
                    && node_matches(*tree, c, *step) ==> out@.contains(c),
        decreases len - i,
    {
        let n = start[i];
        let ghost before = out@;
        out = collect_axis(tree, n, step, out);
        proof {
            assert forall|c: usize|
                out@.contains(c) implies node_matches(*tree, c, *step) && (exists|k: int|
                0 <= k < i + 1 && axis_set(*tree, #[trigger] start@[k], step.axis).contains(
                    c,
                )) by {
                if before.contains(c) {
                    let k = choose|k: int|
                        0 <= k < i && axis_set(*tree, #[trigger] start@[k], step.axis).contains(c);
                    assert(axis_set(*tree, start@[k], step.axis).contains(c));
                } else {
                    assert(axis_set(*tree, start@[i as int], step.axis).contains(c));
                }
            }
        }
        i = i + 1;
    }
    proof {
        assert forall|c: usize| out@.contains(c) implies in_step(
            *tree,
            start@.to_set(),
            *step,
            c,
        ) by {
            let k = choose|k: int|
                0 <= k < len && axis_set(*tree, #[trigger] start@[k], step.axis).contains(c);
            assert(start@.contains(start@[k]));
            assert(start@.to_set().contains(start@[k]));
            assert(axis_set(*tree, start@[k], step.axis).contains(c));
        }
        assert forall|c: usize| in_step(*tree, start@.to_set(), *step, c) implies out@.contains(
            c,
        ) by {
            let n2 = choose|n2: usize|
                #[trigger] start@.to_set().contains(n2) && axis_set(*tree, n2, step.axis).contains(
                    c,
                );
            assert(start@.contains(n2));
            let k = choose|k: int| 0 <= k < start@.len() && start@[k] == n2;
            assert(axis_set(*tree, start@[k], step.axis).contains(c));
        }
    }
    out
}

/// Evaluates a selector from `start`: the result is deduplicated and
/// strictly ascending, which is document order.
pub fn resolve_selector(tree: &Tree, start: usize, selector: &ActionableSelector) -> (r: Vec<
    usize,
>)
    requires
        tree.wf(),
        (start as int) < tree.count(),
    ensures
        sorted_strict(r@),
        all_below(r@, tree.count()),
        forall|c: usize| r@.contains(c) <==> eval_selector(*tree, start, *selector).contains(c),
    decreases *selector, 6nat,
{
    let mut cur: Vec<usize> = Vec::new();
    cur.push(start);
    proof {
        assert(cur@[0] == start);
        assert(cur@.contains(start));
        assert(cur@.to_set() =~= set![start]);
        assert(selector.steps@.skip(0) =~= selector.steps@);
    }
    let len = selector.steps.len();
    let mut i: usize = 0;
    while i < len
        invariant
            tree.wf(),
            i <= len,
            len == selector.steps@.len(),
            sorted_strict(cur@),
            all_below(cur@, tree.count()),
            eval_steps(*tree, cur@.to_set(), selector.steps@.skip(i as int)) == eval_selector(
                *tree,
                start,
                *selector,
            ),
        decreases len - i,
    {
        let next = step_result(tree, &cur, &selector.steps[i]);
        proof {
            let steps = selector.steps@;
            assert(next@.to_set() =~= step_set(*tree, cur@.to_set(), steps[i as int]));
            assert(steps.skip(i as int).drop_first() =~= steps.skip(i + 1));
            assert(steps.skip(i as int)[0] == steps[i as int]);
        }
        cur = next;
        i = i + 1;
    }
    proof {
        assert(selector.steps@.skip(len as int).len() == 0);
        assert forall|c: usize| cur@.contains(c) <==> eval_selector(
            *tree,
            start,
            *selector,
        ).contains(c) by {
            assert(cur@.to_set().contains(c) == cur@.contains(c));
        }
    }
    cur
}


/// Document-order totality: any two distinct nodes appearing in two
/// evaluation results are ordered the same way in both, whatever axes
/// produced them — results are strictly ascending in document order,
/// which is the id order of the preorder layout.
pub proof fn lemma_document_order_totality(
    r1: Seq<usize>,
    r2: Seq<usize>,
    i1: int,
    j1: int,
    i2: int,
    j2: int,
)
    requires
        sorted_strict(r1),
        sorted_strict(r2),
        0 <= i1 < r1.len(),
        0 <= j1 < r1.len(),
        0 <= i2 < r2.len(),
        0 <= j2 < r2.len(),
        r1[i1] == r2[i2],
        r1[j1] == r2[j2],
        r1[i1] != r1[j1],
    ensures
        (i1 < j1) <==> (i2 < j2),
{
}

/// De-duplication: an evaluation result never yields one node twice,
/// even when several paths (a descendant step followed by an ancestor
/// step, say) reach it, because the result is strictly ascending.
pub proof fn lemma_no_duplicates(r: Seq<usize>, i: int, j: int)
    requires
        sorted_strict(r),
        0 <= i < r.len(),
        0 <= j < r.len(),
        i != j,
    ensures
        r[i] != r[j],
{
}

/// Current-axis idempotence: a selector whose sole step walks the
/// `Current` axis with no requirement evaluates to exactly the start
/// node.
pub proof fn lemma_current_identity(t: Tree, start: usize, sel: ActionableSelector)
    requires
        t.wf(),
        (start as int) < t.count(),
        sel.steps@.len() == 1,
        sel.steps@[0].axis is Current,
        sel.steps@[0].localname is None,
        sel.steps@[0].namespace is None,
        sel.steps@[0].attributes@.len() == 0,
        sel.steps@[0].paths@.len() == 0,
    ensures
        eval_selector(t, start, sel) =~= set![start],
{
    let st = sel.steps@[0];
    let s0 = set![start];
    assert(node_matches(t, start, st));
    assert forall|c: usize| step_set(t, s0, st).contains(c) implies c == start by {
        assert(in_step(t, s0, st, c));
        let n = choose|n: usize| #[trigger] s0.contains(n) && axis_set(t, n, st.axis).contains(c);
        assert(n == start);
        assert(axis_set(t, start, Axis::Current).contains(c));
    }
    assert(s0.contains(start));
    assert(axis_set(t, start, Axis::Current).contains(start));
    assert(in_step(t, s0, st, start));
    assert(step_set(t, s0, st).contains(start));
    assert(step_set(t, s0, st) =~= s0);
    assert(sel.steps@.drop_first() =~= Seq::<ActionableStep>::empty());
    assert(eval_steps(t, step_set(t, s0, st), sel.steps@.drop_first()) == step_set(t, s0, st));
    assert(eval_selector(t, start, sel) == eval_steps(t, s0, sel.steps@));
}

} // verus!
