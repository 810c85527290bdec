//! The selector text grammar and its parser.
//!
//! A selector is written as steps joined by `/`. Each step names an
//! axis, then a name test, then any number of bracketed predicates:
//!
//! ```text
//! selector  = step *( "/" step )
//! step      = axis "::" nametest *( "[" predicate "]" )
//! axis      = "ancestor" / "parent" / "descendant" / "child" / "next" /
//!             "previous" / "following-sibling" / "preceding-sibling" /
//!             "current"
//! nametest  = [ "{" uri "}" / prefix ":" ] ( localname / "*" )
//! predicate = "@" nametest [ ( "=" / "~=" ) value ] / selector
//! ```
//!
//! `*` leaves the local name unconstrained; `{uri}` requires the
//! resolved namespace uri and `prefix:` the bound prefix. An attribute
//! predicate requires existence, an exact value (`=`), or a
//! whitespace-separated token (`~=`). A bare predicate is a nested
//! selector that must reach at least one node. Names stop at
//! delimiters; values run to the closing bracket.

use vstd::prelude::*;
use vstd::string::StrSliceExecFns;
use vstd::string::StringExecFns;

use crate::error::RequestError;
use crate::select::ActionableSelector;
use crate::select::ActionableStep;
use crate::select::AttributeOp;
use crate::select::AttributeRequirement;
use crate::select::Axis;
use crate::select::NamespaceReq;

verus! {

/// The mathematical value of a namespace requirement.
pub enum NamespaceReqView {
    Prefix(Seq<char>),
    Uri(Seq<char>),
}

impl View for NamespaceReq {
    type V = NamespaceReqView;

    open spec fn view(&self) -> NamespaceReqView {
        match self {
            NamespaceReq::Prefix(p) => NamespaceReqView::Prefix(p@),
            NamespaceReq::Uri(u) => NamespaceReqView::Uri(u@),
        }
    }
}

/// The mathematical value of an attribute operation.
pub enum AttributeOpView {
    Exists,
    Equals(Seq<char>),
    Contains(Seq<char>),
}

impl View for AttributeOp {
    type V = AttributeOpView;

    open spec fn view(&self) -> AttributeOpView {
        match self {
            AttributeOp::Exists => AttributeOpView::Exists,
            AttributeOp::Equals(v) => AttributeOpView::Equals(v@),
            AttributeOp::Contains(v) => AttributeOpView::Contains(v@),
        }
    }
}

/// The mathematical value of an attribute requirement.
pub struct AttributeRequirementView {
    pub localname: Option<Seq<char>>,
    pub namespace: Option<NamespaceReqView>,
    pub op: AttributeOpView,
}

impl View for AttributeRequirement {
    type V = AttributeRequirementView;

    open spec fn view(&self) -> AttributeRequirementView {
        AttributeRequirementView {
            localname: match self.localname {
                Some(ref l) => Some(l@),
                None => None,
            },
            namespace: match self.namespace {
                Some(ref n) => Some(n@),
                None => None,
            },
            op: self.op@,
        }
    }
}

/// The mathematical value of one step.
pub struct StepView {
    pub axis: Axis,
    pub localname: Option<Seq<char>>,
    pub namespace: Option<NamespaceReqView>,
    pub attributes: Seq<AttributeRequirementView>,
    pub paths: Seq<SelectorView>,
}

impl View for ActionableStep {
    type V = StepView;

    open spec fn view(&self) -> StepView
        decreases self,
    {
        StepView {
            axis: self.axis,
            localname: match self.localname {
                Some(ref l) => Some(l@),
                None => None,
            },
            namespace: match self.namespace {
                Some(ref n) => Some(n@),
                None => None,
            },
            attributes: self.attributes@.map_values(|a: AttributeRequirement| a@),
            paths: Seq::new(
                self.paths@.len(),
                |k: int|
                    if 0 <= k < self.paths@.len() {
                        self.paths@[k]@
                    } else {
                        SelectorView { steps: Seq::empty() }
                    },
            ),
        }
    }
}

/// The mathematical value of one selector.
pub struct SelectorView {
    pub steps: Seq<StepView>,
}

impl View for ActionableSelector {
    type V = SelectorView;

    open spec fn view(&self) -> SelectorView
        decreases self,
    {
        SelectorView {
            steps: Seq::new(
                self.steps@.len(),
                |k: int|
                    if 0 <= k < self.steps@.len() {
                        self.steps@[k]@
                    } else {
                        StepView {
                            axis: Axis::Current,
                            localname: None,
                            namespace: None,
                            attributes: Seq::empty(),
                            paths: Seq::empty(),
                        }
                    },
            ),
        }
    }
}

/// A character that may stand in a name or prefix: anything printable
/// that is not one of the grammar's delimiters.
pub open spec fn name_char(c: char) -> bool {
    &&& c > ' '
    &&& c != '/'
    &&& c != '['
    &&& c != ']'
    &&& c != '{'
    &&& c != '}'
    &&& c != ':'
    &&& c != '='
    &&& c != '~'
    &&& c != '@'
    &&& c != '*'
}

/// The end of the name run starting at `i`.
pub open spec fn name_end(s: Seq<char>, i: int) -> int
    decreases s.len() - i,
{
    if i < 0 || i >= s.len() || !name_char(s[i]) {
        i
    } else {
        name_end(s, i + 1)
    }
}

/// The end of a uri: everything up to the closing brace.
pub open spec fn uri_end(s: Seq<char>, i: int) -> int
    decreases s.len() - i,
{
    if i < 0 || i >= s.len() || s[i] == '}' {
        i
    } else {
        uri_end(s, i + 1)
    }
}

/// The end of an attribute value: everything up to the closing bracket.
pub open spec fn value_end(s: Seq<char>, i: int) -> int
    decreases s.len() - i,
{
    if i < 0 || i >= s.len() || s[i] == ']' {
        i
    } else {
        value_end(s, i + 1)
    }
}

/// The axis a step keyword names.
pub open spec fn axis_of_name(n: Seq<char>) -> Option<Axis> {
    if n == "ancestor"@ {
        Some(Axis::Ancestor)
    } else if n == "parent"@ {
        Some(Axis::Parent)
    } else if n == "descendant"@ {
        Some(Axis::Descendant)
    } else if n == "child"@ {
        Some(Axis::Child)
    } else if n == "next"@ {
        Some(Axis::Next)
    } else if n == "previous"@ {
        Some(Axis::Previous)
    } else if n == "following-sibling"@ {
        Some(Axis::FollowingSibling)
    } else if n == "preceding-sibling"@ {
        Some(Axis::PrecedingSibling)
    } else if n == "current"@ {
        Some(Axis::Current)
    } else {
        None
    }
}

/// Parses a name test: optional namespace part, then `*` or a local
/// name. Yields the local-name requirement, the namespace requirement,
/// and the next position.
pub open spec fn parse_nametest_spec(s: Seq<char>, i: int) -> Option<
    (Option<Seq<char>>, Option<NamespaceReqView>, int),
>
    decreases s.len() - i, 0nat,
    when 0 <= i
{
    if i < s.len() && s[i] == '{' {
        let ue = uri_end(s, i + 1);
        if ue < s.len() {
            // s[ue] == '}'
            match parse_localpart_spec(s, ue + 1) {
                Some((ln, next)) => Some(
                    (ln, Some(NamespaceReqView::Uri(s.subrange(i + 1, ue))), next),
                ),
                None => None,
            }
        } else {
            None
        }
    } else {
        let ne = name_end(s, i);
        if ne < s.len() && s[ne] == ':' && ne > i && !(ne + 1 < s.len() && s[ne + 1] == ':') {
            match parse_localpart_spec(s, ne + 1) {
                Some((ln, next)) => Some(
                    (ln, Some(NamespaceReqView::Prefix(s.subrange(i, ne))), next),
                ),
                None => None,
            }
        } else {
            match parse_localpart_spec(s, i) {
                Some((ln, next)) => Some((ln, None, next)),
                None => None,
            }
        }
    }
}

/// Parses `*` or a nonempty local name.
pub open spec fn parse_localpart_spec(s: Seq<char>, i: int) -> Option<(Option<Seq<char>>, int)>
    decreases s.len() - i, 1nat,
    when 0 <= i
{
    if i < s.len() && s[i] == '*' {
        Some((None, i + 1))
    } else {
        let ne = name_end(s, i);
        if ne > i {
            Some((Some(s.subrange(i, ne)), ne))
        } else {
            None
        }
    }
}

/// Parses one attribute predicate body after the `@`.
pub open spec fn parse_attrtest_spec(s: Seq<char>, i: int) -> Option<
    (AttributeRequirementView, int),
>
    decreases s.len() - i, 2nat,
    when 0 <= i
{
    match parse_nametest_spec(s, i) {
        Some((ln, ns, j)) => {
            if j < s.len() && s[j] == '=' {
                let ve = value_end(s, j + 1);
                Some(
                    (
                        AttributeRequirementView {
                            localname: ln,
                            namespace: ns,
                            op: AttributeOpView::Equals(s.subrange(j + 1, ve)),
                        },
                        ve,
                    ),
                )
            } else if j + 1 < s.len() && s[j] == '~' && s[j + 1] == '=' {
                let ve = value_end(s, j + 2);
                Some(
                    (
                        AttributeRequirementView {
                            localname: ln,
                            namespace: ns,
                            op: AttributeOpView::Contains(s.subrange(j + 2, ve)),
                        },
                        ve,
                    ),
                )
            } else {
                Some(
                    (
                        AttributeRequirementView {
                            localname: ln,
                            namespace: ns,
                            op: AttributeOpView::Exists,
                        },
                        j,
                    ),
                )
            }
        },
        None => None,
    }
}


/// A name run never moves backwards and stays within the text.
proof fn lemma_name_end_bounds(s: Seq<char>, i: int)
    requires
        0 <= i <= s.len(),
    ensures
        i <= name_end(s, i) <= s.len(),
    decreases s.len() - i,
{
    if i < s.len() && name_char(s[i]) {
        lemma_name_end_bounds(s, i + 1);
    }
}

/// Parses one step: an axis keyword, `::`, a name test, then
/// predicates.
pub open spec fn parse_step_spec(s: Seq<char>, i: int) -> Option<(StepView, int)>
    decreases s.len() - i, 2nat,
    when 0 <= i <= s.len()
    via parse_step_spec_decreases
{
    let ne = name_end(s, i);
    match axis_of_name(s.subrange(i, ne)) {
        Some(axis) => {
            if ne + 1 < s.len() && s[ne] == ':' && s[ne + 1] == ':' {
                match parse_nametest_spec(s, ne + 2) {
                    Some((ln, ns, j)) => {
                        if i < j <= s.len() {
                            match parse_preds_spec(s, j, Seq::empty(), Seq::empty()) {
                                Some((attrs, paths, k)) => Some(
                                    (
                                        StepView {
                                            axis,
                                            localname: ln,
                                            namespace: ns,
                                            attributes: attrs,
                                            paths,
                                        },
                                        k,
                                    ),
                                ),
                                None => None,
                            }
                        } else {
                            None
                        }
                    },
                    None => None,
                }
            } else {
                None
            }
        },
        None => None,
    }
}

#[via_fn]
proof fn parse_step_spec_decreases(s: Seq<char>, i: int) {
    lemma_name_end_bounds(s, i);
}

/// What a step parse yields once its axis and name test are fixed and
/// its predicates begin at `j`.
pub open spec fn step_from_preds(
    s: Seq<char>,
    j: int,
    axis: Axis,
    ln: Option<Seq<char>>,
    ns: Option<NamespaceReqView>,
) -> Option<(StepView, int)> {
    match parse_preds_spec(s, j, Seq::empty(), Seq::empty()) {
        Some((attrs, paths, k)) => Some(
            (StepView { axis, localname: ln, namespace: ns, attributes: attrs, paths }, k),
        ),
        None => None,
    }
}

/// Parses the bracketed predicates of a step, accumulating attribute
/// requirements and nested paths.
pub open spec fn parse_preds_spec(
    s: Seq<char>,
    i: int,
    attrs: Seq<AttributeRequirementView>,
    paths: Seq<SelectorView>,
) -> Option<(Seq<AttributeRequirementView>, Seq<SelectorView>, int)>
    decreases s.len() - i, 1nat,
    when 0 <= i <= s.len()
{
    if i < s.len() && s[i] == '[' {
        if i + 1 < s.len() && s[i + 1] == '@' {
            match parse_attrtest_spec(s, i + 2) {
                Some((arv, j)) => {
                    if i < j && j < s.len() && s[j] == ']' {
                        parse_preds_spec(s, j + 1, attrs.push(arv), paths)
                    } else {
                        None
                    }
                },
                None => None,
            }
        } else {
            match parse_selector_spec(s, i + 1) {
                Some((sel, j)) => {
                    if i < j && j < s.len() && s[j] == ']' {
                        parse_preds_spec(s, j + 1, attrs, paths.push(sel))
                    } else {
                        None
                    }
                },
                None => None,
            }
        }
    } else {
        Some((attrs, paths, i))
    }
}

/// Parses a whole selector: one step, then further `/`-joined steps.
pub open spec fn parse_selector_spec(s: Seq<char>, i: int) -> Option<(SelectorView, int)>
    decreases s.len() - i, 3nat,
    when 0 <= i <= s.len()
{
    match parse_step_spec(s, i) {
        Some((st, j)) => {
            if i < j <= s.len() {
                parse_more_steps_spec(s, j, seq![st])
            } else {
                None
            }
        },
        None => None,
    }
}

/// Parses the remaining `/`-joined steps of a selector.
pub open spec fn parse_more_steps_spec(s: Seq<char>, i: int, steps: Seq<StepView>) -> Option<
    (SelectorView, int),
>
    decreases s.len() - i, 4nat,
    when 0 <= i <= s.len()
{
    if i < s.len() && s[i] == '/' {
        match parse_step_spec(s, i + 1) {
            Some((st, j)) => {
                if i < j <= s.len() {
                    parse_more_steps_spec(s, j, steps.push(st))
                } else {
                    None
                }
            },
            None => None,
        }
    } else {
        Some((SelectorView { steps }, i))
    }
}

/// The selector a whole line of text denotes, if it is well-formed and
/// nothing trails it.
pub open spec fn parse_selector_text_spec(s: Seq<char>) -> Option<SelectorView> {
    match parse_selector_spec(s, 0) {
        Some((sel, j)) => if j == s.len() {
            Some(sel)
        } else {
            None
        },
        None => None,
    }
}


/// The view of an optional string.
pub open spec fn opt_view(o: Option<String>) -> Option<Seq<char>> {
    match o {
        Some(s) => Some(s@),
        None => None,
    }
}

/// The view of an optional namespace requirement.
pub open spec fn opt_ns_view(o: Option<NamespaceReq>) -> Option<NamespaceReqView> {
    match o {
        Some(n) => Some(n@),
        None => None,
    }
}

/// Whether one character may extend a name.
fn name_char_exec(c: char) -> (r: bool)
    ensures
        r == name_char(c),
{
    c > ' ' && c != '/' && c != '[' && c != ']' && c != '{' && c != '}' && c != ':' && c != '='
        && c != '~' && c != '@' && c != '*'
}

/// Scans to the end of the name run starting at `i`.
fn name_end_exec(chars: &Vec<char>, i: usize) -> (r: usize)
    requires
        i <= chars@.len(),
    ensures
        r == name_end(chars@, i as int),
        i <= r <= chars@.len(),
    decreases chars@.len() - i,
{
    if i < chars.len() && name_char_exec(chars[i]) {
        name_end_exec(chars, i + 1)
    } else {
        i
    }
}

/// Scans to the closing brace of a uri.
fn uri_end_exec(chars: &Vec<char>, i: usize) -> (r: usize)
    requires
        i <= chars@.len(),
    ensures
        r == uri_end(chars@, i as int),
        i <= r <= chars@.len(),
    decreases chars@.len() - i,
{
    if i < chars.len() && chars[i] != '}' {
        uri_end_exec(chars, i + 1)
    } else {
        i
    }
}

/// Scans to the closing bracket of a value.
fn value_end_exec(chars: &Vec<char>, i: usize) -> (r: usize)
    requires
        i <= chars@.len(),
    ensures
        r == value_end(chars@, i as int),
        i <= r <= chars@.len(),
    decreases chars@.len() - i,
{
    if i < chars.len() && chars[i] != ']' {
        value_end_exec(chars, i + 1)
    } else {
        i
    }
}

/// Whether a parsed name equals a keyword.
fn is_kw(name: &String, kw: &str) -> (r: bool)
    ensures
        r == (name@ == kw@),
{
    name.eq(&String::from_str(kw))
}

/// Maps a step keyword to its axis.
fn axis_from_name(name: &String) -> (r: Option<Axis>)
    ensures
        r == axis_of_name(name@),
{
    if is_kw(name, "ancestor") {
        Some(Axis::Ancestor)
    } else if is_kw(name, "parent") {
        Some(Axis::Parent)
    } else if is_kw(name, "descendant") {
        Some(Axis::Descendant)
    } else if is_kw(name, "child") {
        Some(Axis::Child)
    } else if is_kw(name, "next") {
        Some(Axis::Next)
    } else if is_kw(name, "previous") {
        Some(Axis::Previous)
    } else if is_kw(name, "following-sibling") {
        Some(Axis::FollowingSibling)
    } else if is_kw(name, "preceding-sibling") {
        Some(Axis::PrecedingSibling)
    } else if is_kw(name, "current") {
        Some(Axis::Current)
    } else {
        None
    }
}

/// Parses `*` or a nonempty local name.
fn parse_localpart(src: &str, chars: &Vec<char>, i: usize) -> (r: Option<(Option<String>, usize)>)
    requires
        chars@ == src@,
        i <= chars@.len(),
    ensures
        match (r, parse_localpart_spec(chars@, i as int)) {
            (Some((ln, next)), Some((lnv, nextv))) => opt_view(ln) == lnv && next == nextv && i
                < next <= chars@.len(),
            (None, None) => true,
            _ => false,
        },
{
    if i < chars.len() && chars[i] == '*' {
        Some((None, i + 1))
    } else {
        let ne = name_end_exec(chars, i);
        if ne > i {
            Some((Some(src.substring_char(i, ne).to_owned()), ne))
        } else {
            None
        }
    }
}

/// Parses a name test: optional namespace part, then the local part.
fn parse_nametest(src: &str, chars: &Vec<char>, i: usize) -> (r: Option<
    (Option<String>, Option<NamespaceReq>, usize),
>)
    requires
        chars@ == src@,
        i <= chars@.len(),
    ensures
        match (r, parse_nametest_spec(chars@, i as int)) {
            (Some((ln, ns, next)), Some((lnv, nsv, nextv))) => opt_view(ln) == lnv && opt_ns_view(
                ns,
            ) == nsv && next == nextv && i < next <= chars@.len(),
            (None, None) => true,
            _ => false,
        },
{
    if i < chars.len() && chars[i] == '{' {
        let ue = uri_end_exec(chars, i + 1);
        if ue < chars.len() {
            let uri = src.substring_char(i + 1, ue).to_owned();
            match parse_localpart(src, chars, ue + 1) {
                Some((ln, next)) => Some((ln, Some(NamespaceReq::Uri(uri)), next)),
                None => None,
            }
        } else {
            None
        }
    } else {
        let ne = name_end_exec(chars, i);
        if ne < chars.len() && chars[ne] == ':' && ne > i && !(ne + 1 < chars.len() && chars[ne
            + 1] == ':') {
            let prefix = src.substring_char(i, ne).to_owned();
            match parse_localpart(src, chars, ne + 1) {
                Some((ln, next)) => Some((ln, Some(NamespaceReq::Prefix(prefix)), next)),
                None => None,
            }
        } else {
            match parse_localpart(src, chars, i) {
                Some((ln, next)) => Some((ln, None, next)),
                None => None,
            }
        }
    }
}

/// Parses one attribute predicate body after the `@`.
fn parse_attrtest(src: &str, chars: &Vec<char>, i: usize) -> (r: Option<
    (AttributeRequirement, usize),
>)
    requires
        chars@ == src@,
        i <= chars@.len(),
    ensures
        match (r, parse_attrtest_spec(chars@, i as int)) {
            (Some((arv, next)), Some((arvv, nextv))) => arv@ == arvv && next == nextv && i < next
                <= chars@.len(),
            (None, None) => true,
            _ => false,
        },
{
    match parse_nametest(src, chars, i) {
        Some((ln, ns, j)) => {
            if j < chars.len() && chars[j] == '=' {
                let ve = value_end_exec(chars, j + 1);
                let value = src.substring_char(j + 1, ve).to_owned();
                Some(
                    (
                        AttributeRequirement {
                            localname: ln,
                            namespace: ns,
                            op: AttributeOp::Equals(value),
                        },
                        ve,
                    ),
                )
            } else if j < chars.len() && chars[j] == '~' && j + 1 < chars.len() && chars[j
                + 1] == '=' {
                let ve = value_end_exec(chars, j + 2);
                let value = src.substring_char(j + 2, ve).to_owned();
                Some(
                    (
                        AttributeRequirement {
                            localname: ln,
                            namespace: ns,
                            op: AttributeOp::Contains(value),
                        },
                        ve,
                    ),
                )
            } else {
                Some(
                    (
                        AttributeRequirement { localname: ln, namespace: ns, op: AttributeOp::Exists },
                        j,
                    ),
                )
            }
        },
        None => None,
    }
}

/// Parses one step.
fn parse_step(src: &str, chars: &Vec<char>, i: usize) -> (r: Option<(ActionableStep, usize)>)
    requires
        chars@ == src@,
        i <= chars@.len(),
    ensures
        match (r, parse_step_spec(chars@, i as int)) {
            (Some((st, next)), Some((stv, nextv))) => st@ == stv && next == nextv && i < next
                <= chars@.len(),
            (None, None) => true,
            _ => false,
        },
    decreases chars@.len() - i, 2nat,
{
    let ne = name_end_exec(chars, i);
    let word = src.substring_char(i, ne).to_owned();
    let axis_found = axis_from_name(&word);
    match axis_found {
        Some(axis) => {
            if ne < chars.len() && chars[ne] == ':' && ne + 1 < chars.len() && chars[ne + 1]
                == ':' {
                match parse_nametest(src, chars, ne + 2) {
                    Some((localname, namespace, j)) => {
                        let mut attributes: Vec<AttributeRequirement> = Vec::new();
                        let mut paths: Vec<ActionableSelector> = Vec::new();
                        let mut k = j;
                        proof {
                            assert(attributes@.map_values(|a: AttributeRequirement| a@) =~= Seq::<
                                AttributeRequirementView,
                            >::empty());
                            assert(Seq::new(paths@.len(), |m: int| if 0 <= m < paths@.len() {
                                paths@[m]@
                            } else {
                                SelectorView { steps: Seq::empty() }
                            }) =~= Seq::<SelectorView>::empty());
                        }
                        loop
                            invariant
                                chars@ == src@,
                                i < j <= k <= chars@.len(),
                                parse_step_spec(chars@, i as int) == step_from_preds(
                                    chars@,
                                    j as int,
                                    axis,
                                    opt_view(localname),
                                    opt_ns_view(namespace),
                                ),
                                parse_preds_spec(
                                    chars@,
                                    k as int,
                                    attributes@.map_values(|a: AttributeRequirement| a@),
                                    Seq::new(
                                        paths@.len(),
                                        |m: int|
                                            if 0 <= m < paths@.len() {
                                                paths@[m]@
                                            } else {
                                                SelectorView { steps: Seq::empty() }
                                            },
                                    ),
                                ) == parse_preds_spec(
                                    chars@,
                                    j as int,
                                    Seq::empty(),
                                    Seq::empty(),
                                ),
                            ensures
                                i < j <= k <= chars@.len(),
                                parse_preds_spec(
                                    chars@,
                                    j as int,
                                    Seq::empty(),
                                    Seq::empty(),
                                ) == Some(
                                    (
                                        attributes@.map_values(|a: AttributeRequirement| a@),
                                        Seq::new(
                                            paths@.len(),
                                            |m: int|
                                                if 0 <= m < paths@.len() {
                                                    paths@[m]@
                                                } else {
                                                    SelectorView { steps: Seq::empty() }
                                                },
                                        ),
                                        k as int,
                                    ),
                                ),
                            decreases chars@.len() - k,
                        {
                            if k < chars.len() && chars[k] == '[' {
                                if k + 1 < chars.len() && chars[k + 1] == '@' {
                                    match parse_attrtest(src, chars, k + 2) {
                                        Some((arv, j2)) => {
                                            if j2 < chars.len() && chars[j2] == ']' {
                                                let ghost pre = attributes@.map_values(
                                                    |a: AttributeRequirement| a@,
                                                );
                                                attributes.push(arv);
                                                proof {
                                                    assert(attributes@.map_values(
                                                        |a: AttributeRequirement| a@,
                                                    ) =~= pre.push(arv@));
                                                }
                                                k = j2 + 1;
                                            } else {
                                                return None;
                                            }
                                        },
                                        None => {
                                            return None;
                                        },
                                    }
                                } else {
                                    match parse_selector(src, chars, k + 1) {
                                        Some((sel, j2)) => {
                                            if j2 < chars.len() && chars[j2] == ']' {
                                                let ghost pre = Seq::new(
                                                    paths@.len(),
                                                    |m: int|
                                                        if 0 <= m < paths@.len() {
                                                            paths@[m]@
                                                        } else {
                                                            SelectorView { steps: Seq::empty() }
                                                        },
                                                );
                                                let ghost sv = sel@;
                                                paths.push(sel);
                                                proof {
                                                    assert(Seq::new(
                                                        paths@.len(),
                                                        |m: int|
                                                            if 0 <= m < paths@.len() {
                                                                paths@[m]@
                                                            } else {
                                                                SelectorView { steps: Seq::empty() }
                                                            },
                                                    ) =~= pre.push(sv));
                                                }
                                                k = j2 + 1;
                                            } else {
                                                return None;
                                            }
                                        },
                                        None => {
                                            return None;
                                        },
                                    }
                                }
                            } else {
                                break ;
                            }
                        }
                        let ghost pv = Seq::new(
                            paths@.len(),
                            |m: int|
                                if 0 <= m < paths@.len() {
                                    paths@[m]@
                                } else {
                                    SelectorView { steps: Seq::empty() }
                                },
                        );
                        let ghost av = attributes@.map_values(|a: AttributeRequirement| a@);
                        let st = ActionableStep { axis, localname, namespace, attributes, paths };
                        proof {
                            assert(st@.paths =~= pv);
                            assert(st@.attributes =~= av);
                        }
                        Some((st, k))
                    },
                    None => None,
                }
            } else {
                None
            }
        },
        None => None,
    }
}

/// Parses a whole selector from position `i`.
fn parse_selector(src: &str, chars: &Vec<char>, i: usize) -> (r: Option<(ActionableSelector, usize)>)
    requires
        chars@ == src@,
        i <= chars@.len(),
    ensures
        match (r, parse_selector_spec(chars@, i as int)) {
            (Some((sel, next)), Some((selv, nextv))) => sel@ == selv && next == nextv && i < next
                <= chars@.len(),
            (None, None) => true,
            _ => false,
        },
    decreases chars@.len() - i, 3nat,
{
    match parse_step(src, chars, i) {
        Some((st, j)) => {
            let mut steps: Vec<ActionableStep> = Vec::new();
            let ghost stv = st@;
            steps.push(st);
            let mut k = j;
            proof {
                assert(Seq::new(steps@.len(), |m: int| if 0 <= m < steps@.len() {
                    steps@[m]@
                } else {
                    StepView {
                        axis: Axis::Current,
                        localname: None,
                        namespace: None,
                        attributes: Seq::empty(),
                        paths: Seq::empty(),
                    }
                }) =~= seq![stv]);
            }
            loop
                invariant
                    chars@ == src@,
                    i < j <= k <= chars@.len(),
                    parse_selector_spec(chars@, i as int) == parse_more_steps_spec(
                        chars@,
                        j as int,
                        seq![stv],
                    ),
                    parse_more_steps_spec(
                        chars@,
                        k as int,
                        Seq::new(steps@.len(), |m: int| if 0 <= m < steps@.len() {
                            steps@[m]@
                        } else {
                            StepView {
                                axis: Axis::Current,
                                localname: None,
                                namespace: None,
                                attributes: Seq::empty(),
                                paths: Seq::empty(),
                            }
                        }),
                    ) == parse_more_steps_spec(chars@, j as int, seq![stv]),
                ensures
                    i < j <= k <= chars@.len(),
                    parse_more_steps_spec(chars@, j as int, seq![stv]) == Some(
                        (
                            SelectorView {
                                steps: Seq::new(steps@.len(), |m: int| if 0 <= m < steps@.len() {
                                    steps@[m]@
                                } else {
                                    StepView {
                                        axis: Axis::Current,
                                        localname: None,
                                        namespace: None,
                                        attributes: Seq::empty(),
                                        paths: Seq::empty(),
                                    }
                                }),
                            },
                            k as int,
                        ),
                    ),
                decreases chars@.len() - k,
            {
                if k < chars.len() && chars[k] == '/' {
                    match parse_step(src, chars, k + 1) {
                        Some((st2, j2)) => {
                            let ghost pre = Seq::new(steps@.len(), |m: int| if 0 <= m
                                < steps@.len() {
                                steps@[m]@
                            } else {
                                StepView {
                                    axis: Axis::Current,
                                    localname: None,
                                    namespace: None,
                                    attributes: Seq::empty(),
                                    paths: Seq::empty(),
                                }
                            });
                            let ghost sv2 = st2@;
                            steps.push(st2);
                            proof {
                                assert(Seq::new(steps@.len(), |m: int| if 0 <= m < steps@.len() {
                                    steps@[m]@
                                } else {
                                    StepView {
                                        axis: Axis::Current,
                                        localname: None,
                                        namespace: None,
                                        attributes: Seq::empty(),
                                        paths: Seq::empty(),
                                    }
                                }) =~= pre.push(sv2));
                            }
                            k = j2;
                        },
                        None => {
                            return None;
                        },
                    }
                } else {
                    break ;
                }
            }
            let ghost sv = Seq::new(steps@.len(), |m: int| if 0 <= m < steps@.len() {
                steps@[m]@
            } else {
                StepView {
                    axis: Axis::Current,
                    localname: None,
                    namespace: None,
                    attributes: Seq::empty(),
                    paths: Seq::empty(),
                }
            });
            let sel = ActionableSelector { steps };
            proof {
                assert(sel@.steps =~= sv);
            }
            Some((sel, k))
        },
        None => None,
    }
}

impl ActionableSelector {
    /// Compiles selector text. Malformed text yields a descriptive
    /// per-request error, never a fault of the run.
    pub fn from_string(source: &str) -> (r: Result<ActionableSelector, RequestError>)
        ensures
            match r {
                Ok(sel) => parse_selector_text_spec(source@) == Some(sel@),
                Err(e) => parse_selector_text_spec(source@) is None && e is SelectorParseError,
            },
    {
        let chars = crate::select::str_chars(source);
        let parsed = parse_selector(source, &chars, 0);
        match parsed {
            Some((sel, next)) => {
                if next == chars.len() {
                    Ok(sel)
                } else {
                    Err(
                        RequestError::SelectorParseError(
                            String::from_str("selector text has trailing input"),
                        ),
                    )
                }
            },
            None => Err(
                RequestError::SelectorParseError(String::from_str("malformed selector text")),
            ),
        }
    }
}

} // verus!
