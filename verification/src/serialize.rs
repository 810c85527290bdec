//! The namespace-aware streaming serializer.
//!
//! One pass walks the instruction queue. A single mutable prefix→uri
//! binding map is updated by `Namespaces` instructions; bindings are
//! overwritten flatly and never rolled back when an element's scope
//! ends, matching the established behaviour of the plan format. Each
//! start tag consumes the immediately following run of at most one
//! `Attributes` and one `Namespaces` instruction, resolves every name
//! to a bound prefix by reverse lookup, and yields one output event.

use vstd::prelude::*;
use vstd::string::StringExecFns;

use crate::error::SerializationError;
use crate::schema::Attribute;
use crate::schema::AttributeView;
use crate::schema::Namespace;
use crate::schema::NamespaceView;
use crate::schema::QualifiedNameView;
use crate::schema::WriteInstruction;
use crate::schema::WriteInstructionView;
use crate::schema::copy_attribute;
use crate::schema::copy_namespace;
use crate::schema::copy_namespaces;
use crate::schema::queue_view;

verus! {

/// The mathematical value of a serialization error.
pub enum SerializationErrorView {
    BadWrite,
    UnexpectedEOF,
    UnsetURI(Seq<char>),
    UnexpectedInstruction,
}

impl View for SerializationError {
    type V = SerializationErrorView;

    open spec fn view(&self) -> SerializationErrorView {
        match self {
            SerializationError::BadWrite => SerializationErrorView::BadWrite,
            SerializationError::UnexpectedEOF => SerializationErrorView::UnexpectedEOF,
            SerializationError::UnsetURI(u) => SerializationErrorView::UnsetURI(u@),
            SerializationError::UnexpectedInstruction => {
                SerializationErrorView::UnexpectedInstruction
            },
        }
    }
}

/// The prefix→uri binding map the serializer maintains: entries with
/// unique prefixes, overwritten in place. Reverse lookup picks the
/// least prefix bound to a uri, in lexicographic order.
#[derive(Debug)]
pub struct NsMap {
    pub entries: Vec<Namespace>,
}

/// Lexicographic order on character sequences: the order `String` keys
/// take in an ordered map.
pub open spec fn lex_lt_from(a: Seq<char>, b: Seq<char>, i: int) -> bool
    decreases a.len() - i,
{
    if i < 0 || i >= b.len() {
        false
    } else if i >= a.len() {
        true
    } else if a[i] != b[i] {
        a[i] < b[i]
    } else {
        lex_lt_from(a, b, i + 1)
    }
}

pub open spec fn lex_lt(a: Seq<char>, b: Seq<char>) -> bool {
    lex_lt_from(a, b, 0)
}

/// Inserts one binding: overwrites the first entry with the same
/// prefix, or appends.
pub open spec fn ns_insert_from(
    s: Seq<NamespaceView>,
    i: int,
    ns: NamespaceView,
) -> Seq<NamespaceView>
    decreases s.len() - i,
{
    if i < 0 || i >= s.len() {
        s.push(ns)
    } else if s[i].prefix == ns.prefix {
        s.update(i, ns)
    } else {
        ns_insert_from(s, i + 1, ns)
    }
}

pub open spec fn ns_insert(s: Seq<NamespaceView>, ns: NamespaceView) -> Seq<NamespaceView> {
    ns_insert_from(s, 0, ns)
}

/// Merges a `Namespaces` instruction into the binding map, first entry
/// first.
pub open spec fn ns_merge(s: Seq<NamespaceView>, list: Seq<NamespaceView>, i: int) -> Seq<
    NamespaceView,
>
    decreases list.len() - i,
{
    if i < 0 || i >= list.len() {
        s
    } else {
        ns_merge(ns_insert(s, list[i]), list, i + 1)
    }
}

/// The least prefix bound to `uri` among the first `i` entries.
pub open spec fn min_prefix_upto(s: Seq<NamespaceView>, uri: Seq<char>, i: int) -> Option<
    Seq<char>,
>
    decreases i,
{
    if i <= 0 {
        None
    } else {
        let rest = min_prefix_upto(s, uri, i - 1);
        if s[i - 1].uri != uri {
            rest
        } else {
            match rest {
                None => Some(s[i - 1].prefix),
                Some(p) => if lex_lt(s[i - 1].prefix, p) {
                    Some(s[i - 1].prefix)
                } else {
                    Some(p)
                },
            }
        }
    }
}

/// The prefix the serializer resolves `uri` to, if any: the least
/// bound prefix, as iteration over an ordered map yields it.
pub open spec fn resolve_prefix(s: Seq<NamespaceView>, uri: Seq<char>) -> Option<Seq<char>> {
    min_prefix_upto(s, uri, s.len() as int)
}

/// A name resolved for output: local name, optional namespace uri,
/// optional prefix.
#[derive(Debug)]
pub struct ResolvedName {
    pub local_name: String,
    pub uri: Option<String>,
    pub prefix: Option<String>,
}

pub struct ResolvedNameView {
    pub local_name: Seq<char>,
    pub uri: Option<Seq<char>>,
    pub prefix: Option<Seq<char>>,
}

impl View for ResolvedName {
    type V = ResolvedNameView;

    open spec fn view(&self) -> ResolvedNameView {
        ResolvedNameView {
            local_name: self.local_name@,
            uri: match self.uri {
                Some(ref u) => Some(u@),
                None => None,
            },
            prefix: match self.prefix {
                Some(ref p) => Some(p@),
                None => None,
            },
        }
    }
}

/// An attribute resolved for output.
#[derive(Debug)]
pub struct ResolvedAttribute {
    pub name: ResolvedName,
    pub value: String,
}

pub struct ResolvedAttributeView {
    pub name: ResolvedNameView,
    pub value: Seq<char>,
}

impl View for ResolvedAttribute {
    type V = ResolvedAttributeView;

    open spec fn view(&self) -> ResolvedAttributeView {
        ResolvedAttributeView { name: self.name@, value: self.value@ }
    }
}

/// One output event handed to the markup emitter.
#[derive(Debug)]
pub enum OutputEvent {
    StartTag {
        name: ResolvedName,
        attributes: Vec<ResolvedAttribute>,
        namespaces: Vec<Namespace>,
    },
    EndTag,
    Text { text: String },
    Comment { text: String },
    PI { target: String, value: Option<String> },
}

pub enum OutputEventView {
    StartTag {
        name: ResolvedNameView,
        attributes: Seq<ResolvedAttributeView>,
        namespaces: Seq<NamespaceView>,
    },
    EndTag,
    Text { text: Seq<char> },
    Comment { text: Seq<char> },
    PI { target: Seq<char>, value: Option<Seq<char>> },
}

impl View for OutputEvent {
    type V = OutputEventView;

    open spec fn view(&self) -> OutputEventView {
        match self {
            OutputEvent::StartTag { name, attributes, namespaces } => {
                OutputEventView::StartTag {
                    name: name@,
                    attributes: attributes@.map_values(|a: ResolvedAttribute| a@),
                    namespaces: namespaces@.map_values(|n: Namespace| n@),
                }
            },
            OutputEvent::EndTag => OutputEventView::EndTag,
            OutputEvent::Text { text } => OutputEventView::Text { text: text@ },
            OutputEvent::Comment { text } => OutputEventView::Comment { text: text@ },
            OutputEvent::PI { target, value } => {
                OutputEventView::PI {
                    target: target@,
                    value: match value {
                        Some(ref v) => Some(v@),
                        None => None,
                    },
                }
            },
        }
    }
}

/// Resolves one qualified name against the binding map: an empty uri
/// needs no prefix; a non-empty uri with no bound prefix is fatal.
pub open spec fn resolve_qname_spec(ns: Seq<NamespaceView>, qn: QualifiedNameView) -> Result<
    ResolvedNameView,
    SerializationErrorView,
> {
    match resolve_prefix(ns, qn.uri) {
        Some(px) => Ok(
            ResolvedNameView {
                local_name: qn.local_name,
                uri: if qn.uri.len() == 0 {
                    None
                } else {
                    Some(qn.uri)
                },
                prefix: if px.len() == 0 {
                    None
                } else {
                    Some(px)
                },
            },
        ),
        None => if qn.uri.len() == 0 {
            Ok(ResolvedNameView { local_name: qn.local_name, uri: None, prefix: None })
        } else {
            Err(SerializationErrorView::UnsetURI(qn.uri))
        },
    }
}

/// Resolves an attribute run, first failure first.
pub open spec fn resolve_attrs_spec(
    attrs: Seq<AttributeView>,
    ns: Seq<NamespaceView>,
    i: int,
) -> Result<Seq<ResolvedAttributeView>, SerializationErrorView>
    decreases attrs.len() - i,
{
    if i < 0 || i >= attrs.len() {
        Ok(Seq::empty())
    } else {
        match resolve_qname_spec(ns, attrs[i].qualified_name) {
            Ok(rn) => match resolve_attrs_spec(attrs, ns, i + 1) {
                Ok(rest) => Ok(
                    seq![ResolvedAttributeView { name: rn, value: attrs[i].value }] + rest,
                ),
                Err(e) => Err(e),
            },
            Err(e) => Err(e),
        }
    }
}

/// Consumes the attribute/namespace run following a start tag: ends at
/// the first other instruction, or fails if the plan is truncated.
pub open spec fn scan_run_spec(
    q: Seq<WriteInstructionView>,
    i: int,
    attrs: Seq<AttributeView>,
    ns: Seq<NamespaceView>,
) -> Result<(Seq<AttributeView>, Seq<NamespaceView>, int), SerializationErrorView>
    decreases q.len() - i,
{
    if i < 0 || i >= q.len() {
        Err(SerializationErrorView::UnexpectedEOF)
    } else {
        match q[i] {
            WriteInstructionView::Attributes { attributes } => {
                scan_run_spec(q, i + 1, attrs + attributes, ns)
            },
            WriteInstructionView::Namespaces { namespaces } => {
                scan_run_spec(q, i + 1, attrs, ns_merge(ns, namespaces, 0))
            },
            _ => Ok((attrs, ns, i)),
        }
    }
}

/// One step of the serializer: what the cursor position yields.
pub enum StepSpec {
    /// The plan is exhausted.
    End,
    Fail(SerializationErrorView),
    /// An event, the new cursor, and the new binding map.
    Emit(OutputEventView, int, Seq<NamespaceView>),
}

/// The serializer's next output event from `cursor`, given the current
/// binding map. `Document` markers are consumed silently.
pub open spec fn next_event_spec(
    q: Seq<WriteInstructionView>,
    cursor: int,
    ns: Seq<NamespaceView>,
) -> StepSpec
    decreases q.len() - cursor,
    when 0 <= cursor
{
    if cursor >= q.len() {
        StepSpec::End
    } else {
        match q[cursor] {
            WriteInstructionView::StartElement { qualified_name } => {
                match scan_run_spec(q, cursor + 1, Seq::empty(), ns) {
                    Err(e) => StepSpec::Fail(e),
                    Ok((attrs, ns2, next)) => match resolve_attrs_spec(attrs, ns2, 0) {
                        Err(e) => StepSpec::Fail(e),
                        Ok(ravs) => match resolve_qname_spec(ns2, qualified_name) {
                            Err(e) => StepSpec::Fail(e),
                            Ok(rn) => StepSpec::Emit(
                                OutputEventView::StartTag {
                                    name: rn,
                                    attributes: ravs,
                                    namespaces: ns2,
                                },
                                next,
                                ns2,
                            ),
                        },
                    },
                }
            },
            WriteInstructionView::EndElement { qualified_name } => {
                StepSpec::Emit(OutputEventView::EndTag, cursor + 1, ns)
            },
            WriteInstructionView::Document => next_event_spec(q, cursor + 1, ns),
            WriteInstructionView::Text { text } => {
                StepSpec::Emit(OutputEventView::Text { text }, cursor + 1, ns)
            },
            WriteInstructionView::Comment { text } => {
                StepSpec::Emit(OutputEventView::Comment { text }, cursor + 1, ns)
            },
            WriteInstructionView::PI { target, value } => {
                StepSpec::Emit(
                    OutputEventView::PI {
                        target,
                        value: if value.len() == 0 {
                            None
                        } else {
                            Some(value)
                        },
                    },
                    cursor + 1,
                    ns,
                )
            },
            _ => StepSpec::Fail(SerializationErrorView::UnexpectedInstruction),
        }
    }
}


impl NsMap {
    pub open spec fn view_seq(self) -> Seq<NamespaceView> {
        self.entries@.map_values(|n: Namespace| n@)
    }

    /// An empty binding map.
    pub fn new() -> (r: NsMap)
        ensures
            r.view_seq() =~= Seq::<NamespaceView>::empty(),
    {
        NsMap { entries: Vec::new() }
    }

    /// Inserts one binding, overwriting the entry with the same prefix.
    fn insert(&mut self, ns: &Namespace)
        ensures
            final(self).view_seq() == ns_insert(old(self).view_seq(), ns@),
    {
        let len = self.entries.len();
        let mut i: usize = 0;
        while i < len
            invariant
                len == self.entries@.len(),
                *self == *old(self),
                i <= len,
                ns_insert(old(self).view_seq(), ns@) == ns_insert_from(
                    old(self).view_seq(),
                    i as int,
                    ns@,
                ),
            decreases len - i,
        {
            if self.entries[i].prefix.eq(&ns.prefix) {
                let ghost pre = self.view_seq();
                self.entries[i] = copy_namespace(ns);
                proof {
                    assert(self.view_seq() =~= pre.update(i as int, ns@));
                }
                return ;
            }
            proof {
                assert(old(self).view_seq()[i as int] == old(self).entries@[i as int]@);
            }
            i = i + 1;
        }
        let ghost pre = self.view_seq();
        self.entries.push(copy_namespace(ns));
        proof {
            assert(self.view_seq() =~= pre.push(ns@));
        }
    }

    /// Merges a whole `Namespaces` list, first entry first.
    fn merge(&mut self, list: &Vec<Namespace>)
        ensures
            final(self).view_seq() == ns_merge(old(self).view_seq(), ns_list_view(list@), 0),
    {
        let len = list.len();
        let mut i: usize = 0;
        while i < len
            invariant
                len == list@.len(),
                i <= len,
                ns_merge(self.view_seq(), ns_list_view(list@), i as int) == ns_merge(
                    old(self).view_seq(),
                    ns_list_view(list@),
                    0,
                ),
            decreases len - i,
        {
            proof {
                assert(ns_list_view(list@)[i as int] == list@[i as int]@);
            }
            self.insert(&list[i]);
            i = i + 1;
        }
    }

    /// Reverse lookup: the least prefix bound to `uri`.
    fn resolve(&self, uri: &String) -> (r: Option<String>)
        ensures
            match r {
                Some(p) => resolve_prefix(self.view_seq(), uri@) == Some(p@),
                None => resolve_prefix(self.view_seq(), uri@) is None,
            },
    {
        let len = self.entries.len();
        let mut best: Option<String> = None;
        let mut i: usize = 0;
        while i < len
            invariant
                len == self.entries@.len(),
                i <= len,
                match best {
                    Some(ref p) => min_prefix_upto(self.view_seq(), uri@, i as int) == Some(p@),
                    None => min_prefix_upto(self.view_seq(), uri@, i as int) is None,
                },
            decreases len - i,
        {
            proof {
                assert(self.view_seq()[i as int] == self.entries@[i as int]@);
            }
            if self.entries[i].uri.eq(uri) {
                match best {
                    Some(p) => {
                        if str_lex_lt(&self.entries[i].prefix, &p) {
                            best = Some(self.entries[i].prefix.clone());
                        } else {
                            best = Some(p);
                        }
                    },
                    None => {
                        best = Some(self.entries[i].prefix.clone());
                    },
                }
            }
            i = i + 1;
        }
        best
    }

    /// A copy of the current bindings.
    fn snapshot(&self) -> (r: Vec<Namespace>)
        ensures
            ns_list_view(r@) == self.view_seq(),
    {
        copy_namespaces(&self.entries)
    }
}

/// The views of a namespace list.
pub open spec fn ns_list_view(l: Seq<Namespace>) -> Seq<NamespaceView> {
    l.map_values(|n: Namespace| n@)
}

/// Compares two strings in lexicographic character order.
fn str_lex_lt(a: &String, b: &String) -> (r: bool)
    ensures
        r == lex_lt(a@, b@),
{
    let av = crate::select::str_chars(a.as_str());
    let bv = crate::select::str_chars(b.as_str());
    let mut i: usize = 0;
    loop
        invariant
            av@ == a@,
            bv@ == b@,
            0 <= i,
            i <= av@.len() || i <= bv@.len(),
            lex_lt(a@, b@) == lex_lt_from(a@, b@, i as int),
        decreases av@.len() + bv@.len() - i,
    {
        if i >= bv.len() {
            return false;
        }
        if i >= av.len() {
            return true;
        }
        if av[i] != bv[i] {
            return av[i] < bv[i];
        }
        i = i + 1;
    }
}

/// Resolves one qualified name of the plan against the binding map.
fn resolve_name(ns_map: &NsMap, qn: &crate::schema::QualifiedName) -> (r: Result<
    ResolvedName,
    SerializationError,
>)
    ensures
        match r {
            Ok(rn) => resolve_qname_spec(ns_map.view_seq(), qn@) == Ok::<
                ResolvedNameView,
                SerializationErrorView,
            >(rn@),
            Err(e) => resolve_qname_spec(ns_map.view_seq(), qn@) == Err::<
                ResolvedNameView,
                SerializationErrorView,
            >(e@),
        },
{
    let found = ns_map.resolve(&qn.uri);
    match found {
        Some(px) => Ok(
            ResolvedName {
                local_name: qn.local_name.clone(),
                uri: if qn.uri.as_str().is_empty() {
                    None
                } else {
                    Some(qn.uri.clone())
                },
                prefix: if px.as_str().is_empty() {
                    None
                } else {
                    Some(px)
                },
            },
        ),
        None => {
            if qn.uri.as_str().is_empty() {
                Ok(ResolvedName { local_name: qn.local_name.clone(), uri: None, prefix: None })
            } else {
                Err(SerializationError::UnsetURI(qn.uri.clone()))
            }
        },
    }
}

/// Resolves a collected attribute run, first failure first.
fn resolve_attrs(ns_map: &NsMap, attrs: &Vec<Attribute>) -> (r: Result<
    Vec<ResolvedAttribute>,
    SerializationError,
>)
    ensures
        match r {
            Ok(ravs) => resolve_attrs_spec(attr_list_view(attrs@), ns_map.view_seq(), 0) == Ok::<
                Seq<ResolvedAttributeView>,
                SerializationErrorView,
            >(ravs@.map_values(|x: ResolvedAttribute| x@)),
            Err(e) => resolve_attrs_spec(attr_list_view(attrs@), ns_map.view_seq(), 0) == Err::<
                Seq<ResolvedAttributeView>,
                SerializationErrorView,
            >(e@),
        },
{
    let ghost avs = attr_list_view(attrs@);
    let len = attrs.len();
    let mut out: Vec<ResolvedAttribute> = Vec::new();
    let mut i: usize = 0;
    while i < len
        invariant
            len == avs.len(),
            avs == attr_list_view(attrs@),
            i <= len,
            rav_with_tail(
                out@.map_values(|x: ResolvedAttribute| x@),
                resolve_attrs_spec(avs, ns_map.view_seq(), i as int),
            ) == rav_with_tail(
                Seq::<ResolvedAttributeView>::empty(),
                resolve_attrs_spec(avs, ns_map.view_seq(), 0),
            ),
        decreases len - i,
    {
        proof {
            assert(avs[i as int] == attrs@[i as int]@);
        }
        let rn = resolve_name(ns_map, &attrs[i].qualified_name);
        match rn {
            Ok(rnv) => {
                let ghost pre = out@.map_values(|x: ResolvedAttribute| x@);
                out.push(ResolvedAttribute { name: rnv, value: attrs[i].value.clone() });
                proof {
                    let ghost x = ResolvedAttributeView {
                        name: rnv@,
                        value: attrs@[i as int].value@,
                    };
                    assert(out@.map_values(|x2: ResolvedAttribute| x2@) =~= pre.push(x));
                    lemma_rav_with_tail_assoc();
                    assert(pre.push(x) =~= pre + seq![x]);
                }
            },
            Err(e) => {
                return Err(e);
            },
        }
        i = i + 1;
    }
    proof {
        assert(out@.map_values(|x: ResolvedAttribute| x@) + Seq::<
            ResolvedAttributeView,
        >::empty() =~= out@.map_values(|x: ResolvedAttribute| x@));
        assert(Seq::<ResolvedAttributeView>::empty() + resolve_attrs_spec(
            avs,
            ns_map.view_seq(),
            0,
        )->Ok_0 =~= resolve_attrs_spec(avs, ns_map.view_seq(), 0)->Ok_0);
    }
    Ok(out)
}

/// The views of an attribute list.
pub open spec fn attr_list_view(l: Seq<Attribute>) -> Seq<AttributeView> {
    l.map_values(|a: Attribute| a@)
}

/// Combines resolved attributes with the rest of a resolution.
pub open spec fn rav_with_tail(
    acc: Seq<ResolvedAttributeView>,
    rest: Result<Seq<ResolvedAttributeView>, SerializationErrorView>,
) -> Result<Seq<ResolvedAttributeView>, SerializationErrorView> {
    match rest {
        Ok(tail) => Ok(acc + tail),
        Err(e) => Err(e),
    }
}

proof fn lemma_rav_with_tail_assoc()
    ensures
        forall|a: Seq<ResolvedAttributeView>, b: Seq<ResolvedAttributeView>, r: Result<
            Seq<ResolvedAttributeView>,
            SerializationErrorView,
        >| #[trigger] rav_with_tail(a + b, r) == rav_with_tail(a, rav_with_tail(b, r)),
{
    assert forall|a: Seq<ResolvedAttributeView>, b: Seq<ResolvedAttributeView>, r: Result<
        Seq<ResolvedAttributeView>,
        SerializationErrorView,
    >| #[trigger] rav_with_tail(a + b, r) == rav_with_tail(a, rav_with_tail(b, r)) by {
        match r {
            Ok(tail) => {
                assert((a + b) + tail =~= a + (b + tail));
            },
            Err(e) => {},
        }
    }
}


/// The full event plan from `cursor` on: all events in order, or the
/// first planning failure.
pub open spec fn events_spec(
    q: Seq<WriteInstructionView>,
    cursor: int,
    ns: Seq<NamespaceView>,
) -> Result<Seq<OutputEventView>, SerializationErrorView>
    decreases q.len() - cursor,
    when 0 <= cursor
    via events_spec_decreases
{
    match next_event_spec(q, cursor, ns) {
        StepSpec::End => Ok(Seq::empty()),
        StepSpec::Fail(e) => Err(e),
        StepSpec::Emit(ev, c2, ns2) => match events_spec(q, c2, ns2) {
            Ok(rest) => Ok(seq![ev] + rest),
            Err(e) => Err(e),
        },
    }
}

/// A yielded event always advances the cursor and stays in bounds.
proof fn lemma_next_event_advances(q: Seq<WriteInstructionView>, cursor: int, ns: Seq<NamespaceView>)
    requires
        0 <= cursor,
    ensures
        match next_event_spec(q, cursor, ns) {
            StepSpec::Emit(ev, c2, ns2) => cursor < c2 <= q.len(),
            _ => true,
        },
    decreases q.len() - cursor,
{
    if cursor < q.len() {
        match q[cursor] {
            WriteInstructionView::StartElement { qualified_name } => {
                lemma_scan_run_bounds(q, cursor + 1, Seq::empty(), ns);
            },
            WriteInstructionView::Document => {
                lemma_next_event_advances(q, cursor + 1, ns);
            },
            _ => {},
        }
    }
}

/// A successful run scan ends inside the plan, past its start.
proof fn lemma_scan_run_bounds(
    q: Seq<WriteInstructionView>,
    i: int,
    attrs: Seq<AttributeView>,
    ns: Seq<NamespaceView>,
)
    requires
        0 <= i,
    ensures
        match scan_run_spec(q, i, attrs, ns) {
            Ok((a2, n2, next)) => i <= next < q.len(),
            Err(e) => true,
        },
    decreases q.len() - i,
{
    if i < q.len() {
        match q[i] {
            WriteInstructionView::Attributes { attributes } => {
                lemma_scan_run_bounds(q, i + 1, attrs + attributes, ns);
            },
            WriteInstructionView::Namespaces { namespaces } => {
                lemma_scan_run_bounds(q, i + 1, attrs, ns_merge(ns, namespaces, 0));
            },
            _ => {},
        }
    }
}

#[via_fn]
proof fn events_spec_decreases(q: Seq<WriteInstructionView>, cursor: int, ns: Seq<NamespaceView>) {
    lemma_next_event_advances(q, cursor, ns);
}

/// Turns the plan's serializer output into emitter events: pads
/// self-closing tags and pretty-prints when asked to.
#[derive(Debug)]
pub struct XmlRsProcessor {
    pub pad_self_closing: bool,
    pub perform_indent: bool,
}

impl XmlRsProcessor {
    /// The serializer's next output event; advances the cursor and the
    /// binding map exactly as the plan dictates.
    pub fn get_next_event(
        &self,
        cursor: &mut usize,
        queue: &Vec<WriteInstruction>,
        ns_map: &mut NsMap,
    ) -> (r: Result<Option<OutputEvent>, SerializationError>)
        requires
            *old(cursor) <= queue@.len(),
        ensures
            match next_event_spec(queue_view(queue@), *old(cursor) as int, old(ns_map).view_seq()) {
                StepSpec::End => r is Ok && r->Ok_0 is None && final(ns_map).view_seq() == old(
                    ns_map,
                ).view_seq(),
                StepSpec::Fail(e) => r is Err && r->Err_0@ == e,
                StepSpec::Emit(ev, c2, ns2) => r is Ok && r->Ok_0 is Some && r->Ok_0->0@ == ev
                    && *final(cursor) == c2 && final(ns_map).view_seq() == ns2 && *old(cursor) < c2
                    <= queue@.len(),
            },
        decreases queue@.len() - *old(cursor),
    {
        let ghost q = queue_view(queue@);
        if *cursor >= queue.len() {
            return Ok(None);
        }
        let at = *cursor;
        proof {
            assert(q[at as int] == queue@[at as int]@);
        }
        match &queue[at] {
            WriteInstruction::StartElement { qualified_name } => {
                let mut attr_cache: Vec<Attribute> = Vec::new();
                let mut j = at + 1;
                proof {
                    assert(attr_list_view(attr_cache@) =~= Seq::<AttributeView>::empty());
                }
                loop
                    invariant
                        at == *old(cursor),
                        at + 1 <= j <= queue@.len(),
                        q == queue_view(queue@),
                        at < queue@.len(),
                        q[at as int] == (WriteInstructionView::StartElement {
                            qualified_name: qualified_name@,
                        }),
                        scan_run_spec(q, j as int, attr_list_view(attr_cache@), ns_map.view_seq())
                            == scan_run_spec(
                            q,
                            at + 1,
                            Seq::<AttributeView>::empty(),
                            old(ns_map).view_seq(),
                        ),
                    decreases queue@.len() - j,
                {
                    if j >= queue.len() {
                        proof {
                            assert(scan_run_spec(
                                q,
                                j as int,
                                attr_list_view(attr_cache@),
                                ns_map.view_seq(),
                            ) == Err::<
                                (Seq<AttributeView>, Seq<NamespaceView>, int),
                                SerializationErrorView,
                            >(SerializationErrorView::UnexpectedEOF));
                        }
                        return Err(SerializationError::UnexpectedEOF);
                    }
                    proof {
                        assert(q[j as int] == queue@[j as int]@);
                    }
                    match &queue[j] {
                        WriteInstruction::Attributes { attributes } => {
                            let ghost pre = attr_list_view(attr_cache@);
                            let len = attributes.len();
                            let mut k: usize = 0;
                            while k < len
                                invariant
                                    k <= len,
                                    len == attributes@.len(),
                                    attr_list_view(attr_cache@) =~= pre + attr_list_view(
                                        attributes@,
                                    ).take(k as int),
                                decreases len - k,
                            {
                                let ghost mid = attr_list_view(attr_cache@);
                                attr_cache.push(copy_attribute(&attributes[k]));
                                proof {
                                    assert(attr_list_view(attr_cache@) =~= mid.push(
                                        attributes@[k as int]@,
                                    ));
                                    assert(attr_list_view(attributes@).take(k + 1)
                                        =~= attr_list_view(attributes@).take(k as int).push(
                                        attributes@[k as int]@,
                                    ));
                                    assert(attr_list_view(attr_cache@) =~= pre + attr_list_view(
                                        attributes@,
                                    ).take(k + 1));
                                }
                                k = k + 1;
                            }
                            proof {
                                assert(attr_list_view(attributes@).take(len as int)
                                    =~= attr_list_view(attributes@));
                            }
                            j = j + 1;
                        },
                        WriteInstruction::Namespaces { namespaces } => {
                            ns_map.merge(namespaces);
                            j = j + 1;
                        },
                        _ => {
                            // the run ended at a regular instruction
                            proof {
                                assert(scan_run_spec(
                                    q,
                                    j as int,
                                    attr_list_view(attr_cache@),
                                    ns_map.view_seq(),
                                ) == Ok::<
                                    (Seq<AttributeView>, Seq<NamespaceView>, int),
                                    SerializationErrorView,
                                >((attr_list_view(attr_cache@), ns_map.view_seq(), j as int)));
                            }
                            let ravs = resolve_attrs(ns_map, &attr_cache);
                            match ravs {
                                Ok(attributes) => {
                                    let rn = resolve_name(ns_map, qualified_name);
                                    match rn {
                                        Ok(name) => {
                                            let namespaces = ns_map.snapshot();
                                            *cursor = j;
                                            return Ok(
                                                Some(
                                                    OutputEvent::StartTag {
                                                        name,
                                                        attributes,
                                                        namespaces,
                                                    },
                                                ),
                                            );
                                        },
                                        Err(e) => {
                                            return Err(e);
                                        },
                                    }
                                },
                                Err(e) => {
                                    return Err(e);
                                },
                            }
                        },
                    }
                }
            },
            WriteInstruction::EndElement { .. } => {
                *cursor = at + 1;
                Ok(Some(OutputEvent::EndTag))
            },
            WriteInstruction::Document => {
                *cursor = at + 1;
                let r = self.get_next_event(cursor, queue, ns_map);
                r
            },
            WriteInstruction::Text { text } => {
                *cursor = at + 1;
                Ok(Some(OutputEvent::Text { text: text.clone() }))
            },
            WriteInstruction::Comment { text } => {
                *cursor = at + 1;
                Ok(Some(OutputEvent::Comment { text: text.clone() }))
            },
            WriteInstruction::PI { target, value } => {
                *cursor = at + 1;
                let v = if value.as_str().is_empty() {
                    None
                } else {
                    Some(value.clone())
                };
                Ok(Some(OutputEvent::PI { target: target.clone(), value: v }))
            },
            _ => Err(SerializationError::UnexpectedInstruction),
        }
    }
}


/// The markup emitter of the `xml` crate, declared so its writer can
/// cross verified signatures. Values of it are opaque here.
#[verifier::external_type_specification]
#[verifier::external_body]
#[verifier::reject_recursive_types(W)]
pub struct ExEventWriter<W>(xml::writer::EventWriter<W>);

/// The `xml` crate's borrowed name triple, declared for the converter
/// below.
#[verifier::external_type_specification]
#[verifier::external_body]
pub struct ExName<'a>(xml::name::Name<'a>);

/// Relies on the field layout of `xml::name::Name`: builds the
/// emitter's borrowed name from a resolved name, one field each.
#[verifier::external_body]
fn xml_name<'a>(n: &'a ResolvedName) -> xml::name::Name<'a> {
    xml::name::Name {
        local_name: n.local_name.as_str(),
        namespace: n.uri.as_deref(),
        prefix: n.prefix.as_deref(),
    }
}

/// Relies on `xml::EmitterConfig`: a fresh event writer over an owned
/// byte sink, with the document declaration suppressed, as configured.
#[verifier::external_body]
fn new_event_writer(pad_self_closing: bool, perform_indent: bool) -> xml::writer::EventWriter<
    Vec<u8>,
> {
    xml::writer::EmitterConfig::new()
        .write_document_declaration(false)
        .pad_self_closing(pad_self_closing)
        .perform_indent(perform_indent)
        .create_writer(Vec::new())
}

/// Relies on `xml::writer::EventWriter::write` with a `StartElement`
/// event: emits the start tag, or reports the sink's refusal.
#[verifier::external_body]
fn write_start_tag(
    w: &mut xml::writer::EventWriter<Vec<u8>>,
    name: &ResolvedName,
    attributes: &Vec<ResolvedAttribute>,
    namespaces: &Vec<Namespace>,
) -> Result<(), ()> {
    let mut attrs: Vec<xml::attribute::Attribute> = Vec::new();
    for a in attributes.iter() {
        attrs.push(xml::attribute::Attribute { name: xml_name(&a.name), value: a.value.as_str() });
    }
    let mut map: std::collections::BTreeMap<String, String> = std::collections::BTreeMap::new();
    for n in namespaces.iter() {
        map.insert(n.prefix.clone(), n.uri.clone());
    }
    let event = xml::writer::XmlEvent::StartElement {
        name: xml_name(name),
        attributes: std::borrow::Cow::Owned(attrs),
        namespace: std::borrow::Cow::Owned(xml::namespace::Namespace(map)),
    };
    w.write(event).map_err(|_| ())
}

/// Relies on `xml::writer::EventWriter::write` with an `EndElement`
/// event: closes the innermost open tag.
#[verifier::external_body]
fn write_end_tag(w: &mut xml::writer::EventWriter<Vec<u8>>) -> Result<(), ()> {
    w.write(xml::writer::XmlEvent::EndElement { name: None }).map_err(|_| ())
}

/// Relies on `xml::writer::EventWriter::write` with a `Characters`
/// event: emits escaped character data.
#[verifier::external_body]
fn write_characters(w: &mut xml::writer::EventWriter<Vec<u8>>, text: &String) -> Result<(), ()> {
    w.write(xml::writer::XmlEvent::Characters(text.as_str())).map_err(|_| ())
}

/// Relies on `xml::writer::EventWriter::write` with a `Comment` event.
#[verifier::external_body]
fn write_comment(w: &mut xml::writer::EventWriter<Vec<u8>>, text: &String) -> Result<(), ()> {
    w.write(xml::writer::XmlEvent::Comment(text.as_str())).map_err(|_| ())
}

/// Relies on `xml::writer::EventWriter::write` with a
/// `ProcessingInstruction` event.
#[verifier::external_body]
fn write_pi(
    w: &mut xml::writer::EventWriter<Vec<u8>>,
    target: &String,
    value: &Option<String>,
) -> Result<(), ()> {
    let event = xml::writer::XmlEvent::ProcessingInstruction {
        name: target.as_str(),
        data: value.as_deref(),
    };
    w.write(event).map_err(|_| ())
}

/// Relies on `xml::writer::EventWriter::into_inner`: hands back the
/// bytes written so far.
#[verifier::external_body]
fn writer_into_bytes(w: xml::writer::EventWriter<Vec<u8>>) -> Vec<u8> {
    w.into_inner()
}

impl XmlRsProcessor {
    /// Streams the whole plan into markup text. The returned bytes come
    /// from the markup emitter; planning failures are reported exactly,
    /// and a sink refusal as `BadWrite`.
    pub fn write_queue(&self, queue: &Vec<WriteInstruction>) -> (r: Result<
        Vec<u8>,
        SerializationError,
    >)
        ensures
            r is Ok ==> events_spec(queue_view(queue@), 0, Seq::empty()) is Ok,
            (r is Err && !(r->Err_0 is BadWrite)) ==> events_spec(queue_view(queue@), 0, Seq::empty())
                == Err::<Seq<OutputEventView>, SerializationErrorView>(r->Err_0@),
    {
        let ghost q = queue_view(queue@);
        let mut writer = new_event_writer(self.pad_self_closing, self.perform_indent);
        let mut cursor: usize = 0;
        let mut ns_map = NsMap::new();
        loop
            invariant
                q == queue_view(queue@),
                cursor <= queue@.len(),
                (match (events_spec(q, 0, Seq::<NamespaceView>::empty()), events_spec(
                    q,
                    cursor as int,
                    ns_map.view_seq(),
                )) {
                    (Ok(a), Ok(b)) => true,
                    (Err(a), Err(b)) => a == b,
                    _ => false,
                }),
            decreases queue@.len() - cursor,
        {
            let step = self.get_next_event(&mut cursor, queue, &mut ns_map);
            match step {
                Ok(None) => {
                    return Ok(writer_into_bytes(writer));
                },
                Ok(Some(event)) => {
                    let wrote: Result<(), ()> = match &event {
                        OutputEvent::StartTag { name, attributes, namespaces } => {
                            write_start_tag(&mut writer, name, attributes, namespaces)
                        },
                        OutputEvent::EndTag => write_end_tag(&mut writer),
                        OutputEvent::Text { text } => write_characters(&mut writer, text),
                        OutputEvent::Comment { text } => write_comment(&mut writer, text),
                        OutputEvent::PI { target, value } => write_pi(&mut writer, target, value),
                    };
                    if wrote.is_err() {
                        return Err(SerializationError::BadWrite);
                    }
                },
                Err(e) => {
                    return Err(e);
                },
            }
        }
    }
}

} // verus!
