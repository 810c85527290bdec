//! The data carried by the wire protocol and the serialization plan:
//! qualified names, attributes, namespace bindings, write instructions,
//! and the request/response messages of the coordinator.

use vstd::prelude::*;

verus! {

/// A namespace-qualified name. An empty `uri` means the name is in no
/// namespace.
#[derive(Debug, Clone, PartialEq)]
pub struct QualifiedName {
    pub uri: String,
    pub local_name: String,
}

/// One attribute of an element.
#[derive(Debug, Clone, PartialEq)]
pub struct Attribute {
    pub qualified_name: QualifiedName,
    pub value: String,
}

/// One namespace binding. An empty `prefix` stands for the default
/// namespace.
#[derive(Debug, Clone, PartialEq)]
pub struct Namespace {
    pub prefix: String,
    pub uri: String,
}

/// A node reference returned by a selection: its id and its name.
#[derive(Debug, Clone, PartialEq)]
pub struct Element {
    pub qualified_name: QualifiedName,
    pub node_id: usize,
}

/// One atomic unit of the serialization plan.
///
/// `Replace` is valid only inside the override mapping: the queue
/// builder resolves it, and it must never reach the serializer.
#[derive(Debug, Clone, PartialEq)]
pub enum WriteInstruction {
    StartElement { qualified_name: QualifiedName },
    EndElement { qualified_name: QualifiedName },
    Text { text: String },
    Attributes { attributes: Vec<Attribute> },
    Namespaces { namespaces: Vec<Namespace> },
    Replace { node_id: usize, mode: String },
    Document,
    PI { target: String, value: String },
    Comment { text: String },
}

/// One override submission: the instructions that replace the rendering
/// of `node_id` under `mode`.
#[derive(Debug, Clone, PartialEq)]
pub struct TransformResult {
    pub node_id: usize,
    pub mode: String,
    pub instructions: Vec<WriteInstruction>,
}

/// A request of the external worker.
#[derive(Debug, Clone, PartialEq)]
pub enum Request {
    Selection { node_id: usize, selector: String },
    Text { node_id: usize },
    Attributes { node_id: usize },
    PutResults { results: Vec<TransformResult> },
    PutCount { count: usize },
    PutComplete,
    PutError { message: String },
    HeartBeat,
}

/// The coordinator's answer to a query request.
#[derive(Debug, Clone, PartialEq)]
pub enum Response {
    Selection { elements: Vec<Element> },
    Text { text: String },
    Attributes { attributes: Vec<Attribute> },
    BadRequest { reason: String },
}


/// The mathematical value of a qualified name.
pub struct QualifiedNameView {
    pub uri: Seq<char>,
    pub local_name: Seq<char>,
}

impl View for QualifiedName {
    type V = QualifiedNameView;

    open spec fn view(&self) -> QualifiedNameView {
        QualifiedNameView { uri: self.uri@, local_name: self.local_name@ }
    }
}

/// The mathematical value of an attribute.
pub struct AttributeView {
    pub qualified_name: QualifiedNameView,
    pub value: Seq<char>,
}

impl View for Attribute {
    type V = AttributeView;

    open spec fn view(&self) -> AttributeView {
        AttributeView { qualified_name: self.qualified_name@, value: self.value@ }
    }
}

/// The mathematical value of a namespace binding.
pub struct NamespaceView {
    pub prefix: Seq<char>,
    pub uri: Seq<char>,
}

impl View for Namespace {
    type V = NamespaceView;

    open spec fn view(&self) -> NamespaceView {
        NamespaceView { prefix: self.prefix@, uri: self.uri@ }
    }
}

/// The mathematical value of one write instruction.
pub enum WriteInstructionView {
    StartElement { qualified_name: QualifiedNameView },
    EndElement { qualified_name: QualifiedNameView },
    Text { text: Seq<char> },
    Attributes { attributes: Seq<AttributeView> },
    Namespaces { namespaces: Seq<NamespaceView> },
    Replace { node_id: int, mode: Seq<char> },
    Document,
    PI { target: Seq<char>, value: Seq<char> },
    Comment { text: Seq<char> },
}

impl View for WriteInstruction {
    type V = WriteInstructionView;

    open spec fn view(&self) -> WriteInstructionView {
        match self {
            WriteInstruction::StartElement { qualified_name } => {
                WriteInstructionView::StartElement { qualified_name: qualified_name@ }
            },
            WriteInstruction::EndElement { qualified_name } => {
                WriteInstructionView::EndElement { qualified_name: qualified_name@ }
            },
            WriteInstruction::Text { text } => WriteInstructionView::Text { text: text@ },
            WriteInstruction::Attributes { attributes } => {
                WriteInstructionView::Attributes {
                    attributes: attributes@.map_values(|a: Attribute| a@),
                }
            },
            WriteInstruction::Namespaces { namespaces } => {
                WriteInstructionView::Namespaces {
                    namespaces: namespaces@.map_values(|n: Namespace| n@),
                }
            },
            WriteInstruction::Replace { node_id, mode } => {
                WriteInstructionView::Replace { node_id: *node_id as int, mode: mode@ }
            },
            WriteInstruction::Document => WriteInstructionView::Document,
            WriteInstruction::PI { target, value } => {
                WriteInstructionView::PI { target: target@, value: value@ }
            },
            WriteInstruction::Comment { text } => WriteInstructionView::Comment { text: text@ },
        }
    }
}

/// The views of a whole instruction queue.
pub open spec fn queue_view(q: Seq<WriteInstruction>) -> Seq<WriteInstructionView> {
    q.map_values(|w: WriteInstruction| w@)
}


/// A deep copy with the same view.
pub fn copy_qualified_name(q: &QualifiedName) -> (r: QualifiedName)
    ensures
        r@ == q@,
{
    QualifiedName { uri: q.uri.clone(), local_name: q.local_name.clone() }
}

/// A deep copy with the same view.
pub fn copy_attribute(a: &Attribute) -> (r: Attribute)
    ensures
        r@ == a@,
{
    Attribute { qualified_name: copy_qualified_name(&a.qualified_name), value: a.value.clone() }
}

/// A deep copy with the same view.
pub fn copy_namespace(n: &Namespace) -> (r: Namespace)
    ensures
        r@ == n@,
{
    Namespace { prefix: n.prefix.clone(), uri: n.uri.clone() }
}

/// A deep copy with the same element views.
pub fn copy_attributes(v: &Vec<Attribute>) -> (r: Vec<Attribute>)
    ensures
        r@.map_values(|a: Attribute| a@) == v@.map_values(|a: Attribute| a@),
{
    let mut r: Vec<Attribute> = Vec::new();
    let len = v.len();
    let mut i: usize = 0;
    while i < len
        invariant
            i <= len,
            len == v@.len(),
            r@.len() == i,
            forall|k: int| 0 <= k < i ==> #[trigger] r@[k]@ == v@[k]@,
        decreases len - i,
    {
        r.push(copy_attribute(&v[i]));
        i = i + 1;
    }
    proof {
        assert(r@.map_values(|a: Attribute| a@) =~= v@.map_values(|a: Attribute| a@));
    }
    r
}

/// A deep copy with the same element views.
pub fn copy_namespaces(v: &Vec<Namespace>) -> (r: Vec<Namespace>)
    ensures
        r@.map_values(|n: Namespace| n@) == v@.map_values(|n: Namespace| n@),
{
    let mut r: Vec<Namespace> = Vec::new();
    let len = v.len();
    let mut i: usize = 0;
    while i < len
        invariant
            i <= len,
            len == v@.len(),
            r@.len() == i,
            forall|k: int| 0 <= k < i ==> #[trigger] r@[k]@ == v@[k]@,
        decreases len - i,
    {
        r.push(copy_namespace(&v[i]));
        i = i + 1;
    }
    proof {
        assert(r@.map_values(|n: Namespace| n@) =~= v@.map_values(|n: Namespace| n@));
    }
    r
}

/// A deep copy with the same view.
pub fn copy_instruction(w: &WriteInstruction) -> (r: WriteInstruction)
    ensures
        r@ == w@,
{
    match w {
        WriteInstruction::StartElement { qualified_name } => {
            WriteInstruction::StartElement { qualified_name: copy_qualified_name(qualified_name) }
        },
        WriteInstruction::EndElement { qualified_name } => {
            WriteInstruction::EndElement { qualified_name: copy_qualified_name(qualified_name) }
        },
        WriteInstruction::Text { text } => WriteInstruction::Text { text: text.clone() },
        WriteInstruction::Attributes { attributes } => {
            WriteInstruction::Attributes { attributes: copy_attributes(attributes) }
        },
        WriteInstruction::Namespaces { namespaces } => {
            WriteInstruction::Namespaces { namespaces: copy_namespaces(namespaces) }
        },
        WriteInstruction::Replace { node_id, mode } => {
            WriteInstruction::Replace { node_id: *node_id, mode: mode.clone() }
        },
        WriteInstruction::Document => WriteInstruction::Document,
        WriteInstruction::PI { target, value } => {
            WriteInstruction::PI { target: target.clone(), value: value.clone() }
        },
        WriteInstruction::Comment { text } => WriteInstruction::Comment { text: text.clone() },
    }
}

} // verus!
