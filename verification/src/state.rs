//! The shared run state and the coordinator's decision logic.
//!
//! One `StateManager` exists per run. Handlers mutate it only under the
//! caller's exclusive section; the supervising loop polls it to decide
//! whether to keep serving, finish the run, or abort.

use vstd::prelude::*;

use crate::document::DocumentWrapper;
use crate::document::deep_text_spec;
use crate::document::selectable_kind;
use crate::error::RequestError;
use crate::error::RequestResult;
use crate::parse::parse_selector_text_spec;
use crate::queue::ReplacementMapping;
use crate::schema::Attribute;
use crate::schema::Element;
use crate::schema::QualifiedName;
use crate::schema::Request;
use crate::schema::Response;
use crate::schema::TransformResult;
use crate::schema::WriteInstructionView;
use crate::schema::queue_view;
use crate::select::ActionableSelector;
use crate::select::eval_selector;
use crate::select::sorted_strict;
use crate::tree::NodeKind;

verus! {

/// The single shared state object of a run.
#[derive(Debug)]
pub struct StateManager {
    /// Expected unit count, accumulated from `PutCount`.
    pub count: usize,
    /// The override mapping.
    pub results: ReplacementMapping,
    /// Completed unit count: one per `PutResults` submission.
    pub progress: usize,
    /// Whether `PutComplete` was received.
    pub completed: bool,
    /// The terminal error, if any handler recorded one.
    pub error: Option<RequestError>,
    /// How many submissions overwrote an existing override.
    pub race_count: usize,
}

/// What the supervising loop should do next.
#[derive(Debug, Clone, Copy, PartialEq, Eq, Structural)]
pub enum PollDecision {
    KeepServing,
    CompleteRun,
    AbortRun,
}

/// The mapping lookup after the first `k` submissions of a batch: the
/// last write wins.
pub open spec fn lookup_after_puts(
    m: ReplacementMapping,
    results: Seq<TransformResult>,
    k: int,
    n: int,
    md: Seq<char>,
) -> Option<Seq<WriteInstructionView>>
    decreases k,
{
    if k <= 0 {
        m.lookup(n, md)
    } else if results[k - 1].node_id == n && results[k - 1].mode@ == md {
        Some(queue_view(results[k - 1].instructions@))
    } else {
        lookup_after_puts(m, results, k - 1, n, md)
    }
}

/// How many of the first `k` submissions overwrote an existing entry.
pub open spec fn races_in(m: ReplacementMapping, results: Seq<TransformResult>, k: int) -> int
    decreases k,
{
    if k <= 0 {
        0
    } else {
        races_in(m, results, k - 1) + (if lookup_after_puts(
            m,
            results,
            k - 1,
            results[k - 1].node_id as int,
            results[k - 1].mode@,
        ) is Some {
            1int
        } else {
            0int
        })
    }
}

impl StateManager {
    pub open spec fn wf(self) -> bool {
        self.results.wf()
    }

    /// A fresh run: nothing expected, nothing received.
    pub fn new() -> (r: StateManager)
        ensures
            r.wf(),
            r.count == 0,
            r.progress == 0,
            !r.completed,
            r.error is None,
            r.race_count == 0,
            r.results.entries@.len() == 0,
            forall|n: int, md: Seq<char>| r.results.lookup(n, md) is None,
    {
        StateManager {
            count: 0,
            results: ReplacementMapping::new(),
            progress: 0,
            completed: false,
            error: None,
            race_count: 0,
        }
    }

    /// Applies one `PutResults` batch: each override is inserted (every
    /// overwrite counting one conflict), and the whole submission
    /// counts one completed unit.
    pub fn put_results(&mut self, results: Vec<TransformResult>) -> (r: RequestResult<
        Option<Response>,
    >)
        requires
            old(self).wf(),
            old(self).progress < usize::MAX,
            old(self).race_count + results@.len() <= usize::MAX,
        ensures
            final(self).wf(),
            r == Ok::<Option<Response>, RequestError>(None::<Response>),
            final(self).count == old(self).count,
            final(self).completed == old(self).completed,
            final(self).error == old(self).error,
            final(self).progress == old(self).progress + 1,
            final(self).race_count == old(self).race_count + races_in(
                old(self).results,
                results@,
                results@.len() as int,
            ),
            forall|n: int, md: Seq<char>|
                final(self).results.lookup(n, md) == lookup_after_puts(
                    old(self).results,
                    results@,
                    results@.len() as int,
                    n,
                    md,
                ),
    {
        let ghost orig = results@;
        let ghost m0 = self.results;
        let len = results.len();
        let mut results = results;
        let mut i: usize = 0;
        while i < len
            invariant
                len == orig.len(),
                i <= len,
                results@ == orig.skip(i as int),
                self.results.wf(),
                self.count == old(self).count,
                self.completed == old(self).completed,
                self.error == old(self).error,
                self.progress == old(self).progress,
                self.race_count == old(self).race_count + races_in(m0, orig, i as int),
                self.race_count + (orig.len() - i) <= usize::MAX,
                forall|n: int, md: Seq<char>|
                    self.results.lookup(n, md) == lookup_after_puts(m0, orig, i as int, n, md),
            decreases len - i,
        {
            proof {
                assert(orig.skip(i as int)[0] == orig[i as int]);
            }
            let item = results.remove(0);
            proof {
                assert(results@ =~= orig.skip(i + 1));
            }
            let TransformResult { node_id, mode, instructions } = item;
            let ghost mode_view = mode@;
            let replaced = self.results.insert(node_id, mode, instructions);
            if replaced {
                self.race_count = self.race_count + 1;
            }
            proof {
                assert forall|n: int, md: Seq<char>|
                    self.results.lookup(n, md) == lookup_after_puts(m0, orig, i + 1, n, md) by {
                    if n == node_id as int && md == mode_view {
                    } else {
                        assert(lookup_after_puts(m0, orig, i + 1, n, md) == lookup_after_puts(
                            m0,
                            orig,
                            i as int,
                            n,
                            md,
                        ));
                    }
                }
            }
            i = i + 1;
        }
        self.progress = self.progress + 1;
        Ok(None)
    }

    /// Accumulates the expected unit count.
    pub fn put_count(&mut self, n: usize) -> (r: RequestResult<Option<Response>>)
        requires
            old(self).wf(),
            old(self).count + n <= usize::MAX,
        ensures
            final(self).wf(),
            r == Ok::<Option<Response>, RequestError>(None::<Response>),
            final(self).count == old(self).count + n,
            final(self).results == old(self).results,
            final(self).completed == old(self).completed,
            final(self).error == old(self).error,
            final(self).progress == old(self).progress,
            final(self).race_count == old(self).race_count,
    {
        self.count = self.count + n;
        Ok(None)
    }

    /// Marks that no further units are expected.
    pub fn put_complete(&mut self) -> (r: RequestResult<Option<Response>>)
        requires
            old(self).wf(),
        ensures
            final(self).wf(),
            r == Ok::<Option<Response>, RequestError>(None::<Response>),
            final(self).completed,
            final(self).count == old(self).count,
            final(self).results == old(self).results,
            final(self).error == old(self).error,
            final(self).progress == old(self).progress,
            final(self).race_count == old(self).race_count,
    {
        self.completed = true;
        Ok(None)
    }

    /// Records a handler's terminal failure.
    pub fn record_error(&mut self, e: RequestError)
        requires
            old(self).wf(),
        ensures
            final(self).wf(),
            final(self).error == Some(e),
            final(self).count == old(self).count,
            final(self).results == old(self).results,
            final(self).completed == old(self).completed,
            final(self).progress == old(self).progress,
            final(self).race_count == old(self).race_count,
    {
        self.error = Some(e);
    }

    /// The supervising loop's decision: a recorded error aborts the
    /// run; completion plus a drained count finishes it; anything else
    /// keeps serving. Completion alone does not end the run.
    pub fn poll(&self) -> (d: PollDecision)
        ensures
            d is AbortRun <==> self.error is Some,
            d is CompleteRun <==> (self.error is None && self.completed && self.progress
                == self.count),
            d is KeepServing <==> (self.error is None && !(self.completed && self.progress
                == self.count)),
    {
        if self.error.is_some() {
            PollDecision::AbortRun
        } else if self.completed && self.progress == self.count {
            PollDecision::CompleteRun
        } else {
            PollDecision::KeepServing
        }
    }
}

/// The name a selection response reports for node `c`.
pub open spec fn qname_ok(d: DocumentWrapper, c: usize, q: QualifiedName) -> bool {
    match d.tree.node(c as int).kind {
        NodeKind::Element => q@ == d.tree.node(c as int).name@,
        NodeKind::Text => q.uri@ == d.tree.node(c as int).name.uri@ && q.local_name@ == "#text"@,
        _ => q.uri@.len() == 0 && q.local_name@.len() == 0,
    }
}

/// A selection response lists exactly the selectable results of the
/// evaluation, in document order, each under its reported name.
pub open spec fn selection_ok(
    d: DocumentWrapper,
    id: usize,
    sel: ActionableSelector,
    elements: Seq<Element>,
) -> bool {
    &&& sorted_strict(elements.map_values(|e: Element| e.node_id))
    &&& forall|k: int|
        0 <= k < elements.len() ==> {
            let c = #[trigger] elements[k].node_id;
            &&& eval_selector(d.tree, id, sel).contains(c)
            &&& (c as int) < d.tree.count()
            &&& selectable_kind(d.tree.node(c as int).kind)
            &&& qname_ok(d, c, elements[k].qualified_name)
        }
    &&& forall|c: usize|
        eval_selector(d.tree, id, sel).contains(c) && (c as int) < d.tree.count()
            && selectable_kind(d.tree.node(c as int).kind) ==> elements.map_values(
            |e: Element| e.node_id,
        ).contains(c)
}

/// The target of a query names a node the document owns, and a mutating
/// request fits the machine's counters. The caller must check this
/// before handing a request in; a query against a foreign node id is a
/// caller contract violation.
pub open spec fn request_admissible(d: DocumentWrapper, s: StateManager, request: Request) -> bool {
    match request {
        Request::Selection { node_id, .. } => (node_id as int) < d.tree.count(),
        Request::Text { node_id } => (node_id as int) < d.tree.count(),
        Request::Attributes { node_id } => (node_id as int) < d.tree.count(),
        Request::PutResults { results } => s.progress < usize::MAX && s.race_count + results@.len()
            <= usize::MAX,
        Request::PutCount { count } => s.count + count <= usize::MAX,
        _ => true,
    }
}

/// Checks `request_admissible` at run time, for callers outside the
/// verified world.
pub fn request_admissible_check(d: &DocumentWrapper, s: &StateManager, request: &Request) -> (r:
    bool)
    ensures
        r == request_admissible(*d, *s, *request),
{
    match request {
        Request::Selection { node_id, .. } => d.tree.owns(*node_id),
        Request::Text { node_id } => d.tree.owns(*node_id),
        Request::Attributes { node_id } => d.tree.owns(*node_id),
        Request::PutResults { results } => s.progress < usize::MAX && results.len() <= usize::MAX
            - s.race_count,
        Request::PutCount { count } => *count <= usize::MAX - s.count,
        _ => true,
    }
}

/// Handles one request against the shared state: queries answer from
/// the immutable document, mutations update the state exactly as the
/// protocol prescribes, and `PutError` surfaces the worker's terminal
/// failure to the caller.
pub fn handle_request(
    document: &DocumentWrapper,
    request: Request,
    state: &mut StateManager,
) -> (r: RequestResult<Option<Response>>)
    requires
        document.wf(),
        old(state).wf(),
        request_admissible(*document, *old(state), request),
    ensures
        final(state).wf(),
        match request {
            Request::Selection { node_id, selector } => *final(state) == *old(state) && r is Ok
                && r->Ok_0 is Some && (match parse_selector_text_spec(selector@) {
                Some(selv) => exists|sel: ActionableSelector|
                    (#[trigger] sel@) == selv && (r->Ok_0->0 matches Response::Selection { elements }
                        && selection_ok(*document, node_id, sel, elements@)),
                None => r->Ok_0->0 is BadRequest,
            }),
            Request::Text { node_id } => *final(state) == *old(state) && (r matches Ok(
                Some(Response::Text { text }),
            ) && text@ == deep_text_spec(document.tree, node_id as int)),
            Request::Attributes { node_id } => *final(state) == *old(state) && (r matches Ok(
                Some(Response::Attributes { attributes }),
            ) && attributes@.map_values(|a: Attribute| a@) == document.tree.node(
                node_id as int,
            ).attributes@.map_values(|a: Attribute| a@)),
            Request::PutResults { results } => r == Ok::<Option<Response>, RequestError>(
                None::<Response>,
            ) && final(state).count == old(state).count && final(state).completed == old(state).completed && final(state).error == old(state).error && final(state).progress == old(state).progress + 1 && final(state).race_count == old(state).race_count + races_in(
                old(state).results,
                results@,
                results@.len() as int,
            ) && (forall|n: int, md: Seq<char>|
                final(state).results.lookup(n, md) == lookup_after_puts(
                    old(state).results,
                    results@,
                    results@.len() as int,
                    n,
                    md,
                )),
            Request::PutCount { count } => r == Ok::<Option<Response>, RequestError>(
                None::<Response>,
            ) && final(state).count == old(state).count + count && final(state).results == old(state).results && final(state).completed == old(state).completed && final(state).error
                == old(state).error && final(state).progress == old(state).progress && final(state).race_count == old(state).race_count,
            Request::PutComplete => r == Ok::<Option<Response>, RequestError>(None::<Response>)
                && final(state).completed && final(state).count == old(state).count && final(state).results == old(state).results && final(state).error == old(state).error && final(state).progress == old(state).progress && final(state).race_count == old(state).race_count,
            Request::PutError { message } => *final(state) == *old(state) && (r matches Err(
                RequestError::ChildTerminated(m),
            ) && m == message),
            Request::HeartBeat => *final(state) == *old(state) && r == Ok::<
                Option<Response>,
                RequestError,
            >(None::<Response>),
        },
{
    match request {
        Request::Selection { node_id, selector } => {
            let parsed = ActionableSelector::from_string(selector.as_str());
            match parsed {
                Ok(sel) => {
                    let selected = document.select(node_id, &sel);
                    let mut elements: Vec<Element> = Vec::new();
                    let len = selected.len();
                    let mut k: usize = 0;
                    while k < len
                        invariant
                            document.wf(),
                            (node_id as int) < document.tree.count(),
                            k <= len,
                            len == selected@.len(),
                            sorted_strict(selected@),
                            crate::select::all_below(selected@, document.tree.count()),
                            forall|c: usize|
                                selected@.contains(c) ==> eval_selector(
                                    document.tree,
                                    node_id,
                                    sel,
                                ).contains(c) && selectable_kind(
                                    document.tree.node(c as int).kind,
                                ),
                            forall|c: usize|
                                eval_selector(document.tree, node_id, sel).contains(c) && (
                                c as int) < document.tree.count() && selectable_kind(
                                    document.tree.node(c as int).kind,
                                ) ==> selected@.contains(c),
                            elements@.len() == k,
                            forall|m: int|
                                0 <= m < k ==> #[trigger] elements@[m].node_id == selected@[m],
                            forall|m: int|
                                0 <= m < k ==> qname_ok(
                                    *document,
                                    selected@[m],
                                    #[trigger] elements@[m].qualified_name,
                                ),
                        decreases len - k,
                    {
                        let c = selected[k];
                        let qualified_name = document.qualified_name(c);
                        elements.push(Element { qualified_name, node_id: c });
                        k = k + 1;
                    }
                    proof {
                        let ids = elements@.map_values(|e: Element| e.node_id);
                        assert(ids =~= selected@);
                        assert forall|k2: int| 0 <= k2 < elements@.len() implies {
                            let c = #[trigger] elements@[k2].node_id;
                            &&& eval_selector(document.tree, node_id, sel).contains(c)
                            &&& (c as int) < document.tree.count()
                            &&& selectable_kind(document.tree.node(c as int).kind)
                            &&& qname_ok(*document, c, elements@[k2].qualified_name)
                        } by {
                            assert(elements@[k2].node_id == selected@[k2]);
                            assert(selected@.contains(selected@[k2]));
                            assert(qname_ok(
                                *document,
                                selected@[k2],
                                elements@[k2].qualified_name,
                            ));
                        }
                        assert(selection_ok(*document, node_id, sel, elements@));
                    }
                    Ok(Some(Response::Selection { elements }))
                },
                Err(e) => {
                    let reason = match e {
                        RequestError::SelectorParseError(msg) => msg,
                        _ => String::new(),
                    };
                    Ok(Some(Response::BadRequest { reason }))
                },
            }
        },
        Request::Text { node_id } => {
            let text = document.text(node_id);
            Ok(Some(Response::Text { text }))
        },
        Request::Attributes { node_id } => {
            let attributes = document.attributes(node_id);
            Ok(Some(Response::Attributes { attributes }))
        },
        Request::PutResults { results } => state.put_results(results),
        Request::PutCount { count } => state.put_count(count),
        Request::PutComplete => state.put_complete(),
        Request::PutError { message } => Err(RequestError::ChildTerminated(message)),
        Request::HeartBeat => Ok(None),
    }
}

} // verus!
