use oven::document::DocumentWrapper;
use oven::error::SerializationError;
use oven::queue::ReplacementMapping;
use oven::queue::queue_self_or_map;
use oven::schema::Attribute;
use oven::schema::Namespace;
use oven::schema::QualifiedName;
use oven::schema::WriteInstruction;
use oven::select::ActionableSelector;
use oven::select::ActionableStep;
use oven::select::AttributeOp;
use oven::select::AttributeRequirement;
use oven::select::Axis;
use oven::select::resolve_selector;
use oven::serialize::XmlRsProcessor;
use oven::state::PollDecision;
use oven::state::StateManager;
use oven::state::handle_request;
use oven::tree::Tree;
use oven::tree::TreeBuilder;

fn qn(uri: &str, local: &str) -> QualifiedName {
    QualifiedName {
        uri: uri.to_string(),
        local_name: local.to_string(),
    }
}

fn attr(name: &str, value: &str) -> Attribute {
    Attribute {
        qualified_name: qn("", name),
        value: value.to_string(),
    }
}

fn ns(prefix: &str, uri: &str) -> Namespace {
    Namespace {
        prefix: prefix.to_string(),
        uri: uri.to_string(),
    }
}

/// A document the selection tests share:
/// root(0) -> a(1) -> b(2, class="foo bar") -> text(3)
///                 -> b(4, class="baz")
///                 -> c(5) -> text(6)
fn sample_tree() -> Tree {
    let mut b = TreeBuilder::new();
    b.open_element(qn("", "a"), vec![], vec![]);
    b.open_element(qn("", "b"), vec![attr("class", "foo bar")], vec![]);
    b.text_node("hi".to_string());
    b.close_element();
    b.open_element(qn("", "b"), vec![attr("class", "baz")], vec![]);
    b.close_element();
    b.open_element(qn("", "c"), vec![], vec![]);
    b.text_node("deep".to_string());
    b.close_element();
    b.close_element();
    b.finish()
}

fn step(axis: Axis) -> ActionableStep {
    ActionableStep {
        axis,
        localname: None,
        namespace: None,
        attributes: vec![],
        paths: vec![],
    }
}

#[test]
fn passing_test() {}

#[test]
fn current_axis_identity() {
    // a selector whose sole step is the Current axis with no
    // requirement returns exactly the start node
    let tree = sample_tree();
    let sel = ActionableSelector {
        steps: vec![step(Axis::Current)],
    };
    for start in 0..7 {
        assert_eq!(resolve_selector(&tree, start, &sel), vec![start]);
    }
}

#[test]
fn descendant_then_ancestor_deduplicates() {
    let tree = sample_tree();
    let sel = ActionableSelector {
        steps: vec![step(Axis::Descendant), step(Axis::Ancestor)],
    };
    let result = resolve_selector(&tree, 0, &sel);
    // node 1 is reached through every one of root's six descendants,
    // yet appears once; the result is strictly ascending
    for w in result.windows(2) {
        assert!(w[0] < w[1]);
    }
    assert_eq!(result, vec![0, 1, 2, 5]);
}

#[test]
fn document_order_stable_across_axes() {
    let tree = sample_tree();
    let down = resolve_selector(
        &tree,
        0,
        &ActionableSelector {
            steps: vec![step(Axis::Descendant)],
        },
    );
    let up = resolve_selector(
        &tree,
        6,
        &ActionableSelector {
            steps: vec![step(Axis::Ancestor)],
        },
    );
    assert_eq!(down, vec![1, 2, 3, 4, 5, 6]);
    assert_eq!(up, vec![0, 1, 5]);
    // nodes 1 and 5 appear in both results, ordered the same way
    let d1 = down.iter().position(|&x| x == 1).unwrap();
    let d5 = down.iter().position(|&x| x == 5).unwrap();
    let u1 = up.iter().position(|&x| x == 1).unwrap();
    let u5 = up.iter().position(|&x| x == 5).unwrap();
    assert_eq!(d1 < d5, u1 < u5);
}

#[test]
fn selector_token_containment() {
    // elements named "b" with a "class" containing the token "foo",
    // evaluated over <b class="foo bar"/> and <b class="baz"/>
    let tree = sample_tree();
    let sel = ActionableSelector {
        steps: vec![ActionableStep {
            axis: Axis::Child,
            localname: Some("b".to_string()),
            namespace: None,
            attributes: vec![AttributeRequirement {
                localname: Some("class".to_string()),
                namespace: None,
                op: AttributeOp::Contains("foo".to_string()),
            }],
            paths: vec![],
        }],
    };
    assert_eq!(resolve_selector(&tree, 1, &sel), vec![2]);
}

#[test]
fn selector_text_round() {
    let tree = sample_tree();
    let sel = ActionableSelector::from_string("child::b[@class~=foo]").unwrap();
    assert_eq!(resolve_selector(&tree, 1, &sel), vec![2]);
    let sel2 = ActionableSelector::from_string("descendant::*[@class=baz]").unwrap();
    assert_eq!(resolve_selector(&tree, 0, &sel2), vec![4]);
    let sel3 = ActionableSelector::from_string("child::a/child::c/child::*").unwrap();
    assert_eq!(resolve_selector(&tree, 0, &sel3), vec![6]);
    let nested = ActionableSelector::from_string("child::*[child::c]").unwrap();
    assert_eq!(resolve_selector(&tree, 0, &nested), vec![1]);
    assert!(ActionableSelector::from_string("sideways::b").is_err());
    assert!(ActionableSelector::from_string("child::b[").is_err());
    assert!(ActionableSelector::from_string("").is_err());
}

#[test]
fn deep_text_in_document_order() {
    let tree = sample_tree();
    let doc = DocumentWrapper::new(tree);
    assert_eq!(doc.text(0), "hideep".to_string());
    assert_eq!(doc.text(2), "hi".to_string());
    assert_eq!(doc.text(3), "hi".to_string());
    assert_eq!(doc.text(4), "".to_string());
}

#[test]
fn replace_indirection() {
    // override mapping routes the sole child through another node's
    // alternate rendering: build() yields [Document, Text("X")]
    let mut b = TreeBuilder::new();
    b.open_element(qn("", "a"), vec![], vec![]);
    b.text_node("inner".to_string());
    b.close_element();
    let tree = b.finish();
    // node 1 is the root's sole child; node 2 its text
    let mut mapping = ReplacementMapping::new();
    mapping.insert(
        1,
        "default".to_string(),
        vec![WriteInstruction::Replace {
            node_id: 2,
            mode: "alt".to_string(),
        }],
    );
    mapping.insert(
        2,
        "alt".to_string(),
        vec![WriteInstruction::Text {
            text: "X".to_string(),
        }],
    );
    let doc = DocumentWrapper::new(tree);
    let queue = doc.to_write_instruction_queue(&mapping).unwrap();
    assert_eq!(
        queue,
        vec![
            WriteInstruction::Document,
            WriteInstruction::Text {
                text: "X".to_string()
            }
        ]
    );
}

#[test]
fn replace_cycle_fails() {
    let mut b = TreeBuilder::new();
    b.open_element(qn("", "a"), vec![], vec![]);
    b.close_element();
    let tree = b.finish();
    let mut mapping = ReplacementMapping::new();
    mapping.insert(
        1,
        "default".to_string(),
        vec![WriteInstruction::Replace {
            node_id: 1,
            mode: "default".to_string(),
        }],
    );
    let doc = DocumentWrapper::new(tree);
    assert!(doc.to_write_instruction_queue(&mapping).is_err());
}

#[test]
fn replace_missing_target_fails() {
    let mut b = TreeBuilder::new();
    b.open_element(qn("", "a"), vec![], vec![]);
    b.close_element();
    let tree = b.finish();
    let mut mapping = ReplacementMapping::new();
    mapping.insert(
        1,
        "default".to_string(),
        vec![WriteInstruction::Replace {
            node_id: 9,
            mode: "default".to_string(),
        }],
    );
    let doc = DocumentWrapper::new(tree);
    assert!(doc.to_write_instruction_queue(&mapping).is_err());
}

#[test]
fn conflict_counting() {
    // two submissions for the same key count one conflict in total and
    // the later submission's value stays
    let mut b = TreeBuilder::new();
    b.open_element(qn("", "a"), vec![], vec![]);
    b.open_element(qn("", "b"), vec![], vec![]);
    b.open_element(qn("", "c"), vec![], vec![]);
    b.close_element();
    b.close_element();
    b.close_element();
    let tree = b.finish();
    let doc = DocumentWrapper::new(tree);
    let mut state = StateManager::new();
    let first = oven::schema::Request::PutResults {
        results: vec![oven::schema::TransformResult {
            node_id: 3,
            mode: "default".to_string(),
            instructions: vec![WriteInstruction::Text {
                text: "one".to_string(),
            }],
        }],
    };
    let second = oven::schema::Request::PutResults {
        results: vec![oven::schema::TransformResult {
            node_id: 3,
            mode: "default".to_string(),
            instructions: vec![WriteInstruction::Text {
                text: "two".to_string(),
            }],
        }],
    };
    handle_request(&doc, first, &mut state).unwrap();
    assert_eq!(state.race_count, 0);
    handle_request(&doc, second, &mut state).unwrap();
    assert_eq!(state.race_count, 1);
    assert_eq!(state.progress, 2);
    let kept = state.results.get(3, &"default".to_string()).unwrap();
    assert_eq!(
        kept,
        &vec![WriteInstruction::Text {
            text: "two".to_string()
        }]
    );
}

#[test]
fn completion_gating() {
    // expected count 3, two submissions received: completion alone
    // does not end the run
    let mut b = TreeBuilder::new();
    b.open_element(qn("", "a"), vec![], vec![]);
    b.close_element();
    let tree = b.finish();
    let doc = DocumentWrapper::new(tree);
    let mut state = StateManager::new();
    handle_request(&doc, oven::schema::Request::PutCount { count: 3 }, &mut state).unwrap();
    for k in 0..2 {
        let put = oven::schema::Request::PutResults {
            results: vec![oven::schema::TransformResult {
                node_id: 1,
                mode: format!("m{}", k),
                instructions: vec![],
            }],
        };
        handle_request(&doc, put, &mut state).unwrap();
    }
    handle_request(&doc, oven::schema::Request::PutComplete, &mut state).unwrap();
    assert_eq!(state.poll(), PollDecision::KeepServing);
    // the third submission drains the count and ends the run
    let put = oven::schema::Request::PutResults {
        results: vec![oven::schema::TransformResult {
            node_id: 1,
            mode: "m2".to_string(),
            instructions: vec![],
        }],
    };
    handle_request(&doc, put, &mut state).unwrap();
    assert_eq!(state.poll(), PollDecision::CompleteRun);
}

#[test]
fn selection_request_round() {
    let tree = sample_tree();
    let doc = DocumentWrapper::new(tree);
    let mut state = StateManager::new();
    let req = oven::schema::Request::Selection {
        node_id: 1,
        selector: "child::b[@class~=foo]".to_string(),
    };
    let resp = handle_request(&doc, req, &mut state).unwrap().unwrap();
    match resp {
        oven::schema::Response::Selection { elements } => {
            assert_eq!(elements.len(), 1);
            assert_eq!(elements[0].node_id, 2);
            assert_eq!(elements[0].qualified_name.local_name, "b".to_string());
        }
        other => panic!("unexpected response {:?}", other),
    }
    let bad = oven::schema::Request::Selection {
        node_id: 1,
        selector: "no-such-axis::x".to_string(),
    };
    let resp2 = handle_request(&doc, bad, &mut state).unwrap().unwrap();
    assert!(matches!(
        resp2,
        oven::schema::Response::BadRequest { .. }
    ));
}

#[test]
fn namespace_minimization() {
    // a child redeclaring exactly its parent's binding emits an empty
    // Namespaces instruction
    let binding = ns("p", "urn:x");
    let mut b = TreeBuilder::new();
    b.open_element(qn("urn:x", "a"), vec![], vec![binding.clone()]);
    b.open_element(qn("urn:x", "b"), vec![], vec![binding.clone()]);
    b.close_element();
    b.close_element();
    let tree = b.finish();
    let doc = DocumentWrapper::new(tree);
    let queue = doc
        .to_write_instruction_queue(&ReplacementMapping::new())
        .unwrap();
    // instructions: Document, Start(a), Ns([p=urn:x]), Attrs, Start(b), Ns([]), Attrs, End(b), End(a)
    let ns_lists: Vec<&Vec<Namespace>> = queue
        .iter()
        .filter_map(|w| match w {
            WriteInstruction::Namespaces { namespaces } => Some(namespaces),
            _ => None,
        })
        .collect();
    assert_eq!(ns_lists.len(), 2);
    assert_eq!(ns_lists[0], &vec![binding.clone()]);
    assert_eq!(ns_lists[1], &Vec::<Namespace>::new());
}

#[test]
fn serializer_round_trip() {
    // serializing the unmodified default-mode plan reproduces a
    // structurally equivalent document
    let binding = ns("p", "urn:x");
    let mut b = TreeBuilder::new();
    b.open_element(
        qn("", "root"),
        vec![attr("id", "r1")],
        vec![binding.clone()],
    );
    b.open_element(
        qn("urn:x", "child"),
        vec![attr("kind", "k")],
        vec![binding.clone()],
    );
    b.text_node("payload".to_string());
    b.close_element();
    b.comment("note".to_string());
    b.pi("target".to_string(), "data".to_string());
    b.close_element();
    let tree = b.finish();
    let doc = DocumentWrapper::new(tree);
    let queue = doc
        .to_write_instruction_queue(&ReplacementMapping::new())
        .unwrap();
    let processor = XmlRsProcessor {
        pad_self_closing: false,
        perform_indent: false,
    };
    let bytes = processor.write_queue(&queue).unwrap();
    let text = String::from_utf8(bytes).unwrap();
    let reparsed = roxmltree::Document::parse(&text).unwrap();
    let root = reparsed.root_element();
    assert_eq!(root.tag_name().name(), "root");
    assert_eq!(root.attribute("id"), Some("r1"));
    let child = root
        .children()
        .find(|n| n.is_element())
        .expect("child element");
    assert_eq!(child.tag_name().name(), "child");
    assert_eq!(child.tag_name().namespace(), Some("urn:x"));
    assert_eq!(child.attribute("kind"), Some("k"));
    assert_eq!(child.text(), Some("payload"));
    assert!(root.children().any(|n| n.is_comment()));
    assert!(root.children().any(|n| n.is_pi()));
}

#[test]
fn serializer_rejects_replace() {
    let processor = XmlRsProcessor {
        pad_self_closing: false,
        perform_indent: false,
    };
    let queue = vec![WriteInstruction::Replace {
        node_id: 1,
        mode: "default".to_string(),
    }];
    assert!(matches!(
        processor.write_queue(&queue),
        Err(SerializationError::UnexpectedInstruction)
    ));
}

#[test]
fn serializer_rejects_truncated_run() {
    let processor = XmlRsProcessor {
        pad_self_closing: false,
        perform_indent: false,
    };
    let queue = vec![WriteInstruction::StartElement {
        qualified_name: qn("", "a"),
    }];
    assert!(matches!(
        processor.write_queue(&queue),
        Err(SerializationError::UnexpectedEOF)
    ));
}

#[test]
fn serializer_rejects_unbound_uri() {
    let processor = XmlRsProcessor {
        pad_self_closing: false,
        perform_indent: false,
    };
    let queue = vec![
        WriteInstruction::StartElement {
            qualified_name: qn("urn:unbound", "a"),
        },
        WriteInstruction::Attributes { attributes: vec![] },
        WriteInstruction::Namespaces { namespaces: vec![] },
        WriteInstruction::EndElement {
            qualified_name: qn("urn:unbound", "a"),
        },
    ];
    match processor.write_queue(&queue) {
        Err(SerializationError::UnsetURI(u)) => assert_eq!(u, "urn:unbound".to_string()),
        other => panic!("unexpected outcome {:?}", other),
    }
}

#[test]
fn builder_from_raw_queue() {
    // queue_self_or_map renders a subtree under a chosen mode
    let tree = sample_tree();
    let mapping = ReplacementMapping::new();
    let queue = queue_self_or_map(&tree, &mapping, vec![], 3, &"default".to_string(), 1).unwrap();
    assert_eq!(
        queue,
        vec![WriteInstruction::Text {
            text: "hi".to_string()
        }]
    );
}

#[test]
fn sibling_axes() {
    let tree = sample_tree();
    let next = resolve_selector(
        &tree,
        2,
        &ActionableSelector {
            steps: vec![step(Axis::Next)],
        },
    );
    assert_eq!(next, vec![4]);
    let prev = resolve_selector(
        &tree,
        4,
        &ActionableSelector {
            steps: vec![step(Axis::Previous)],
        },
    );
    assert_eq!(prev, vec![2]);
    let following = resolve_selector(
        &tree,
        2,
        &ActionableSelector {
            steps: vec![step(Axis::FollowingSibling)],
        },
    );
    assert_eq!(following, vec![4, 5]);
    let preceding = resolve_selector(
        &tree,
        5,
        &ActionableSelector {
            steps: vec![step(Axis::PrecedingSibling)],
        },
    );
    assert_eq!(preceding, vec![2, 4]);
    // comments and processing instructions are filtered from select()
    let doc = DocumentWrapper::new(sample_tree());
    let all = doc.select(
        0,
        &ActionableSelector {
            steps: vec![step(Axis::Descendant)],
        },
    );
    assert_eq!(all, vec![1, 2, 3, 4, 5, 6]);
}

#[test]
fn text_and_attribute_requests() {
    let tree = sample_tree();
    let doc = DocumentWrapper::new(tree);
    let mut state = StateManager::new();
    let text = handle_request(&doc, oven::schema::Request::Text { node_id: 1 }, &mut state)
        .unwrap()
        .unwrap();
    assert!(matches!(
        text,
        oven::schema::Response::Text { text } if text == "hideep"
    ));
    let attrs = handle_request(
        &doc,
        oven::schema::Request::Attributes { node_id: 2 },
        &mut state,
    )
    .unwrap()
    .unwrap();
    match attrs {
        oven::schema::Response::Attributes { attributes } => {
            assert_eq!(attributes, vec![attr("class", "foo bar")]);
        }
        other => panic!("unexpected response {:?}", other),
    }
    // a heartbeat changes nothing
    handle_request(&doc, oven::schema::Request::HeartBeat, &mut state).unwrap();
    assert_eq!(state.progress, 0);
    // a worker failure surfaces as an error the caller records
    let err = handle_request(
        &doc,
        oven::schema::Request::PutError {
            message: "boom".to_string(),
        },
        &mut state,
    )
    .unwrap_err();
    state.record_error(err);
    assert_eq!(state.poll(), PollDecision::AbortRun);
}

#[test]
fn text_nodes_report_hash_text() {
    let tree = sample_tree();
    let doc = DocumentWrapper::new(tree);
    let mut state = StateManager::new();
    // select the text node under the first b
    let req = oven::schema::Request::Selection {
        node_id: 2,
        selector: "child::*".to_string(),
    };
    let resp = handle_request(&doc, req, &mut state).unwrap().unwrap();
    match resp {
        oven::schema::Response::Selection { elements } => {
            assert_eq!(elements.len(), 1);
            assert_eq!(elements[0].node_id, 3);
            assert_eq!(elements[0].qualified_name.local_name, "#text".to_string());
        }
        other => panic!("unexpected response {:?}", other),
    }
}

#[test]
fn error_descriptions() {
    let e = oven::error::OvenError::DocumentParseError("bad".to_string());
    assert_eq!(e.describe(), "DocumentParseError: bad".to_string());
    let r = oven::error::RequestError::ChildTerminated("boom".to_string());
    assert_eq!(r.describe(), "ChildTerminated: boom".to_string());
}

#[test]
fn namespace_prefix_matching() {
    // a prefix requirement goes through the bindings visible at the
    // candidate node
    let binding = ns("p", "urn:x");
    let mut b = TreeBuilder::new();
    b.open_element(qn("", "a"), vec![], vec![]);
    b.open_element(qn("urn:x", "b"), vec![], vec![binding.clone()]);
    b.close_element();
    b.close_element();
    let tree = b.finish();
    let by_prefix = ActionableSelector::from_string("descendant::p:b").unwrap();
    assert_eq!(resolve_selector(&tree, 0, &by_prefix), vec![2]);
    let by_uri = ActionableSelector::from_string("descendant::{urn:x}b").unwrap();
    assert_eq!(resolve_selector(&tree, 0, &by_uri), vec![2]);
    let wrong = ActionableSelector::from_string("descendant::q:b").unwrap();
    assert_eq!(resolve_selector(&tree, 0, &wrong), Vec::<usize>::new());
}
