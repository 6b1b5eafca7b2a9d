use bevy_dioxus::apply_mutations::{
    apply_edit, register_templates, ApplyError, AttributeValue, Mutation, Mutations, Rejected,
};
use bevy_dioxus::apply_mutations;
use bevy_dioxus::identity::{ElementId, IdentityMap, NodeId, NotBound};
use bevy_dioxus::style::{
    Color, Decimal, Display, Style, StyleError, TemplateAttribute, UiRect, Val,
};
use bevy_dioxus::template::{Template, TemplateCache, TemplateError, TemplateNode};
use bevy_dioxus::tree::{NodeKind, RetainedTree, TreeError};

struct Ui {
    ids: IdentityMap,
    templates: TemplateCache,
    tree: RetainedTree,
    root: NodeId,
}

fn ui() -> Ui {
    let mut tree = RetainedTree::new();
    let root = tree.spawn(Style::default(), None);
    Ui { ids: IdentityMap::new(), templates: TemplateCache::new(), tree, root }
}

fn run(ui: &mut Ui, templates: Vec<Template>, edits: Vec<Mutation>) -> Result<(), Rejected> {
    apply_mutations(
        Mutations { templates, edits },
        &mut ui.ids,
        &mut ui.templates,
        ui.root,
        &mut ui.tree,
    )
}

fn children(ui: &Ui, id: NodeId) -> Vec<NodeId> {
    ui.tree.node(id).unwrap().children.clone()
}

fn node_of(ui: &Ui, handle: u64) -> NodeId {
    ui.ids.resolve(ElementId(handle)).unwrap()
}

fn placeholder(handle: u64) -> Mutation {
    Mutation::CreatePlaceholder { id: ElementId(handle) }
}

fn text_node(value: &str, handle: u64) -> Mutation {
    Mutation::CreateTextNode { value: value.to_string(), id: ElementId(handle) }
}

fn append(handle: u64, m: usize) -> Mutation {
    Mutation::AppendChildren { id: ElementId(handle), m }
}

fn text_value(value: &str) -> AttributeValue {
    AttributeValue::Text(value.to_string())
}

fn set_attribute(handle: u64, name: &str, value: AttributeValue) -> Mutation {
    Mutation::SetAttribute { name: name.to_string(), value, id: ElementId(handle) }
}

fn px(n: u64) -> Val {
    Val::Px(Decimal { negative: false, mantissa: n, scale: 0 })
}

fn t0() -> Template {
    Template {
        name: "t0".to_string(),
        roots: vec![TemplateNode::Element {
            tag: "node".to_string(),
            attrs: vec![TemplateAttribute::Static {
                name: "padding".to_string(),
                value: "8px".to_string(),
            }],
            children: vec![TemplateNode::Text { text: "Hello".to_string() }],
        }],
    }
}

/// A root with four children bound to the handles 1 to 4.
fn four_children() -> Ui {
    let mut ui = ui();
    let edits = vec![placeholder(1), placeholder(2), placeholder(3), placeholder(4), append(0, 4)];
    assert_eq!(run(&mut ui, vec![], edits), Ok(()));
    ui
}

#[test]
fn initial_mount() {
    let mut ui = ui();
    let edits = vec![
        Mutation::LoadTemplate { name: "t0".to_string(), index: 0, id: ElementId(1) },
        append(0, 1),
    ];
    assert_eq!(run(&mut ui, vec![t0()], edits), Ok(()));
    let x = node_of(&ui, 1);
    assert_eq!(children(&ui, ui.root), vec![x]);
    let node = ui.tree.node(x).unwrap();
    assert_eq!(node.kind(), NodeKind::Container);
    assert_eq!(node.style, Style { padding: UiRect::all(px(8)), ..Style::default() });
    assert_eq!(node.parent, Some(ui.root));
    assert_eq!(node.children.len(), 1);
    let leaf = ui.tree.node(node.children[0]).unwrap();
    assert_eq!(leaf.kind(), NodeKind::TextLeaf);
    assert_eq!(leaf.text.as_deref(), Some("Hello"));
    assert_eq!(ui.ids.resolve(ElementId(0)), Ok(ui.root));
    assert_eq!(ui.ids.reverse(ui.root), Ok(ElementId(0)));
    assert_eq!(ui.ids.reverse(x), Ok(ElementId(1)));
    assert_eq!(ui.ids.reverse(node.children[0]), Err(NotBound));
    assert_eq!(ui.ids.resolve(ElementId(2)), Err(NotBound));
}

#[test]
fn replace_puts_the_staged_nodes_where_the_old_one_stood() {
    let mut ui = four_children();
    let before = children(&ui, ui.root);
    assert_eq!(before.len(), 4);
    let old = node_of(&ui, 3);
    assert_eq!(before[2], old);
    let edits = vec![
        placeholder(10),
        text_node("new", 11),
        Mutation::ReplaceWith { id: ElementId(3), m: 2 },
    ];
    assert_eq!(run(&mut ui, vec![], edits), Ok(()));
    let after = children(&ui, ui.root);
    assert_eq!(after, vec![before[0], before[1], node_of(&ui, 10), node_of(&ui, 11), before[3]]);
    assert_eq!(ui.ids.resolve(ElementId(3)), Err(NotBound));
    assert_eq!(ui.ids.reverse(old), Err(NotBound));
    assert!(!ui.tree.contains(old));
    assert_eq!(ui.tree.node(node_of(&ui, 11)).unwrap().text.as_deref(), Some("new"));
}

#[test]
fn attribute_update_changes_one_field() {
    let mut ui = four_children();
    let edits = vec![
        set_attribute(2, "display", text_value("grid")),
        set_attribute(2, "width", text_value("100vw")),
    ];
    assert_eq!(run(&mut ui, vec![], edits), Ok(()));
    let before = ui.tree.node(node_of(&ui, 2)).unwrap().style;
    let edits = vec![set_attribute(2, "background-color", text_value("#ff0000"))];
    assert_eq!(run(&mut ui, vec![], edits), Ok(()));
    let after = ui.tree.node(node_of(&ui, 2)).unwrap().style;
    assert_eq!(
        after,
        Style { background_color: Color { red: 255, green: 0, blue: 0, alpha: 255 }, ..before }
    );
    assert_eq!(after.display, Display::Grid);
    let edits = vec![set_attribute(2, "color", text_value("#ff0000"))];
    assert_eq!(
        run(&mut ui, vec![], edits),
        Err(Rejected::Edit { index: 0, error: ApplyError::Style(StyleError::UnsupportedAttribute) })
    );
    assert_eq!(ui.tree.node(node_of(&ui, 2)).unwrap().style, after);
    assert_eq!(ui.tree.node(node_of(&ui, 1)).unwrap().style, Style::default());
}

#[test]
fn attribute_values_other_than_text_are_rejected() {
    let mut ui = four_children();
    for value in [
        AttributeValue::Float,
        AttributeValue::Int(3),
        AttributeValue::Bool(true),
        AttributeValue::Any,
        AttributeValue::Empty,
    ] {
        assert_eq!(
            run(&mut ui, vec![], vec![set_attribute(1, "width", value)]),
            Err(Rejected::Edit { index: 0, error: ApplyError::UnsupportedAttributeValue })
        );
    }
    assert_eq!(
        run(&mut ui, vec![], vec![set_attribute(1, "width", text_value("wide"))]),
        Err(Rejected::Edit { index: 0, error: ApplyError::Style(StyleError::UnsupportedVal) })
    );
    assert_eq!(
        run(&mut ui, vec![], vec![set_attribute(1, "background-color", text_value("red"))]),
        Err(Rejected::Edit { index: 0, error: ApplyError::Style(StyleError::UnsupportedColor) })
    );
    assert_eq!(
        run(&mut ui, vec![], vec![set_attribute(9, "width", text_value("1"))]),
        Err(Rejected::Edit { index: 0, error: ApplyError::NotBound })
    );
}

#[test]
fn remove_purges_the_handles_of_the_whole_subtree() {
    let mut ui = ui();
    let edits = vec![
        placeholder(1),
        placeholder(2),
        text_node("leaf", 3),
        append(2, 1),
        append(1, 1),
        placeholder(4),
        append(0, 2),
    ];
    assert_eq!(run(&mut ui, vec![], edits), Ok(()));
    let (a, b, c, d) = (node_of(&ui, 1), node_of(&ui, 2), node_of(&ui, 3), node_of(&ui, 4));
    assert_eq!(children(&ui, ui.root), vec![a, d]);
    assert_eq!(children(&ui, a), vec![b]);
    assert_eq!(children(&ui, b), vec![c]);
    assert_eq!(run(&mut ui, vec![], vec![Mutation::Remove { id: ElementId(1) }]), Ok(()));
    for handle in [1, 2, 3] {
        assert_eq!(ui.ids.resolve(ElementId(handle)), Err(NotBound));
    }
    for node in [a, b, c] {
        assert!(!ui.tree.contains(node));
        assert_eq!(ui.ids.reverse(node), Err(NotBound));
    }
    assert_eq!(children(&ui, ui.root), vec![d]);
    assert_eq!(ui.ids.resolve(ElementId(4)), Ok(d));
    assert_eq!(ui.ids.resolve(ElementId(0)), Ok(ui.root));
    assert_eq!(
        run(&mut ui, vec![], vec![Mutation::Remove { id: ElementId(1) }]),
        Err(Rejected::Edit { index: 0, error: ApplyError::NotBound })
    );
}

#[test]
fn replace_purges_the_handles_of_the_whole_subtree() {
    let mut ui = ui();
    let edits = vec![placeholder(1), placeholder(2), append(1, 1), append(0, 1)];
    assert_eq!(run(&mut ui, vec![], edits), Ok(()));
    let (a, b) = (node_of(&ui, 1), node_of(&ui, 2));
    let edits = vec![placeholder(5), Mutation::ReplaceWith { id: ElementId(1), m: 1 }];
    assert_eq!(run(&mut ui, vec![], edits), Ok(()));
    assert_eq!(ui.ids.resolve(ElementId(1)), Err(NotBound));
    assert_eq!(ui.ids.resolve(ElementId(2)), Err(NotBound));
    assert!(!ui.tree.contains(a) && !ui.tree.contains(b));
    assert_eq!(children(&ui, ui.root), vec![node_of(&ui, 5)]);
}

#[test]
fn every_bound_node_lives_after_a_batch() {
    let mut ui = four_children();
    let edits = vec![
        placeholder(5),
        append(3, 1),
        text_node("a", 6),
        Mutation::InsertAfter { id: ElementId(1), m: 1 },
        Mutation::Remove { id: ElementId(3) },
        placeholder(7),
        Mutation::ReplaceWith { id: ElementId(2), m: 1 },
    ];
    assert_eq!(run(&mut ui, vec![], edits), Ok(()));
    for handle in 0..10u64 {
        if let Ok(node) = ui.ids.resolve(ElementId(handle)) {
            assert!(ui.tree.contains(node));
            assert_eq!(ui.ids.reverse(node), Ok(ElementId(handle)));
        }
    }
    for handle in [2, 3, 5] {
        assert_eq!(ui.ids.resolve(ElementId(handle)), Err(NotBound));
    }
    assert_eq!(
        children(&ui, ui.root),
        vec![node_of(&ui, 1), node_of(&ui, 6), node_of(&ui, 7), node_of(&ui, 4)]
    );
}

#[test]
fn append_children_keeps_push_order() {
    let mut ui = ui();
    let edits = vec![placeholder(1), text_node("b", 2), placeholder(3), append(0, 2)];
    assert_eq!(run(&mut ui, vec![], edits), Ok(()));
    assert_eq!(children(&ui, ui.root), vec![node_of(&ui, 2), node_of(&ui, 3)]);
    assert_eq!(ui.tree.node(node_of(&ui, 1)).unwrap().parent, None);
}

#[test]
fn insert_before_and_after_keep_push_order() {
    let mut ui = four_children();
    let before = children(&ui, ui.root);
    let edits = vec![
        placeholder(10),
        placeholder(11),
        Mutation::InsertBefore { id: ElementId(2), m: 2 },
        placeholder(12),
        placeholder(13),
        Mutation::InsertAfter { id: ElementId(2), m: 2 },
    ];
    assert_eq!(run(&mut ui, vec![], edits), Ok(()));
    assert_eq!(
        children(&ui, ui.root),
        vec![
            before[0],
            node_of(&ui, 10),
            node_of(&ui, 11),
            before[1],
            node_of(&ui, 12),
            node_of(&ui, 13),
            before[2],
            before[3],
        ]
    );
}

#[test]
fn push_root_stages_a_bound_node_for_moving() {
    let mut ui = four_children();
    let before = children(&ui, ui.root);
    let edits = vec![
        Mutation::PushRoot { id: ElementId(1) },
        Mutation::InsertAfter { id: ElementId(4), m: 1 },
    ];
    assert_eq!(run(&mut ui, vec![], edits), Ok(()));
    assert_eq!(children(&ui, ui.root), vec![before[1], before[2], before[3], before[0]]);
}

#[test]
fn assign_id_and_hydrate_text_walk_from_the_top_of_the_stack() {
    let mut ui = ui();
    let template = Template {
        name: "row".to_string(),
        roots: vec![TemplateNode::Element {
            tag: "node".to_string(),
            attrs: vec![],
            children: vec![
                TemplateNode::Text { text: "label".to_string() },
                TemplateNode::Element {
                    tag: "node".to_string(),
                    attrs: vec![],
                    children: vec![TemplateNode::DynamicText { id: 0 }],
                },
            ],
        }],
    };
    let edits = vec![
        Mutation::LoadTemplate { name: "row".to_string(), index: 0, id: ElementId(1) },
        Mutation::AssignId { path: vec![1], id: ElementId(2) },
        Mutation::HydrateText { path: vec![1, 0], value: "42".to_string(), id: ElementId(3) },
        Mutation::AssignId { path: vec![], id: ElementId(4) },
        append(0, 1),
    ];
    assert_eq!(run(&mut ui, vec![template], edits), Ok(()));
    let row = node_of(&ui, 4);
    assert_eq!(ui.ids.resolve(ElementId(1)), Err(NotBound));
    let kids = children(&ui, row);
    assert_eq!(node_of(&ui, 2), kids[1]);
    let text = node_of(&ui, 3);
    assert_eq!(children(&ui, kids[1]), vec![text]);
    assert_eq!(ui.tree.node(text).unwrap().text.as_deref(), Some("42"));
    assert_eq!(ui.tree.node(kids[0]).unwrap().text.as_deref(), Some("label"));
}

#[test]
fn replace_placeholder_walks_from_below_the_staged_nodes() {
    let mut ui = ui();
    let template = Template {
        name: "list".to_string(),
        roots: vec![TemplateNode::Element {
            tag: "node".to_string(),
            attrs: vec![],
            children: vec![
                TemplateNode::Text { text: "head".to_string() },
                TemplateNode::Dynamic { id: 0 },
            ],
        }],
    };
    let edits = vec![
        Mutation::LoadTemplate { name: "list".to_string(), index: 0, id: ElementId(1) },
        text_node("one", 2),
        text_node("two", 3),
        Mutation::ReplacePlaceholder { path: vec![1], m: 2 },
        append(0, 1),
    ];
    assert_eq!(run(&mut ui, vec![template], edits), Ok(()));
    let list = node_of(&ui, 1);
    assert_eq!(children(&ui, ui.root), vec![list]);
    let kids = children(&ui, list);
    assert_eq!(kids.len(), 3);
    assert_eq!(ui.tree.node(kids[0]).unwrap().text.as_deref(), Some("head"));
    assert_eq!(kids[1], node_of(&ui, 2));
    assert_eq!(kids[2], node_of(&ui, 3));
}

#[test]
fn set_text_replaces_the_text() {
    let mut ui = ui();
    let edits = vec![
        text_node("old", 1),
        append(0, 1),
        Mutation::SetText { value: "new".to_string(), id: ElementId(1) },
    ];
    assert_eq!(run(&mut ui, vec![], edits), Ok(()));
    assert_eq!(ui.tree.node(node_of(&ui, 1)).unwrap().text.as_deref(), Some("new"));
    assert_eq!(
        run(&mut ui, vec![], vec![Mutation::SetText { value: "x".to_string(), id: ElementId(9) }]),
        Err(Rejected::Edit { index: 0, error: ApplyError::NotBound })
    );
}

#[test]
fn listeners_are_checked_against_the_allowlist() {
    let mut ui = four_children();
    let listen = |name: &str| Mutation::NewEventListener { name: name.to_string(), id: ElementId(1) };
    let forget =
        |name: &str| Mutation::RemoveEventListener { name: name.to_string(), id: ElementId(1) };
    assert_eq!(run(&mut ui, vec![], vec![listen("click"), forget("click")]), Ok(()));
    assert_eq!(
        run(&mut ui, vec![], vec![listen("click"), listen("hover")]),
        Err(Rejected::Edit { index: 1, error: ApplyError::UnsupportedEvent })
    );
    assert_eq!(
        run(&mut ui, vec![], vec![forget("keydown")]),
        Err(Rejected::Edit { index: 0, error: ApplyError::UnsupportedEvent })
    );
}

#[test]
fn a_rejected_edit_ends_the_batch_and_keeps_what_was_done() {
    let mut ui = ui();
    let edits = vec![
        placeholder(1),
        append(0, 1),
        Mutation::Remove { id: ElementId(7) },
        placeholder(2),
    ];
    assert_eq!(
        run(&mut ui, vec![], edits),
        Err(Rejected::Edit { index: 2, error: ApplyError::NotBound })
    );
    assert_eq!(children(&ui, ui.root), vec![node_of(&ui, 1)]);
    assert_eq!(ui.ids.resolve(ElementId(2)), Err(NotBound));
}

#[test]
fn protocol_violations_are_reported() {
    let mut ui = four_children();
    let cases: Vec<(Mutation, ApplyError)> = vec![
        (append(9, 0), ApplyError::NotBound),
        (append(0, 2), ApplyError::StackUnderflow),
        (Mutation::PushRoot { id: ElementId(9) }, ApplyError::NotBound),
        (Mutation::AssignId { path: vec![4], id: ElementId(9) }, ApplyError::PathOutOfBounds),
        (
            Mutation::HydrateText { path: vec![0, 0], value: "x".to_string(), id: ElementId(9) },
            ApplyError::PathOutOfBounds,
        ),
        (
            Mutation::LoadTemplate { name: "none".to_string(), index: 0, id: ElementId(9) },
            ApplyError::UnknownTemplate,
        ),
        (Mutation::ReplaceWith { id: ElementId(9), m: 0 }, ApplyError::NotBound),
        (Mutation::ReplaceWith { id: ElementId(1), m: 2 }, ApplyError::StackUnderflow),
        (Mutation::ReplaceWith { id: ElementId(0), m: 0 }, ApplyError::Tree(TreeError::Detached)),
        (Mutation::ReplacePlaceholder { path: vec![], m: 1 }, ApplyError::StackUnderflow),
        (Mutation::ReplacePlaceholder { path: vec![7], m: 0 }, ApplyError::PathOutOfBounds),
        (Mutation::InsertAfter { id: ElementId(9), m: 0 }, ApplyError::NotBound),
        (Mutation::InsertBefore { id: ElementId(1), m: 5 }, ApplyError::StackUnderflow),
        (Mutation::InsertBefore { id: ElementId(0), m: 0 }, ApplyError::Tree(TreeError::Detached)),
        (Mutation::InsertBefore { id: ElementId(1), m: 1 }, ApplyError::Tree(TreeError::SelfParent)),
        (append(0, 1), ApplyError::Tree(TreeError::SelfParent)),
    ];
    for (edit, error) in cases {
        let before = children(&ui, ui.root);
        assert_eq!(run(&mut ui, vec![], vec![edit]), Err(Rejected::Edit { index: 0, error }));
        assert_eq!(children(&ui, ui.root), before);
        for handle in 1..5u64 {
            assert!(ui.ids.resolve(ElementId(handle)).is_ok());
        }
    }
}

#[test]
fn a_staged_anchor_is_refused() {
    let mut ui = four_children();
    let edits = vec![
        Mutation::PushRoot { id: ElementId(2) },
        Mutation::InsertBefore { id: ElementId(2), m: 1 },
    ];
    assert_eq!(
        run(&mut ui, vec![], edits),
        Err(Rejected::Edit { index: 1, error: ApplyError::Tree(TreeError::SelfSibling) })
    );
}

#[test]
fn staged_nodes_that_are_gone_are_refused() {
    let mut ui = four_children();
    let before = children(&ui, ui.root);
    let edits = vec![
        Mutation::PushRoot { id: ElementId(2) },
        Mutation::Remove { id: ElementId(2) },
        append(1, 1),
    ];
    assert_eq!(
        run(&mut ui, vec![], edits),
        Err(Rejected::Edit { index: 2, error: ApplyError::Tree(TreeError::NoSuchNode) })
    );
    assert_eq!(children(&ui, ui.root), vec![before[0], before[2], before[3]]);
}

#[test]
fn root_index_must_exist() {
    let mut ui = ui();
    let edits = vec![Mutation::LoadTemplate { name: "t0".to_string(), index: 1, id: ElementId(1) }];
    assert_eq!(
        run(&mut ui, vec![t0()], edits),
        Err(Rejected::Edit { index: 0, error: ApplyError::RootIndexOutOfBounds })
    );
}

#[test]
fn a_rejected_template_ends_the_batch_before_any_edit() {
    let mut ui = ui();
    let bad = Template {
        name: "bad".to_string(),
        roots: vec![TemplateNode::Element { tag: "div".to_string(), attrs: vec![], children: vec![] }],
    };
    let later = Template { name: "later".to_string(), roots: vec![] };
    assert_eq!(
        run(&mut ui, vec![t0(), bad, later], vec![placeholder(1)]),
        Err(Rejected::Template { index: 1, error: TemplateError::UnsupportedTag })
    );
    assert!(ui.templates.get("t0").is_some());
    assert!(ui.templates.get("bad").is_none());
    assert!(ui.templates.get("later").is_none());
    assert_eq!(ui.ids.resolve(ElementId(0)), Err(NotBound));
    assert_eq!(ui.ids.resolve(ElementId(1)), Err(NotBound));
}

#[test]
fn templates_live_across_batches_and_can_be_replaced() {
    let mut ui = ui();
    assert_eq!(run(&mut ui, vec![t0()], vec![]), Ok(()));
    let load = || Mutation::LoadTemplate { name: "t0".to_string(), index: 0, id: ElementId(1) };
    assert_eq!(run(&mut ui, vec![], vec![load(), append(0, 1)]), Ok(()));
    assert_eq!(ui.tree.node(node_of(&ui, 1)).unwrap().kind(), NodeKind::Container);
    let replaced = Template {
        name: "t0".to_string(),
        roots: vec![TemplateNode::Text { text: "plain".to_string() }],
    };
    assert_eq!(run(&mut ui, vec![replaced], vec![load(), append(0, 1)]), Ok(()));
    assert_eq!(ui.tree.node(node_of(&ui, 1)).unwrap().text.as_deref(), Some("plain"));
    assert_eq!(children(&ui, ui.root).len(), 2);
}

#[test]
fn register_templates_reports_the_first_rejection() {
    let mut cache = TemplateCache::new();
    let bad = Template {
        name: "bad".to_string(),
        roots: vec![TemplateNode::Element {
            tag: "node".to_string(),
            attrs: vec![TemplateAttribute::Static {
                name: "color".to_string(),
                value: "red".to_string(),
            }],
            children: vec![],
        }],
    };
    assert_eq!(
        register_templates(&vec![t0(), bad], &mut cache),
        Err((1, TemplateError::Style(StyleError::UnsupportedAttribute)))
    );
    assert!(cache.get("t0").is_some());
    assert_eq!(register_templates(&vec![], &mut cache), Ok(()));
}

#[test]
fn apply_edit_works_on_a_caller_held_stack() {
    let mut ui = ui();
    let mut stack = vec![ui.root];
    ui.ids.bind(ElementId(0), ui.root);
    let edit = placeholder(1);
    assert_eq!(apply_edit(&edit, &ui.templates, &mut ui.tree, &mut ui.ids, &mut stack), Ok(()));
    assert_eq!(stack, vec![ui.root, node_of(&ui, 1)]);
    let edit = append(0, 3);
    assert_eq!(
        apply_edit(&edit, &ui.templates, &mut ui.tree, &mut ui.ids, &mut stack),
        Err(ApplyError::StackUnderflow)
    );
    assert_eq!(stack.len(), 2);
    let edit = append(0, 1);
    assert_eq!(apply_edit(&edit, &ui.templates, &mut ui.tree, &mut ui.ids, &mut stack), Ok(()));
    assert_eq!(stack, vec![ui.root]);
    assert_eq!(children(&ui, ui.root), vec![node_of(&ui, 1)]);
}

#[test]
fn a_new_root_holds_the_root_node_alone() {
    let root = bevy_dioxus::UiRoot::new();
    assert_eq!(root.root, NodeId(0));
    assert_eq!(root.tree.next_id(), NodeId(1));
    let node = root.tree.node(root.root).unwrap();
    assert_eq!(node.kind(), NodeKind::Container);
    assert_eq!(node.style, Style::default());
    assert!(node.children.is_empty());
    assert_eq!(node.parent, None);
    assert_eq!(root.ids.resolve(ElementId(0)), Err(NotBound));
    assert!(root.templates.get("t0").is_none());
}

#[test]
fn a_root_applies_batches_one_after_another() {
    let mut root = bevy_dioxus::UiRoot::new();
    let first = Mutations {
        templates: vec![t0()],
        edits: vec![
            Mutation::LoadTemplate { name: "t0".to_string(), index: 0, id: ElementId(1) },
            append(0, 1),
        ],
    };
    assert_eq!(root.apply(first), Ok(()));
    let second = Mutations {
        templates: vec![],
        edits: vec![
            Mutation::LoadTemplate { name: "t0".to_string(), index: 0, id: ElementId(2) },
            Mutation::InsertBefore { id: ElementId(1), m: 1 },
            set_attribute(9, "width", text_value("1")),
        ],
    };
    assert_eq!(root.apply(second), Err(Rejected::Edit { index: 2, error: ApplyError::NotBound }));
    let kids = root.tree.node(root.root).unwrap().children.clone();
    assert_eq!(kids, vec![root.ids.resolve(ElementId(2)).unwrap(), root.ids.resolve(ElementId(1)).unwrap()]);
    assert_eq!(root.root, NodeId(0));
}
