use emacs_i3::config::Config;
use emacs_i3::emacs::EmacsError;
use emacs_i3::routing::{
    emacs_handled, emacs_i3_command, emacs_value_is_nil, fallback_i3_command, find_focused,
    i3_command_for, i3_failure, is_emacs, normalize_command, should_ask_emacs, subtree_focused, NodeLayout,
    TreeNode,
};

fn node(layout: NodeLayout, focused: bool, nodes: Vec<TreeNode>) -> TreeNode {
    TreeNode {
        nodes,
        floating_nodes: Vec::new(),
        name: None,
        layout,
        window_class: None,
        focused,
    }
}

fn window(class: Option<&str>, name: Option<&str>, focused: bool) -> TreeNode {
    TreeNode {
        nodes: Vec::new(),
        floating_nodes: Vec::new(),
        name: name.map(|s| s.to_owned()),
        layout: NodeLayout::SplitH,
        window_class: class.map(|s| s.to_owned()),
        focused,
    }
}

#[test]
fn command_preserves_i3_focus_direction() {
    assert_eq!(normalize_command(&["focus", "left"]).unwrap(), "focus left");
}

#[test]
fn command_rejects_empty_input() {
    assert!(normalize_command(&[]).is_err());
}

#[test]
fn emacs_nil_allows_protocol_trailing_newline() {
    assert!(emacs_value_is_nil("nil"));
    assert!(emacs_value_is_nil("nil\n"));
    assert!(!emacs_value_is_nil("t\n"));
}

#[test]
fn tabbed_container_maps_horizontal_focus_to_tab_order() {
    let tree = node(
        NodeLayout::SplitH,
        false,
        vec![node(
            NodeLayout::Tabbed,
            false,
            vec![node(NodeLayout::SplitH, true, vec![])],
        )],
    );

    assert_eq!(fallback_i3_command("focus left", &tree), "focus prev");
    assert_eq!(fallback_i3_command("focus right", &tree), "focus next");
    assert_eq!(fallback_i3_command("focus up", &tree), "focus up");
}

#[test]
fn split_container_preserves_spatial_focus() {
    let tree = node(
        NodeLayout::SplitH,
        false,
        vec![node(NodeLayout::SplitH, true, vec![])],
    );

    assert_eq!(fallback_i3_command("focus left", &tree), "focus left");
    assert_eq!(fallback_i3_command("focus right", &tree), "focus right");
}

#[test]
fn stacked_and_floating_containers_use_tab_order() {
    let stacked = node(
        NodeLayout::Stacked,
        false,
        vec![node(NodeLayout::SplitV, false, vec![node(NodeLayout::SplitH, true, vec![])])],
    );
    assert_eq!(fallback_i3_command("focus left", &stacked), "focus prev");
    let mut root = node(NodeLayout::SplitH, false, vec![]);
    root.floating_nodes.push(node(
        NodeLayout::Tabbed,
        false,
        vec![node(NodeLayout::SplitH, true, vec![])],
    ));
    assert_eq!(fallback_i3_command("focus right", &root), "focus next");
}

#[test]
fn tab_order_policy_can_be_switched_off() {
    let tree = node(
        NodeLayout::Tabbed,
        false,
        vec![node(NodeLayout::SplitH, true, vec![])],
    );
    let mut config = Config::default();
    assert_eq!(i3_command_for("focus left", &tree, &config), "focus prev");
    config.tabbed_horizontal_focus = false;
    assert_eq!(i3_command_for("focus left", &tree, &config), "focus left");
}

#[test]
fn focused_window_is_found_in_tiling_then_floating_children() {
    let mut root = node(NodeLayout::SplitH, false, vec![window(None, Some("a"), false)]);
    assert!(find_focused(&root).is_none());
    assert!(!subtree_focused(&root));
    root.floating_nodes.push(window(None, Some("float"), true));
    assert_eq!(find_focused(&root).unwrap().name.as_deref(), Some("float"));
    assert!(subtree_focused(&root));
    root.nodes.push(window(None, Some("tiled"), true));
    assert_eq!(find_focused(&root).unwrap().name.as_deref(), Some("tiled"));
}

#[test]
fn emacs_frames_are_recognised_by_class_then_title() {
    let config = Config::default();
    assert!(is_emacs(&window(Some("Emacs"), Some("x"), true), &config));
    assert!(!is_emacs(&window(Some("XTerm"), Some("emacs: x"), true), &config));
    assert!(is_emacs(&window(None, Some("emacs: init.el"), true), &config));
    assert!(!is_emacs(&window(None, Some("emacs"), true), &config));
    assert!(!is_emacs(&window(None, None, true), &config));
}

#[test]
fn emacs_is_asked_only_for_a_focused_emacs_frame() {
    let config = Config::default();
    let emacs_tree = node(NodeLayout::SplitH, false, vec![window(Some("Emacs"), None, true)]);
    let other_tree = node(NodeLayout::SplitH, false, vec![window(Some("XTerm"), None, true)]);
    assert!(should_ask_emacs(&emacs_tree, &config, true));
    assert!(!should_ask_emacs(&emacs_tree, &config, false));
    assert!(!should_ask_emacs(&other_tree, &config, true));
    assert!(!should_ask_emacs(&node(NodeLayout::SplitH, false, vec![]), &config, true));
}

#[test]
fn only_a_non_nil_answer_counts_as_handled() {
    assert!(emacs_handled(&Ok("t".to_owned())));
    assert!(!emacs_handled(&Ok("nil\n".to_owned())));
    assert!(!emacs_handled(&Err(EmacsError::Eval("boom".to_owned()))));
    assert!(!emacs_handled(&Err(EmacsError::Io(std::io::Error::new(
        std::io::ErrorKind::TimedOut,
        "late"
    )))));
}

#[test]
fn dispatcher_expression_escapes_lisp_string() {
    assert_eq!(
        emacs_i3_command("focus left"),
        "(my/emacs-i3-command \"focus left\")"
    );
    assert_eq!(
        emacs_i3_command("mark \"a\\b\""),
        "(my/emacs-i3-command \"mark \\\"a\\\\b\\\"\")"
    );
    assert_eq!(
        emacs_i3_command("a\nb\x7f"),
        "(my/emacs-i3-command \"a\nb\x7f\")"
    );
}

#[test]
fn normalize_joins_with_single_spaces() {
    assert_eq!(
        normalize_command(&["resize", "grow", "width", "10", "px"]).unwrap(),
        "resize grow width 10 px"
    );
    assert_eq!(normalize_command(&["kill"]).unwrap(), "kill");
}

#[test]
fn missing_command_message() {
    assert_eq!(
        normalize_command(&[]).unwrap_err().message(),
        "missing i3 command"
    );
}

#[test]
fn i3_failures_collect_outcome_errors() {
    assert_eq!(i3_failure("kill", &vec![None, None]), None);
    assert_eq!(i3_failure("kill", &vec![]), None);
    assert_eq!(
        i3_failure("kill", &vec![Some("a".to_owned()), None, Some("b".to_owned())]),
        Some("i3 command 'kill' failed: a; b".to_owned())
    );
    assert_eq!(
        i3_failure("x", &vec![None, Some("only".to_owned())]),
        Some("i3 command 'x' failed: only".to_owned())
    );
}
