//! Routing between Emacs and i3: which window is focused, whether it is an
//! Emacs frame, whether Emacs handled a command, and what i3 receives
//! otherwise.

use crate::command::{reads_as, Operation};
use crate::config::Config;
use crate::emacs::EmacsError;
use crate::tree_laws::{
    has_focused_descendant, has_focused_tab, has_tab_container, lemma_focus_within_means_focused_descendant,
    lemma_focused_node_is_a_focused_descendant, lemma_no_tab_container_keeps_command,
    lemma_tab_focus_means_focused_tab,
};
use crate::text::{
    has_prefix, is_white_space, joined, lemma_word_len_exact, push_char, range_has_prefix, str_eq,
    trim_end, trimmed_len, views, word_len, words,
};
use vstd::prelude::*;

verus! {

/// The layout of an i3 container.
#[derive(Debug, Clone, Copy, PartialEq, Eq)]
pub enum NodeLayout {
    SplitH,
    SplitV,
    Stacked,
    Tabbed,
    DockArea,
    Output,
    Unknown,
}

/// A node of the i3 layout tree, with what routing reads of it.
#[derive(Debug)]
pub struct TreeNode {
    /// The tiling children.
    pub nodes: Vec<TreeNode>,
    /// The floating children.
    pub floating_nodes: Vec<TreeNode>,
    /// The container's name; for a window, its title.
    pub name: Option<String>,
    /// The container's layout.
    pub layout: NodeLayout,
    /// The X11 class of the window, where the node holds a window that has one.
    pub window_class: Option<String>,
    /// Whether this node has the focus.
    pub focused: bool,
}

/// Why a command line is refused.
#[derive(Debug, Clone, PartialEq, Eq)]
pub enum CommandError {
    /// No command word was given.
    MissingCommand,
}

impl CommandError {
    /// The message that reports this error.
    pub fn message(&self) -> (r: String)
        ensures
            r@ == "missing i3 command"@,
    {
        String::from_str("missing i3 command")
    }
}

/// Tabbed and stacked containers show one child at a time.
pub open spec fn is_tablike(layout: NodeLayout) -> bool {
    layout == NodeLayout::Tabbed || layout == NodeLayout::Stacked
}

/// The node, or one below it through tiling or floating children, has the
/// focus.
pub open spec fn focus_within(n: TreeNode) -> bool
    decreases n,
{
    n.focused || any_focus_within(n.nodes@) || any_focus_within(n.floating_nodes@)
}

/// One of the nodes has the focus within it.
pub open spec fn any_focus_within(s: Seq<TreeNode>) -> bool
    decreases s,
{
    s.len() > 0 && (focus_within(s[0]) || any_focus_within(s.drop_first()))
}

/// Somewhere at or below the node, a tabbed or stacked container has a
/// tiling child that holds the focus.
pub open spec fn tab_focus(n: TreeNode) -> bool
    decreases n,
{
    any_tab_child(n.layout, n.nodes@) || any_tab_focus(n.floating_nodes@)
}

/// One of the tiling children `s` of a container with `layout` holds the
/// focus while the container is tabbed or stacked, or has such a container
/// below it.
pub open spec fn any_tab_child(layout: NodeLayout, s: Seq<TreeNode>) -> bool
    decreases s,
{
    s.len() > 0 && ((is_tablike(layout) && focus_within(s[0])) || tab_focus(s[0]) || any_tab_child(
        layout,
        s.drop_first(),
    ))
}

/// One of the nodes has a focused tabbed or stacked child below it.
pub open spec fn any_tab_focus(s: Seq<TreeNode>) -> bool
    decreases s,
{
    s.len() > 0 && (tab_focus(s[0]) || any_tab_focus(s.drop_first()))
}

/// The first focused node, in depth-first order through tiling children
/// before floating children.
pub open spec fn focused_node(n: TreeNode) -> Option<TreeNode>
    decreases n,
{
    if n.focused {
        Some(n)
    } else {
        match first_focused(n.nodes@) {
            Some(f) => Some(f),
            None => first_focused(n.floating_nodes@),
        }
    }
}

/// The first focused node below the first of the nodes that has one.
pub open spec fn first_focused(s: Seq<TreeNode>) -> Option<TreeNode>
    decreases s,
{
    if s.len() == 0 {
        None
    } else {
        match focused_node(s[0]) {
            Some(f) => Some(f),
            None => first_focused(s.drop_first()),
        }
    }
}

/// Some of the texts is a prefix of `t`.
pub open spec fn has_some_prefix(t: Seq<char>, prefixes: Seq<Seq<char>>) -> bool {
    exists|i: int| 0 <= i < prefixes.len() && has_prefix(t, #[trigger] prefixes[i])
}

/// A window is an Emacs frame when its class is one of the Emacs classes;
/// a window without a class is one when its title starts with one of the
/// Emacs title prefixes; a node with neither is none.
pub open spec fn is_emacs_frame(n: TreeNode, classes: Seq<Seq<char>>, prefixes: Seq<Seq<char>>) -> bool {
    match n.window_class {
        Some(c) => classes.contains(c@),
        None => match n.name {
            Some(t) => has_some_prefix(t@, prefixes),
            None => false,
        },
    }
}

/// Emacs's answer `nil`, possibly followed by white space, means that it did
/// not handle the command.
pub open spec fn is_nil(value: Seq<char>) -> bool {
    trim_end(value) == "nil"@
}

/// The command that i3 runs in place of `command`: inside a tabbed or
/// stacked container, horizontal focus moves in tab order.
pub open spec fn tab_order_command(command: Seq<char>, tab: bool) -> Seq<char> {
    if tab && command == "focus left"@ {
        "focus prev"@
    } else if tab && command == "focus right"@ {
        "focus next"@
    } else {
        command
    }
}

/// How one character is written inside an Emacs Lisp string literal:
/// backslash and double quote behind a backslash, any other character as
/// itself (the Lisp reader takes other characters, control characters
/// included, literally inside a string).
pub open spec fn lisp_escape_char(c: char) -> Seq<char> {
    if c == '\\' {
        seq!['\\', '\\']
    } else if c == '"' {
        seq!['\\', '"']
    } else {
        seq![c]
    }
}

/// Every character of `s` written for an Emacs Lisp string literal.
pub open spec fn lisp_escaped(s: Seq<char>) -> Seq<char>
    decreases s.len(),
{
    if s.len() == 0 {
        seq![]
    } else {
        lisp_escaped(s.drop_last()) + lisp_escape_char(s.last())
    }
}

/// Joins the command words with single spaces; an empty command is refused.
pub fn normalize_command(args: &[&str]) -> (r: Result<String, CommandError>)
    ensures
        args@.len() == 0 ==> r == Err::<String, CommandError>(CommandError::MissingCommand),
        args@.len() > 0 ==> (r matches Ok(s) && s@ == joined(args@.map_values(|a: &str| a@))),
{
    let ghost w = args@.map_values(|a: &str| a@);
    if args.len() == 0 {
        return Err(CommandError::MissingCommand);
    }
    let mut out = String::from_str(args[0]);
    let mut i: usize = 1;
    assert(w.take(1).drop_last() =~= Seq::<Seq<char>>::empty());
    while i < args.len()
        invariant
            1 <= i <= args@.len(),
            w == args@.map_values(|a: &str| a@),
            out@ == joined(w.take(i as int)),
        decreases args@.len() - i,
    {
        let ghost before = out@;
        push_char(&mut out, ' ');
        out.append(args[i]);
        proof {
            let p = w.take(i + 1);
            assert(p.drop_last() =~= w.take(i as int));
            assert(p.last() == args@[i as int]@);
            assert(out@ =~= before + seq![' '] + args@[i as int]@);
        }
        i = i + 1;
    }
    assert(w.take(args@.len() as int) =~= w);
    Ok(out)
}

/// Whether Emacs's answer is `nil`, ignoring trailing white space such as
/// the newline of the server protocol.
pub fn emacs_value_is_nil(value: &str) -> (r: bool)
    ensures
        r == is_nil(value@),
{
    let end = trimmed_len(value);
    str_eq(value.substring_char(0, end), "nil")
}

/// Whether the node, or one below it, has the focus.
pub fn subtree_focused(node: &TreeNode) -> (r: bool)
    ensures
        r == focus_within(*node),
        r == has_focused_descendant(*node),
    decreases node,
{
    proof {
        lemma_focus_within_means_focused_descendant(*node);
    }
    if node.focused {
        return true;
    }
    let a = any_subtree_focused(&node.nodes);
    if a {
        return true;
    }
    any_subtree_focused(&node.floating_nodes)
}

fn any_subtree_focused(nodes: &Vec<TreeNode>) -> (r: bool)
    ensures
        r == any_focus_within(nodes@),
    decreases nodes,
{
    let mut i: usize = 0;
    assert(nodes@.skip(0) =~= nodes@);
    while i < nodes.len()
        invariant
            i <= nodes@.len(),
            any_focus_within(nodes@) == any_focus_within(nodes@.skip(i as int)),
        decreases nodes@.len() - i,
    {
        let ghost s = nodes@.skip(i as int);
        assert(s[0] == nodes@[i as int]);
        assert(s.drop_first() =~= nodes@.skip(i + 1));
        if subtree_focused(&nodes[i]) {
            return true;
        }
        i = i + 1;
    }
    false
}

/// Whether a tabbed or stacked container at or below the node has a tiling
/// child that holds the focus.
pub fn focused_inside_tablike_container(node: &TreeNode) -> (r: bool)
    ensures
        r == tab_focus(*node),
        r == has_focused_tab(*node),
    decreases node,
{
    proof {
        lemma_tab_focus_means_focused_tab(*node);
    }
    if any_tablike_child(node.layout, &node.nodes) {
        return true;
    }
    any_tablike_focus(&node.floating_nodes)
}

fn any_tablike_child(layout: NodeLayout, nodes: &Vec<TreeNode>) -> (r: bool)
    ensures
        r == any_tab_child(layout, nodes@),
    decreases nodes,
{
    let tablike = matches!(layout, NodeLayout::Tabbed | NodeLayout::Stacked);
    let mut i: usize = 0;
    assert(nodes@.skip(0) =~= nodes@);
    while i < nodes.len()
        invariant
            i <= nodes@.len(),
            tablike == is_tablike(layout),
            any_tab_child(layout, nodes@) == any_tab_child(layout, nodes@.skip(i as int)),
        decreases nodes@.len() - i,
    {
        let ghost s = nodes@.skip(i as int);
        assert(s[0] == nodes@[i as int]);
        assert(s.drop_first() =~= nodes@.skip(i + 1));
        if tablike && subtree_focused(&nodes[i]) {
            return true;
        }
        if focused_inside_tablike_container(&nodes[i]) {
            return true;
        }
        i = i + 1;
    }
    false
}

fn any_tablike_focus(nodes: &Vec<TreeNode>) -> (r: bool)
    ensures
        r == any_tab_focus(nodes@),
    decreases nodes,
{
    let mut i: usize = 0;
    assert(nodes@.skip(0) =~= nodes@);
    while i < nodes.len()
        invariant
            i <= nodes@.len(),
            any_tab_focus(nodes@) == any_tab_focus(nodes@.skip(i as int)),
        decreases nodes@.len() - i,
    {
        let ghost s = nodes@.skip(i as int);
        assert(s[0] == nodes@[i as int]);
        assert(s.drop_first() =~= nodes@.skip(i + 1));
        if focused_inside_tablike_container(&nodes[i]) {
            return true;
        }
        i = i + 1;
    }
    false
}

/// Finds the focused node: the node itself, or the first focused node below
/// it, through tiling children before floating ones.
pub fn find_focused(node: &TreeNode) -> (r: Option<&TreeNode>)
    ensures
        match r {
            Some(f) => focused_node(*node) == Some(*f),
            None => focused_node(*node) is None,
        },
        r is Some <==> has_focused_descendant(*node),
        r matches Some(f) ==> f.focused,
    decreases node,
{
    proof {
        lemma_focused_node_is_a_focused_descendant(*node);
    }
    if node.focused {
        return Some(node);
    }
    match find_focused_in(&node.nodes) {
        Some(f) => Some(f),
        None => find_focused_in(&node.floating_nodes),
    }
}

fn find_focused_in(nodes: &Vec<TreeNode>) -> (r: Option<&TreeNode>)
    ensures
        match r {
            Some(f) => first_focused(nodes@) == Some(*f),
            None => first_focused(nodes@) is None,
        },
    decreases nodes,
{
    let mut i: usize = 0;
    assert(nodes@.skip(0) =~= nodes@);
    while i < nodes.len()
        invariant
            i <= nodes@.len(),
            first_focused(nodes@) == first_focused(nodes@.skip(i as int)),
        decreases nodes@.len() - i,
    {
        let ghost s = nodes@.skip(i as int);
        assert(s[0] == nodes@[i as int]);
        assert(s.drop_first() =~= nodes@.skip(i + 1));
        match find_focused(&nodes[i]) {
            Some(f) => {
                return Some(f);
            },
            None => {},
        }
        i = i + 1;
    }
    None
}

fn contains_string(v: &Vec<String>, s: &str) -> (r: bool)
    ensures
        r == views(v@).contains(s@),
{
    let mut i: usize = 0;
    while i < v.len()
        invariant
            i <= v@.len(),
            forall|j: int| 0 <= j < i ==> (#[trigger] v@[j])@ != s@,
        decreases v@.len() - i,
    {
        if str_eq(v[i].as_str(), s) {
            assert(views(v@)[i as int] == s@);
            return true;
        }
        i = i + 1;
    }
    assert forall|j: int| 0 <= j < views(v@).len() implies views(v@)[j] != s@ by {
        assert(views(v@)[j] == v@[j]@);
    }
    false
}

fn starts_with_any(t: &str, prefixes: &Vec<String>) -> (r: bool)
    ensures
        r == has_some_prefix(t@, views(prefixes@)),
{
    let n = t.unicode_len();
    let mut i: usize = 0;
    while i < prefixes.len()
        invariant
            n == t@.len(),
            i <= prefixes@.len(),
            forall|j: int| 0 <= j < i ==> !has_prefix(t@, (#[trigger] prefixes@[j])@),
        decreases prefixes@.len() - i,
    {
        if range_has_prefix(t, 0, n, prefixes[i].as_str()) {
            assert(t@.subrange(0, n as int) =~= t@);
            assert(views(prefixes@)[i as int] == prefixes@[i as int]@);
            return true;
        }
        assert(t@.subrange(0, n as int) =~= t@);
        i = i + 1;
    }
    assert forall|j: int| 0 <= j < views(prefixes@).len() implies !has_prefix(
        t@,
        #[trigger] views(prefixes@)[j],
    ) by {
        assert(views(prefixes@)[j] == prefixes@[j]@);
    }
    false
}

/// Whether the node is an Emacs frame, by the window classes and title
/// prefixes of the configuration.
pub fn is_emacs(node: &TreeNode, config: &Config) -> (r: bool)
    ensures
        r == is_emacs_frame(
            *node,
            views(config.emacs_classes@),
            views(config.emacs_name_prefixes@),
        ),
{
    match &node.window_class {
        Some(class) => contains_string(&config.emacs_classes, class.as_str()),
        None => match &node.name {
            Some(name) => starts_with_any(name.as_str(), &config.emacs_name_prefixes),
            None => false,
        },
    }
}

/// The command as i3 should run it when Emacs does not handle it: inside a
/// tabbed or stacked container, `focus left` and `focus right` become
/// `focus prev` and `focus next`.
pub fn fallback_i3_command(command: &str, tree: &TreeNode) -> (r: String)
    ensures
        r@ == tab_order_command(command@, tab_focus(*tree)),
        !has_tab_container(*tree) ==> r@ == command@,
{
    proof {
        if !has_tab_container(*tree) {
            lemma_no_tab_container_keeps_command(*tree, command@);
        }
    }
    if focused_inside_tablike_container(tree) {
        if str_eq(command, "focus left") {
            return String::from_str("focus prev");
        }
        if str_eq(command, "focus right") {
            return String::from_str("focus next");
        }
    }
    String::from_str(command)
}

/// The Emacs Lisp expression that hands `command` to the Emacs dispatcher:
/// `(my/emacs-i3-command "COMMAND")`, with the command written as a string
/// literal.
pub fn emacs_i3_command(command: &str) -> (r: String)
    ensures
        r@ == "(my/emacs-i3-command \""@ + lisp_escaped(command@) + "\")"@,
{
    let n = command.unicode_len();
    let mut escaped = String::new();
    let mut i: usize = 0;
    assert(command@.take(0) =~= Seq::<char>::empty());
    while i < n
        invariant
            n == command@.len(),
            i <= n,
            escaped@ == lisp_escaped(command@.take(i as int)),
        decreases n - i,
    {
        let c = command.get_char(i);
        let ghost before = escaped@;
        if c == '\\' {
            push_char(&mut escaped, '\\');
            push_char(&mut escaped, '\\');
        } else if c == '"' {
            push_char(&mut escaped, '\\');
            push_char(&mut escaped, '"');
        } else {
            push_char(&mut escaped, c);
        }
        proof {
            let p = command@.take(i + 1);
            assert(p.drop_last() =~= command@.take(i as int));
            assert(p.last() == c);
            assert(escaped@ =~= before + lisp_escape_char(c));
        }
        i = i + 1;
    }
    assert(command@.take(n as int) =~= command@);
    String::from_str("(my/emacs-i3-command \"").concat(escaped.as_str()).concat("\")")
}

/// Whether Emacs is asked first: the focused node is an Emacs frame and a
/// server socket is known.
pub fn should_ask_emacs(tree: &TreeNode, config: &Config, socket_known: bool) -> (r: bool)
    ensures
        r == (socket_known && (focused_node(*tree) matches Some(f) && is_emacs_frame(
            f,
            views(config.emacs_classes@),
            views(config.emacs_name_prefixes@),
        ))),
{
    if !socket_known {
        return false;
    }
    match find_focused(tree) {
        Some(f) => is_emacs(f, config),
        None => false,
    }
}

/// Whether Emacs handled the command: it answered with a value other than
/// `nil`. A failed evaluation counts as unhandled.
pub fn emacs_handled(outcome: &Result<String, EmacsError>) -> (r: bool)
    ensures
        r == (outcome matches Ok(v) && !is_nil(v@)),
{
    match outcome {
        Ok(value) => !emacs_value_is_nil(value.as_str()),
        Err(_) => false,
    }
}

/// The command that i3 runs when Emacs does not handle `command`, under the
/// configured tab-order policy.
pub fn i3_command_for(command: &str, tree: &TreeNode, config: &Config) -> (r: String)
    ensures
        r@ == tab_order_command(command@, config.tabbed_horizontal_focus && tab_focus(*tree)),
{
    if config.tabbed_horizontal_focus {
        fallback_i3_command(command, tree)
    } else {
        String::from_str(command)
    }
}

/// The words of `focus ` followed by one word.
proof fn lemma_focus_words(s: Seq<char>, dir: Seq<char>)
    requires
        s == "focus "@ + dir,
        dir.len() > 0,
        forall|i: int| 0 <= i < dir.len() ==> !is_white_space(#[trigger] dir[i]),
    ensures
        words(s) == seq!["focus"@, dir],
{
    reveal_strlit("focus ");
    reveal_strlit("focus");
    let f = "focus"@;
    assert(f =~= seq!['f', 'o', 'c', 'u', 's']);
    assert forall|k: int| 0 <= k < 5 implies !is_white_space(#[trigger] s[k]) by {
        assert(s[k] == f[k]);
    }
    assert(s[5] == ' ');
    lemma_word_len_exact(s, 5);
    assert(s.take(5) =~= f);
    let rest = s.skip(5);
    assert(rest[0] == ' ');
    assert(rest.drop_first() =~= dir);
    lemma_word_len_exact(dir, dir.len() as int);
    assert(dir.take(dir.len() as int) =~= dir);
    assert(dir.skip(dir.len() as int) =~= Seq::<char>::empty());
    assert(!is_white_space(dir[0]));
    assert(words(Seq::<char>::empty()) =~= Seq::<Seq<char>>::empty());
    assert(words(dir) =~= seq![dir.take(word_len(dir) as int)] + words(dir.skip(word_len(dir) as int)));
    assert(words(dir) =~= seq![dir]);
    assert(words(rest) == words(dir));
    assert(words(s) =~= seq![f] + words(rest));
}

/// A command that reads as no supported operation reaches i3 exactly as
/// given, whatever the tree and the tab-order policy: only `focus left` and
/// `focus right` are ever rewritten, and those are supported operations.
pub proof fn lemma_unknown_command_reaches_i3_unchanged(command: Seq<char>, tab: bool)
    requires
        reads_as(Operation::Unknown, words(command)),
    ensures
        tab_order_command(command, tab) == command,
{
    reveal_strlit("focus left");
    reveal_strlit("focus right");
    reveal_strlit("focus ");
    reveal_strlit("left");
    reveal_strlit("right");
    reveal_strlit("focus");
    if command == "focus left"@ {
        assert(command =~= "focus "@ + "left"@);
        lemma_focus_words(command, "left"@);
        assert(words(command)[0] == "focus"@);
    }
    if command == "focus right"@ {
        assert(command =~= "focus "@ + "right"@);
        lemma_focus_words(command, "right"@);
        assert(words(command)[0] == "focus"@);
        assert("right"@ != "left"@);
    }
}

/// With the default classes and prefixes, a window is an Emacs frame
/// exactly as before configuration existed: by the class `Emacs`, or,
/// without a class, by a title that starts with `emacs: `.
pub proof fn lemma_default_detection_by_class_or_title(n: TreeNode)
    ensures
        is_emacs_frame(n, seq!["Emacs"@], seq!["emacs: "@]) == match n.window_class {
            Some(c) => c@ == "Emacs"@,
            None => n.name matches Some(t) && has_prefix(t@, "emacs: "@),
        },
{
    let classes = seq!["Emacs"@];
    let prefixes = seq!["emacs: "@];
    match n.window_class {
        Some(c) => {
            if c@ == "Emacs"@ {
                assert(classes[0] == c@);
            }
        },
        None => match n.name {
            Some(t) => {
                if has_prefix(t@, "emacs: "@) {
                    assert(has_prefix(t@, prefixes[0]));
                }
            },
            None => {},
        },
    }
}

/// The error messages among i3's command outcomes, in order.
pub open spec fn outcome_errors(outcomes: Seq<Option<String>>) -> Seq<Seq<char>>
    decreases outcomes.len(),
{
    if outcomes.len() == 0 {
        seq![]
    } else {
        let rest = outcome_errors(outcomes.drop_last());
        match outcomes.last() {
            Some(e) => rest.push(e@),
            None => rest,
        }
    }
}

/// The texts joined by `sep`.
pub open spec fn joined_by(s: Seq<Seq<char>>, sep: Seq<char>) -> Seq<char>
    decreases s.len(),
{
    if s.len() == 0 {
        seq![]
    } else if s.len() == 1 {
        s[0]
    } else {
        joined_by(s.drop_last(), sep) + sep + s.last()
    }
}

/// The failure that i3's answer to `command` reports: none where no outcome
/// holds an error; otherwise `i3 command 'COMMAND' failed: ` followed by
/// the error messages, in order, joined by `; `.
pub fn i3_failure(command: &str, outcomes: &Vec<Option<String>>) -> (r: Option<String>)
    ensures
        outcome_errors(outcomes@).len() == 0 ==> r is None,
        outcome_errors(outcomes@).len() > 0 ==> (r matches Some(m) && m@ == "i3 command '"@
            + command@ + "' failed: "@ + joined_by(outcome_errors(outcomes@), "; "@)),
{
    let mut joined = String::new();
    let mut count: usize = 0;
    let mut i: usize = 0;
    assert(outcomes@.take(0) =~= Seq::<Option<String>>::empty());
    while i < outcomes.len()
        invariant
            i <= outcomes@.len(),
            count == outcome_errors(outcomes@.take(i as int)).len(),
            count <= i,
            joined@ == joined_by(outcome_errors(outcomes@.take(i as int)), "; "@),
        decreases outcomes@.len() - i,
    {
        let ghost before = outcome_errors(outcomes@.take(i as int));
        let ghost p = outcomes@.take(i + 1);
        assert(p.drop_last() =~= outcomes@.take(i as int));
        assert(p.last() == outcomes@[i as int]);
        match &outcomes[i] {
            Some(e) => {
                if count > 0 {
                    joined.append("; ");
                }
                joined.append(e.as_str());
                proof {
                    let after = before.push(e@);
                    assert(after.drop_last() =~= before);
                    if count == 0 {
                        assert(joined@ =~= e@);
                    }
                }
                count = count + 1;
            },
            None => {},
        }
        i = i + 1;
    }
    assert(outcomes@.take(outcomes@.len() as int) =~= outcomes@);
    if count == 0 {
        None
    } else {
        Some(String::from_str("i3 command '").concat(command).concat("' failed: ").concat(
            joined.as_str(),
        ))
    }
}

/// A window with a class is an Emacs frame exactly when its class equals
/// one of the configured classes, at any position of the list; a window
/// without a class is one exactly when its title begins with one of the
/// configured prefixes, at any position; a node with neither is none.
pub proof fn lemma_emacs_frame_by_any_listed_class_or_prefix(
    n: TreeNode,
    classes: Seq<Seq<char>>,
    prefixes: Seq<Seq<char>>,
)
    ensures
        n.window_class matches Some(c) ==> (is_emacs_frame(n, classes, prefixes) <==> exists|i: int|
            0 <= i < classes.len() && #[trigger] classes[i] == c@),
        n.window_class is None ==> (n.name matches Some(t) ==> (is_emacs_frame(n, classes, prefixes)
            <==> exists|i: int|
            0 <= i < prefixes.len() && prefixes[i].len() <= t@.len() && t@.subrange(
                0,
                (#[trigger] prefixes[i]).len() as int,
            ) == prefixes[i])),
        n.window_class is None && n.name is None ==> !is_emacs_frame(n, classes, prefixes),
{
    if let Some(c) = n.window_class {
        if classes.contains(c@) {
            let i = choose|i: int| 0 <= i < classes.len() && classes[i] == c@;
            assert(classes[i] == c@);
        }
    }
    if n.window_class is None {
        if let Some(t) = n.name {
            if has_some_prefix(t@, prefixes) {
                let i = choose|i: int| 0 <= i < prefixes.len() && has_prefix(t@, #[trigger] prefixes[i]);
                assert(t@.subrange(0, prefixes[i].len() as int) == t@.take(prefixes[i].len() as int));
            }
            if exists|i: int|
                0 <= i < prefixes.len() && prefixes[i].len() <= t@.len() && t@.subrange(
                    0,
                    (#[trigger] prefixes[i]).len() as int,
                ) == prefixes[i] {
                let i = choose|i: int|
                    0 <= i < prefixes.len() && prefixes[i].len() <= t@.len() && t@.subrange(
                        0,
                        (#[trigger] prefixes[i]).len() as int,
                    ) == prefixes[i];
                assert(t@.subrange(0, prefixes[i].len() as int) == t@.take(prefixes[i].len() as int));
                assert(has_prefix(t@, prefixes[i]));
            }
        }
    }
}

} // verus!
