//! Typed i3-style commands. A command line is split into words, and the
//! supported command family becomes an [`Operation`]; anything else stays
//! [`Operation::Unknown`] so that i3 receives it unchanged.

use crate::text::{split_words, str_eq, views, words};
use vstd::prelude::*;

verus! {

/// A direction for focus and move commands.
#[derive(Debug, Clone, Copy, PartialEq, Eq)]
pub enum Direction {
    Left,
    Right,
    Up,
    Down,
}

/// Growing or shrinking in a resize command.
#[derive(Debug, Clone, Copy, PartialEq, Eq)]
pub enum ResizeAction {
    Grow,
    Shrink,
}

/// The dimension a resize command changes.
#[derive(Debug, Clone, Copy, PartialEq, Eq)]
pub enum ResizeAxis {
    Width,
    Height,
}

/// The orientation of a split command.
#[derive(Debug, Clone, Copy, PartialEq, Eq)]
pub enum SplitDirection {
    Horizontal,
    Vertical,
}

/// What a command asks for.
#[derive(Debug, Clone, PartialEq, Eq)]
pub enum Operation {
    Focus(Direction),
    Move(Direction),
    Resize { action: ResizeAction, axis: ResizeAxis, arguments: Vec<String> },
    LayoutToggleSplit,
    Split(SplitDirection),
    Kill,
    Unknown,
}

/// A command line together with the operation it asks for.
#[derive(Debug, Clone, PartialEq, Eq)]
pub struct ParsedCommand {
    /// The command line as given.
    pub raw: String,
    /// Its typed reading.
    pub operation: Operation,
}

/// The direction a word names.
pub open spec fn direction_of(s: Seq<char>) -> Option<Direction> {
    if s == "left"@ {
        Some(Direction::Left)
    } else if s == "right"@ {
        Some(Direction::Right)
    } else if s == "up"@ {
        Some(Direction::Up)
    } else if s == "down"@ {
        Some(Direction::Down)
    } else {
        None
    }
}

/// The word that names a direction.
pub open spec fn direction_name(d: Direction) -> Seq<char> {
    match d {
        Direction::Left => "left"@,
        Direction::Right => "right"@,
        Direction::Up => "up"@,
        Direction::Down => "down"@,
    }
}

/// The resize action a word names.
pub open spec fn resize_action_of(s: Seq<char>) -> Option<ResizeAction> {
    if s == "grow"@ {
        Some(ResizeAction::Grow)
    } else if s == "shrink"@ {
        Some(ResizeAction::Shrink)
    } else {
        None
    }
}

/// The resize axis a word names.
pub open spec fn resize_axis_of(s: Seq<char>) -> Option<ResizeAxis> {
    if s == "width"@ {
        Some(ResizeAxis::Width)
    } else if s == "height"@ {
        Some(ResizeAxis::Height)
    } else {
        None
    }
}

/// A focus or move operation on the named direction, or `Unknown`.
pub open spec fn directed(focus: bool, s: Seq<char>) -> Operation {
    match direction_of(s) {
        Some(d) => if focus {
            Operation::Focus(d)
        } else {
            Operation::Move(d)
        },
        None => Operation::Unknown,
    }
}

/// `op` is the operation that the words `t` ask for.
pub open spec fn reads_as(op: Operation, t: Seq<Seq<char>>) -> bool {
    if t.len() == 2 && t[0] == "focus"@ {
        op == directed(true, t[1])
    } else if t.len() == 2 && t[0] == "move"@ {
        op == directed(false, t[1])
    } else if t.len() >= 3 && t[0] == "resize"@ {
        match (resize_action_of(t[1]), resize_axis_of(t[2])) {
            (Some(a), Some(x)) => op matches Operation::Resize { action, axis, arguments } && action
                == a && axis == x && views(arguments@) == t.skip(3),
            _ => op == Operation::Unknown,
        }
    } else if t.len() == 3 && t[0] == "layout"@ && t[1] == "toggle"@ && t[2] == "split"@ {
        op == Operation::LayoutToggleSplit
    } else if t.len() == 2 && t[0] == "split"@ && (t[1] == "h"@ || t[1] == "horizontal"@) {
        op == Operation::Split(SplitDirection::Horizontal)
    } else if t.len() == 2 && t[0] == "split"@ && (t[1] == "v"@ || t[1] == "vertical"@) {
        op == Operation::Split(SplitDirection::Vertical)
    } else if t.len() == 1 && t[0] == "kill"@ {
        op == Operation::Kill
    } else {
        op == Operation::Unknown
    }
}

impl Direction {
    /// Reads a direction word: `left`, `right`, `up` or `down`.
    pub fn parse(value: &str) -> (r: Option<Direction>)
        ensures
            r == direction_of(value@),
    {
        if str_eq(value, "left") {
            Some(Direction::Left)
        } else if str_eq(value, "right") {
            Some(Direction::Right)
        } else if str_eq(value, "up") {
            Some(Direction::Up)
        } else if str_eq(value, "down") {
            Some(Direction::Down)
        } else {
            None
        }
    }

    /// The word that names this direction.
    pub fn as_str(&self) -> (r: &'static str)
        ensures
            r@ == direction_name(*self),
    {
        match self {
            Direction::Left => "left",
            Direction::Right => "right",
            Direction::Up => "up",
            Direction::Down => "down",
        }
    }
}

/// A direction's name reads back as that direction.
pub proof fn lemma_direction_name_parses_back(d: Direction)
    ensures
        direction_of(direction_name(d)) == Some(d),
{
    reveal_strlit("left");
    reveal_strlit("right");
    reveal_strlit("up");
    reveal_strlit("down");
    assert("left"@.len() == 4 && "right"@.len() == 5 && "up"@.len() == 2 && "down"@.len() == 4);
    assert("left"@[0] == 'l' && "down"@[0] == 'd');
}

fn resize_action(value: &str) -> (r: Option<ResizeAction>)
    ensures
        r == resize_action_of(value@),
{
    if str_eq(value, "grow") {
        Some(ResizeAction::Grow)
    } else if str_eq(value, "shrink") {
        Some(ResizeAction::Shrink)
    } else {
        None
    }
}

fn resize_axis(value: &str) -> (r: Option<ResizeAxis>)
    ensures
        r == resize_axis_of(value@),
{
    if str_eq(value, "width") {
        Some(ResizeAxis::Width)
    } else if str_eq(value, "height") {
        Some(ResizeAxis::Height)
    } else {
        None
    }
}

fn directed_operation(focus: bool, value: &str) -> (r: Operation)
    ensures
        r == directed(focus, value@),
{
    match Direction::parse(value) {
        Some(d) => if focus {
            Operation::Focus(d)
        } else {
            Operation::Move(d)
        },
        None => Operation::Unknown,
    }
}

impl ParsedCommand {
    /// Splits `command` at white space and reads the supported command
    /// family: `focus DIR`, `move DIR`, `resize grow|shrink width|height
    /// ARGS..`, `layout toggle split`, `split h|horizontal|v|vertical` and
    /// `kill`. Everything else is `Unknown`. The command line is kept as
    /// given.
    pub fn parse(command: &str) -> (r: ParsedCommand)
        ensures
            r.raw@ == command@,
            reads_as(r.operation, words(command@)),
    {
        let tokens = split_words(command);
        let ghost t = words(command@);
        let n = tokens.len();
        proof {
            assert forall|i: int| 0 <= i < n implies #[trigger] tokens@[i]@ == t[i] by {
                assert(views(tokens@)[i] == tokens@[i]@);
            }
        }
        let operation = if n == 2 && str_eq(tokens[0].as_str(), "focus") {
            directed_operation(true, tokens[1].as_str())
        } else if n == 2 && str_eq(tokens[0].as_str(), "move") {
            directed_operation(false, tokens[1].as_str())
        } else if n >= 3 && str_eq(tokens[0].as_str(), "resize") {
            match (resize_action(tokens[1].as_str()), resize_axis(tokens[2].as_str())) {
                (Some(action), Some(axis)) => {
                    let mut arguments: Vec<String> = Vec::new();
                    let mut i: usize = 3;
                    while i < n
                        invariant
                            3 <= i <= n,
                            n == tokens@.len(),
                            n == t.len(),
                            forall|k: int| 0 <= k < n ==> #[trigger] tokens@[k]@ == t[k],
                            views(arguments@) == t.subrange(3, i as int),
                        decreases n - i,
                    {
                        let ghost before = arguments@;
                        arguments.push(tokens[i].clone());
                        assert(views(arguments@) =~= views(before).push(t[i as int]));
                        assert(t.subrange(3, i + 1) =~= t.subrange(3, i as int).push(t[i as int]));
                        i = i + 1;
                    }
                    assert(t.subrange(3, n as int) =~= t.skip(3));
                    Operation::Resize { action, axis, arguments }
                },
                _ => Operation::Unknown,
            }
        } else if n == 3 && str_eq(tokens[0].as_str(), "layout") && str_eq(
            tokens[1].as_str(),
            "toggle",
        ) && str_eq(tokens[2].as_str(), "split") {
            Operation::LayoutToggleSplit
        } else if n == 2 && str_eq(tokens[0].as_str(), "split") && (str_eq(
            tokens[1].as_str(),
            "h",
        ) || str_eq(tokens[1].as_str(), "horizontal")) {
            Operation::Split(SplitDirection::Horizontal)
        } else if n == 2 && str_eq(tokens[0].as_str(), "split") && (str_eq(
            tokens[1].as_str(),
            "v",
        ) || str_eq(tokens[1].as_str(), "vertical")) {
            Operation::Split(SplitDirection::Vertical)
        } else if n == 1 && str_eq(tokens[0].as_str(), "kill") {
            Operation::Kill
        } else {
            Operation::Unknown
        };
        ParsedCommand { raw: String::from_str(command), operation }
    }
}

/// The word that names a resize action.
pub open spec fn resize_action_name(a: ResizeAction) -> Seq<char> {
    match a {
        ResizeAction::Grow => "grow"@,
        ResizeAction::Shrink => "shrink"@,
    }
}

/// The word that names a resize axis.
pub open spec fn resize_axis_name(x: ResizeAxis) -> Seq<char> {
    match x {
        ResizeAxis::Width => "width"@,
        ResizeAxis::Height => "height"@,
    }
}

proof fn lemma_words_distinct()
    ensures
        "focus"@ != "move"@,
        "focus"@ != "resize"@,
        "focus"@ != "layout"@,
        "focus"@ != "split"@,
        "focus"@ != "kill"@,
        "move"@ != "resize"@,
        "move"@ != "layout"@,
        "move"@ != "split"@,
        "move"@ != "kill"@,
        "resize"@ != "layout"@,
        "resize"@ != "split"@,
        "resize"@ != "kill"@,
        "layout"@ != "split"@,
        "layout"@ != "kill"@,
        "split"@ != "kill"@,
        "h"@ != "v"@,
        "h"@ != "vertical"@,
        "horizontal"@ != "v"@,
        "horizontal"@ != "vertical"@,
        "grow"@ != "shrink"@,
        "width"@ != "height"@,
        forall|d: Direction| direction_of(#[trigger] direction_name(d)) == Some(d),
        forall|a: ResizeAction| resize_action_of(#[trigger] resize_action_name(a)) == Some(a),
        forall|x: ResizeAxis| resize_axis_of(#[trigger] resize_axis_name(x)) == Some(x),
{
    reveal_strlit("focus");
    reveal_strlit("move");
    reveal_strlit("resize");
    reveal_strlit("layout");
    reveal_strlit("split");
    reveal_strlit("kill");
    reveal_strlit("h");
    reveal_strlit("v");
    reveal_strlit("horizontal");
    reveal_strlit("vertical");
    reveal_strlit("grow");
    reveal_strlit("shrink");
    reveal_strlit("width");
    reveal_strlit("height");
    assert("focus"@[0] == 'f' && "move"@[0] == 'm' && "resize"@[0] == 'r');
    assert("layout"@[0] == 'l' && "split"@[0] == 's' && "kill"@[0] == 'k');
    assert("h"@[0] == 'h' && "v"@[0] == 'v' && "horizontal"@[0] == 'h' && "vertical"@[0] == 'v');
    assert("grow"@[0] == 'g' && "shrink"@[0] == 's' && "width"@[0] == 'w' && "height"@[0] == 'h');
    assert forall|d: Direction| direction_of(#[trigger] direction_name(d)) == Some(d) by {
        lemma_direction_name_parses_back(d);
    }
}

/// Each supported operation is read from exactly one shape of command:
/// `focus DIR` and `move DIR` are exactly two words; `resize ACTION AXIS`
/// keeps every further word as an argument; `layout toggle split`, the
/// split forms and `kill` are exactly those words. Any other command reads
/// as `Unknown`.
pub proof fn lemma_operation_shapes(op: Operation, t: Seq<Seq<char>>)
    requires
        reads_as(op, t),
    ensures
        forall|d: Direction|
            op == Operation::Focus(d) <==> t == seq!["focus"@, #[trigger] direction_name(d)],
        forall|d: Direction|
            op == Operation::Move(d) <==> t == seq!["move"@, #[trigger] direction_name(d)],
        op matches Operation::Resize { action, axis, arguments } ==> t.len() >= 3 && t[0]
            == "resize"@ && t[1] == resize_action_name(action) && t[2] == resize_axis_name(axis)
            && views(arguments@) == t.skip(3),
        forall|a: ResizeAction, x: ResizeAxis|
            t.len() >= 3 && t[0] == "resize"@ && t[1] == #[trigger] resize_action_name(a) && t[2]
                == #[trigger] resize_axis_name(x) ==> (op matches Operation::Resize {
                action,
                axis,
                arguments,
            } && action == a && axis == x && views(arguments@) == t.skip(3)),
        op == Operation::LayoutToggleSplit <==> t == seq!["layout"@, "toggle"@, "split"@],
        op == Operation::Split(SplitDirection::Horizontal) <==> (t == seq!["split"@, "h"@] || t
            == seq!["split"@, "horizontal"@]),
        op == Operation::Split(SplitDirection::Vertical) <==> (t == seq!["split"@, "v"@] || t
            == seq!["split"@, "vertical"@]),
        op == Operation::Kill <==> t == seq!["kill"@],
{
    lemma_words_distinct();
    if t.len() == 2 && t[0] == "focus"@ {
        if let Some(d) = direction_of(t[1]) {
            assert(direction_name(d) == t[1]) by {
                reveal_strlit("left");
                reveal_strlit("right");
                reveal_strlit("up");
                reveal_strlit("down");
            }
        }
    }
    if t.len() == 2 && t[0] == "move"@ {
        if let Some(d) = direction_of(t[1]) {
            assert(direction_name(d) == t[1]);
        }
    }
    if t.len() >= 3 && t[0] == "resize"@ {
        if let Some(a) = resize_action_of(t[1]) {
            assert(resize_action_name(a) == t[1]);
        }
        if let Some(x) = resize_axis_of(t[2]) {
            assert(resize_axis_name(x) == t[2]);
        }
    }
    assert forall|d: Direction| t == seq!["focus"@, #[trigger] direction_name(d)] implies op
        == Operation::Focus(d) by {
        assert(t[0] == "focus"@ && t[1] == direction_name(d));
    }
    assert forall|d: Direction| t == seq!["move"@, #[trigger] direction_name(d)] implies op
        == Operation::Move(d) by {
        assert(t[0] == "move"@ && t[1] == direction_name(d));
    }
    if t == seq!["layout"@, "toggle"@, "split"@] {
        assert(t[0] == "layout"@ && t[1] == "toggle"@ && t[2] == "split"@);
    }
    if t == seq!["split"@, "h"@] || t == seq!["split"@, "horizontal"@] || t == seq!["split"@, "v"@]
        || t == seq!["split"@, "vertical"@] {
        assert(t[0] == "split"@);
    }
    if t == seq!["kill"@] {
        assert(t[0] == "kill"@);
    }
    if t.len() == 3 && t[0] == "layout"@ && t[1] == "toggle"@ && t[2] == "split"@ {
        assert(t =~= seq!["layout"@, "toggle"@, "split"@]);
    }
    if t.len() == 2 && t[0] == "split"@ {
        if t[1] == "h"@ {
            assert(t =~= seq!["split"@, "h"@]);
        }
        if t[1] == "horizontal"@ {
            assert(t =~= seq!["split"@, "horizontal"@]);
        }
        if t[1] == "v"@ {
            assert(t =~= seq!["split"@, "v"@]);
        }
        if t[1] == "vertical"@ {
            assert(t =~= seq!["split"@, "vertical"@]);
        }
    }
    if t.len() == 1 && t[0] == "kill"@ {
        assert(t =~= seq!["kill"@]);
    }
    if t.len() == 2 && (t[0] == "focus"@ || t[0] == "move"@) {
        if let Some(d) = direction_of(t[1]) {
            if t[0] == "focus"@ {
                assert(t =~= seq!["focus"@, direction_name(d)]);
            } else {
                assert(t =~= seq!["move"@, direction_name(d)]);
            }
        }
    }
}

} // verus!
