use emacs_i3::command::{Direction, Operation, ParsedCommand, ResizeAction, ResizeAxis, SplitDirection};

#[test]
fn parses_supported_command_family() {
    assert_eq!(
        ParsedCommand::parse("focus left").operation,
        Operation::Focus(Direction::Left)
    );
    assert_eq!(
        ParsedCommand::parse("move down").operation,
        Operation::Move(Direction::Down)
    );
    assert_eq!(
        ParsedCommand::parse("resize grow width 10 px").operation,
        Operation::Resize {
            action: ResizeAction::Grow,
            axis: ResizeAxis::Width,
            arguments: vec!["10".to_owned(), "px".to_owned()],
        }
    );
    assert_eq!(
        ParsedCommand::parse("layout toggle split").operation,
        Operation::LayoutToggleSplit
    );
    assert_eq!(
        ParsedCommand::parse("split v").operation,
        Operation::Split(SplitDirection::Vertical)
    );
    assert_eq!(ParsedCommand::parse("kill").operation, Operation::Kill);
}

#[test]
fn preserves_unknown_commands_for_i3_fallback() {
    let parsed = ParsedCommand::parse("workspace next");
    assert_eq!(parsed.operation, Operation::Unknown);
    assert_eq!(parsed.raw, "workspace next");
}

#[test]
fn extra_white_space_between_words_is_ignored() {
    let parsed = ParsedCommand::parse("  focus \t right\n");
    assert_eq!(parsed.operation, Operation::Focus(Direction::Right));
    assert_eq!(parsed.raw, "  focus \t right\n");
}

#[test]
fn unknown_direction_or_extra_word_is_unknown() {
    assert_eq!(ParsedCommand::parse("focus parent").operation, Operation::Unknown);
    assert_eq!(ParsedCommand::parse("focus left now").operation, Operation::Unknown);
    assert_eq!(ParsedCommand::parse("kill window").operation, Operation::Unknown);
    assert_eq!(ParsedCommand::parse("").operation, Operation::Unknown);
}

#[test]
fn resize_variants_and_bad_resize() {
    assert_eq!(
        ParsedCommand::parse("resize shrink height").operation,
        Operation::Resize {
            action: ResizeAction::Shrink,
            axis: ResizeAxis::Height,
            arguments: vec![],
        }
    );
    assert_eq!(ParsedCommand::parse("resize grow depth 10").operation, Operation::Unknown);
    assert_eq!(ParsedCommand::parse("resize grow").operation, Operation::Unknown);
}

#[test]
fn split_accepts_short_and_long_names() {
    assert_eq!(
        ParsedCommand::parse("split h").operation,
        Operation::Split(SplitDirection::Horizontal)
    );
    assert_eq!(
        ParsedCommand::parse("split horizontal").operation,
        Operation::Split(SplitDirection::Horizontal)
    );
    assert_eq!(
        ParsedCommand::parse("split vertical").operation,
        Operation::Split(SplitDirection::Vertical)
    );
    assert_eq!(ParsedCommand::parse("split x").operation, Operation::Unknown);
    assert_eq!(
        ParsedCommand::parse("layout toggle").operation,
        Operation::Unknown
    );
}

#[test]
fn direction_names_read_back() {
    for d in [Direction::Left, Direction::Right, Direction::Up, Direction::Down] {
        assert_eq!(Direction::parse(d.as_str()), Some(d));
    }
    assert_eq!(Direction::Up.as_str(), "up");
    assert_eq!(Direction::parse("Left"), None);
}
