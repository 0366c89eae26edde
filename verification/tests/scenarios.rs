use cmdtree::builder::{Builder, BuilderChain};
use cmdtree::LineResult;

#[test]
fn navigate_to_an_action_and_return() {
    let mut cmder = Builder::default_config("base")
        .begin_class("one", "")
        .begin_class("two", "")
        .add_action("three", "", |_, _| ())
        .into_commander()
        .unwrap();

    assert_eq!(
        cmder
            .structure(true)
            .iter()
            .map(|x| x.path.as_str())
            .collect::<Vec<_>>(),
        vec!["one", "one.two", "one.two..three"]
    );

    let w = &mut String::new();
    assert!(matches!(
        cmder.parse_line("one two three", true, w),
        LineResult::Action(())
    ));
    assert_eq!(cmder.path(), "base");
}

#[test]
fn navigation_persists_and_cancel_resets() {
    let mut cmder = Builder::default_config("base")
        .begin_class("one", "")
        .begin_class("two", "")
        .into_commander()
        .unwrap();
    let w = &mut String::new();

    assert_eq!(cmder.parse_line("one", true, w), LineResult::Class);
    assert_eq!(cmder.parse_line("two", true, w), LineResult::Class);
    assert_eq!(cmder.path(), "base.one.two");

    assert_eq!(cmder.parse_line("cancel", true, w), LineResult::Cancel);
    assert_eq!(cmder.path(), "base");
}

#[test]
fn help_never_changes_the_path() {
    let mut cmder = Builder::default_config("base")
        .begin_class("one", "")
        .begin_class("two", "")
        .into_commander()
        .unwrap();
    let w = &mut String::new();

    assert_eq!(cmder.parse_line("help", false, w), LineResult::Help);
    assert_eq!(cmder.path(), "base");

    cmder.parse_line("one", false, w);
    assert_eq!(cmder.parse_line("help", false, w), LineResult::Help);
    assert_eq!(cmder.path(), "base.one");

    cmder.parse_line("two", false, w);
    assert_eq!(cmder.parse_line("help", true, w), LineResult::Help);
    assert_eq!(cmder.path(), "base.one.two");
}

#[test]
fn exit_discards_the_rest_of_the_line() {
    let mut cmder = Builder::default_config("base")
        .begin_class("one", "")
        .begin_class("two", "")
        .end_class()
        .end_class()
        .add_action("boom", "", |w, _| w.push_str("BOOM"))
        .into_commander()
        .unwrap();
    let mut w = String::new();

    assert_eq!(cmder.parse_line("one two exit", true, &mut w), LineResult::Exit);
    assert_eq!(cmder.path(), "base");
    assert_eq!(w, "");

    // a word after exit is never consulted, even an action
    assert_eq!(
        cmder.parse_line("exit boom", true, &mut w),
        LineResult::Exit
    );
    assert_eq!(w, "");
}

#[test]
fn action_rolls_the_cursor_back() {
    let mut cmder = Builder::default_config("base")
        .begin_class("one", "")
        .add_action("go", "", |_, _| ())
        .into_commander()
        .unwrap();
    let w = &mut String::new();

    assert_eq!(cmder.parse_line("one", true, w), LineResult::Class);
    assert_eq!(cmder.path(), "base.one");
    assert_eq!(cmder.parse_line("go", true, w), LineResult::Action(()));
    assert_eq!(cmder.path(), "base.one");
}

#[test]
fn action_receives_the_raw_following_words() {
    let mut cmder = Builder::default_config("base")
        .add_action("shout", "", |w, args| {
            w.push_str(&args.join("+"));
        })
        .into_commander()
        .unwrap();
    let mut w = String::new();
    assert!(matches!(
        cmder.parse_line("shout Mixed CASE kept", true, &mut w),
        LineResult::Action(())
    ));
    assert_eq!(w, "Mixed+CASE+kept");
}
