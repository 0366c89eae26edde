use colored::Colorize;

use cmdtree::builder::{Builder, BuilderChain};
use cmdtree::parse::{parse_word, write_help, write_help_coloured, WordResult};
use cmdtree::{Action, LineResult, SubClass};

#[test]
fn parse_line_test() {
    let mut cmder = Builder::default_config("test")
        .begin_class("class1", "class1 help")
        .begin_class("class1-class1", "adsf")
        .add_action("action1", "adf", |_, _| ())
        .end_class()
        .begin_class("class1-class2", "adsf")
        .add_action("action2", "adsf", |_, _| ())
        .end_class()
        .end_class()
        .begin_class("class2", "asdf")
        .end_class()
        .add_action("test-args", "", |_, args| {
            assert_eq!(&args, &["one", "two", "three"])
        })
        .into_commander()
        .unwrap();

    let w = &mut String::new();

    assert_eq!(cmder.parse_line("adsf", true, w), LineResult::Unrecognized);
    assert!(cmder.at_root());
    assert_eq!(cmder.parse_line("adsf", false, w), LineResult::Unrecognized);
    assert!(cmder.at_root());

    assert_eq!(cmder.parse_line("class1", true, w), LineResult::Class);
    assert!(!cmder.at_root());
    assert_eq!(cmder.path(), "test.class1");

    // should be able to action here
    assert_eq!(
        cmder.parse_line("class1-class1 action1", true, w),
        LineResult::Action(())
    );
    assert_eq!(cmder.path(), "test.class1");
    assert_eq!(
        cmder.parse_line("class1-class2 action2", true, w),
        LineResult::Action(())
    );
    assert_eq!(cmder.path(), "test.class1");

    // get back to root
    assert_eq!(cmder.parse_line("cancel", true, w), LineResult::Cancel);
    assert_eq!(cmder.path(), "test");

    // test args
    assert_eq!(
        cmder.parse_line("test-args one two three", true, w),
        LineResult::Action(())
    );
    assert_eq!(cmder.path(), "test");

    // test help
    assert_eq!(cmder.parse_line("help", true, w), LineResult::Help);
    assert_eq!(cmder.path(), "test");
    assert_eq!(cmder.parse_line("help", false, w), LineResult::Help);
    assert_eq!(cmder.path(), "test");

    // test exit
    assert_eq!(cmder.parse_line("exit", true, w), LineResult::Exit);
}

#[test]
fn parse_word_test() {
    let mut sc = SubClass::<()>::with_name("Class-Name", "help msg");
    assert_eq!(parse_word(&sc, "HELP"), WordResult::Help);
    assert_eq!(parse_word(&sc, "EXIT"), WordResult::Exit);
    assert_eq!(parse_word(&sc, "CANCEL"), WordResult::Cancel);
    assert_eq!(parse_word(&sc, "C"), WordResult::Cancel);
    assert_eq!(parse_word(&sc, "asdf"), WordResult::Unrecognized);

    sc.classes.push(SubClass::with_name("name", "asdf"));
    sc.actions.push(Action::blank_fn("action", "adsf"));
    assert_eq!(parse_word(&sc, "NAME"), WordResult::Class(0));
    assert_eq!(parse_word(&sc, "aCtIoN"), WordResult::Action(0));
}

#[test]
fn write_help_coloured_test() {
    let mut sc = SubClass::<()>::with_name("Class-Name", "root class");
    sc.classes
        .push(SubClass::with_name("class1", "class 1 help"));
    sc.classes
        .push(SubClass::with_name("class2", "class 2 help"));
    sc.actions.push(Action::blank_fn("action1", "action 1 help"));
    sc.actions.push(Action::blank_fn("action2", "action 2 help"));

    let mut help = String::new();
    write_help_coloured(&sc, &mut help);

    assert_eq!(
        &help,
        &format!(
            "{} -- prints the help messages\n{} | {} -- returns to the root class\n{} -- sends the exit signal to end the interactive loop\n{}\n\t{} -- class 1 help\n\t{} -- class 2 help\n{}\n\t{} -- action 1 help\n\t{} -- action 2 help\n",
            "help".bright_yellow(),
            "cancel".bright_yellow(),
            "c".bright_yellow(),
            "exit".bright_yellow(),
            "Classes:".bright_purple(),
            "class1".bright_yellow(),
            "class2".bright_yellow(),
            "Actions:".bright_purple(),
            "action1".bright_yellow(),
            "action2".bright_yellow()
        )
    );
}

#[test]
fn write_help_test() {
    let mut sc = SubClass::<()>::with_name("Class-Name", "root class");
    sc.classes
        .push(SubClass::with_name("class1", "class 1 help"));
    sc.classes
        .push(SubClass::with_name("class2", "class 2 help"));
    sc.actions.push(Action::blank_fn("action1", "action 1 help"));
    sc.actions.push(Action::blank_fn("action2", "action 2 help"));

    let mut help = String::new();
    write_help(&sc, &mut help);

    assert_eq!(
        &help,
        "help -- prints the help messages\ncancel | c -- returns to the root class\nexit -- sends the exit signal to end the interactive loop\nClasses:\n\tclass1 -- class 1 help\n\tclass2 -- class 2 help\nActions:\n\taction1 -- action 1 help\n\taction2 -- action 2 help\n"
    );
}

#[test]
fn unrecognized_writes_the_word_in_the_diagnostic() {
    let mut cmder = Builder::default_config("base")
        .begin_class("one", "")
        .into_commander()
        .unwrap();

    let mut w = String::new();
    assert_eq!(
        cmder.parse_line("mystery-word", true, &mut w),
        LineResult::Unrecognized
    );
    assert!(w.contains("mystery-word"));
    assert_eq!(cmder.path(), "base");
    assert_eq!(
        w,
        format!(
            "{}\n",
            "'mystery-word' does not match any keywords, classes, or actions".bright_red()
        )
    );

    let mut w = String::new();
    assert_eq!(
        cmder.parse_line("mystery-word", false, &mut w),
        LineResult::Unrecognized
    );
    assert_eq!(
        w,
        format!(
            "{}\n",
            "'mystery-word' does not match any keywords, classes, or actions"
                .bright_red()
                .white()
        )
    );
}

#[test]
fn styling_surrounds_the_text_when_colors_are_forced() {
    colored::control::set_override(true);
    let mut sc = SubClass::<()>::with_name("base", "");
    sc.classes.push(SubClass::with_name("alpha", "alpha help"));

    let mut help = String::new();
    write_help_coloured(&sc, &mut help);
    colored::control::unset_override();

    // with colors forced on, the styled words carry escape sequences
    assert!(help.contains('\u{1b}'));
    assert!(help.contains("alpha"));
    assert!(help.contains("alpha help"));
    assert_ne!(
        help,
        "help -- prints the help messages\ncancel | c -- returns to the root class\nexit -- sends the exit signal to end the interactive loop\nClasses:\n\talpha -- alpha help\n"
    );
}

#[test]
fn action_return_values_come_back() {
    let mut cmder = Builder::<i32>::new("base")
        .add_action("give", "", |_, _| 42)
        .into_commander()
        .unwrap();
    assert_eq!(
        cmder.parse_line("give", false, &mut String::new()),
        LineResult::Action(42)
    );
}

#[test]
fn line_edges_never_panic() {
    let mut cmder = Builder::default_config("base")
        .begin_class("one", "")
        .into_commander()
        .unwrap();
    let w = &mut String::new();

    // empty line: the single empty token matches nothing
    assert_eq!(cmder.parse_line("", true, w), LineResult::Unrecognized);
    assert_eq!(cmder.path(), "base");

    // consecutive spaces give an empty token, which fails to match
    assert_eq!(cmder.parse_line("one  one", true, w), LineResult::Unrecognized);
    assert_eq!(cmder.path(), "base");

    // surrounding whitespace is trimmed before splitting
    assert_eq!(cmder.parse_line(" one", true, w), LineResult::Class);
    assert_eq!(cmder.path(), "base.one");
    cmder.parse_line("cancel", true, w);
    assert_eq!(cmder.parse_line("\tone\n", true, w), LineResult::Class);
    assert_eq!(cmder.path(), "base.one");
}
