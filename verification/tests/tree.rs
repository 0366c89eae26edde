use cmdtree::builder::{Builder, BuilderChain};
use cmdtree::{Action, SubClass};

#[test]
fn subclass_with_name_test() {
    let sc = SubClass::<()>::with_name("NAME", "Help Message");
    assert_eq!(&sc.name, "name");
    assert_eq!(sc.help.as_str(), "Help Message");
}

#[test]
fn action_debug_test() {
    let a = Action::blank_fn("action-name", "help me!");
    assert_eq!(
        &a.debug_string(),
        "Action { name: action-name, help: help me! }"
    );
}

#[test]
fn current_path_test() {
    let mut cmder = Builder::default_config("base")
        .begin_class("one", "")
        .begin_class("two", "")
        .into_commander()
        .unwrap();

    let w = &mut String::new();

    assert_eq!(cmder.path(), "base");

    cmder.parse_line("one two", true, w);
    assert_eq!(cmder.path(), "base.one.two");

    cmder.parse_line("c", true, w);
    assert_eq!(cmder.path(), "base");

    cmder.parse_line("one", true, w);
    assert_eq!(cmder.path(), "base.one");
}

#[test]
fn root_test() {
    let mut cmder = Builder::default_config("base")
        .begin_class("one", "")
        .begin_class("two", "")
        .into_commander()
        .unwrap();

    let w = &mut String::new();

    assert_eq!(cmder.at_root(), true);

    cmder.parse_line("one two", true, w);
    assert_eq!(cmder.at_root(), false);

    cmder.parse_line("c", true, w);
    assert_eq!(cmder.at_root(), true);
}

#[test]
fn structure_test() {
    let mut cmder = Builder::default_config("base")
        .begin_class("one", "")
        .begin_class("two", "")
        .end_class()
        .add_action("action", "", |_, _| ())
        .end_class()
        .add_action("action", "", |_, _| ())
        .into_commander()
        .unwrap();

    cmder.parse_line("one", false, &mut String::new());

    let structure = cmder.structure(true);

    assert_eq!(
        structure
            .iter()
            .map(|x| x.path.as_str())
            .collect::<Vec<_>>(),
        vec!["..action", "one", "one..action", "one.two",]
    );

    let structure = cmder.structure(false);

    assert_eq!(
        structure
            .iter()
            .map(|x| x.path.as_str())
            .collect::<Vec<_>>(),
        vec!["..action", "two",]
    );
}

#[test]
fn root_name_is_folded() {
    let cmder = Builder::default_config("BASE").into_commander().unwrap();
    assert_eq!(cmder.root_name(), "base");
    assert_eq!(cmder.path(), "base");
}

#[test]
fn into_commander_closes_open_scopes() {
    let cmder = Builder::default_config("base")
        .begin_class("one", "")
        .begin_class("two", "")
        .begin_class("three", "")
        .into_commander()
        .unwrap();
    assert!(cmder.at_root());
    assert_eq!(cmder.path(), "base");
    assert_eq!(cmder.root_name(), "base");

    let explicit = Builder::default_config("base")
        .begin_class("one", "")
        .begin_class("two", "")
        .begin_class("three", "")
        .root()
        .into_commander()
        .unwrap();
    assert_eq!(explicit.path(), "base");
    assert_eq!(
        explicit
            .structure(true)
            .iter()
            .map(|x| x.path.as_str())
            .collect::<Vec<_>>(),
        cmder
            .structure(true)
            .iter()
            .map(|x| x.path.as_str())
            .collect::<Vec<_>>()
    );
}

#[test]
fn structure_is_deterministic() {
    let cmder = Builder::default_config("base")
        .begin_class("beta", "")
        .end_class()
        .begin_class("alpha", "")
        .add_action("zulu", "", |_, _| ())
        .end_class()
        .into_commander()
        .unwrap();
    let first: Vec<String> = cmder
        .structure(true)
        .into_iter()
        .map(|x| x.path)
        .collect();
    let second: Vec<String> = cmder
        .structure(true)
        .into_iter()
        .map(|x| x.path)
        .collect();
    assert_eq!(first, second);
    assert_eq!(first, vec!["alpha", "alpha..zulu", "beta"]);
}
