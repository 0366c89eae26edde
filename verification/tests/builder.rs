use cmdtree::builder::{check_names, BuildError, Builder, BuilderChain};
use cmdtree::{Action, SubClass};

#[test]
fn check_names_test() {
    let mut sc = SubClass::<()>::with_name("name", "adsf");
    assert_eq!(check_names("name1", &sc), Ok(()));
    sc.classes.push(SubClass::with_name("sub-name", "asdf"));
    assert_eq!(check_names("name1", &sc), Ok(()));
    assert_eq!(
        check_names("sub-name", &sc),
        Err(BuildError::NameExistsAsClass)
    );
    sc.actions.push(Action::blank_fn("name1", "adf"));
    assert_eq!(
        check_names("name1", &sc),
        Err(BuildError::NameExistsAsAction)
    );
}

#[test]
fn no_help_cancel_or_exit_classes() {
    let cmdr = Builder::default_config("adf").begin_class("help", "shouldn't work");
    assert!(matches!(cmdr, Err(BuildError::NameExistsAsAction)));
}

#[test]
fn builder_root_test() {
    let cmdr = Builder::default_config("root")
        .begin_class("adsf", "adf")
        .begin_class("adsf", "adsf")
        .begin_class("asdf", "adsf")
        .root()
        .unwrap();
    assert_eq!(cmdr.parents.len(), 0);
    assert_eq!(cmdr.current.name, "root");
}

#[test]
fn reserved_words_rejected_everywhere() {
    for word in ["help", "cancel", "c", "exit", "HELP", "Cancel"] {
        let cmdr = Builder::default_config("base").begin_class(word, "");
        assert!(matches!(cmdr, Err(BuildError::NameExistsAsAction)));
        let cmdr = Builder::default_config("base").add_action(word, "", |_, _| ());
        assert!(matches!(cmdr, Err(BuildError::NameExistsAsAction)));
    }
}

#[test]
fn end_class_at_root_is_no_parent() {
    let cmdr = Builder::default_config("base").end_class();
    assert!(matches!(cmdr, Err(BuildError::NoParent)));
}

#[test]
fn duplicate_names_give_the_right_variant() {
    let cmdr = Builder::default_config("base")
        .begin_class("one", "")
        .end_class()
        .begin_class("ONE", "");
    assert!(matches!(cmdr, Err(BuildError::NameExistsAsClass)));

    let cmdr = Builder::default_config("base")
        .add_action("go", "", |_, _| ())
        .begin_class("GO", "");
    assert!(matches!(cmdr, Err(BuildError::NameExistsAsAction)));
}

#[test]
fn chained_calls_short_circuit_on_the_first_error() {
    let cmdr = Builder::default_config("base")
        .begin_class("help", "rejected")
        .begin_class("fine", "")
        .add_action("also-fine", "", |_, _| ())
        .end_class()
        .root();
    assert!(matches!(cmdr, Err(BuildError::NameExistsAsAction)));
    let cmdr = Builder::default_config("base")
        .begin_class("help", "rejected")
        .into_commander();
    assert!(matches!(cmdr, Err(BuildError::NameExistsAsAction)));
}
