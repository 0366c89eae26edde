use cmdtree::builder::{Builder, BuilderChain};
use cmdtree::completion::{
    create_action_completion_items, create_tree_completion_items, tree_completions,
    word_break_start,
};

fn vec_str(v: Vec<&str>) -> Vec<String> {
    v.into_iter().map(|x| x.to_string()).collect()
}

#[test]
fn create_tree_completion_items_test() {
    let mut cmder = Builder::default_config("cmdtree-example")
        .begin_class("class1", "") // a class
        .begin_class("inner-class1", "") // can nest a class
        .add_action("name", "print class name", |_, _| ())
        .end_class()
        .end_class()
        .begin_class("print", "")
        .add_action("echo", "", |_, _| ())
        .add_action("countdown", "", |_, _| ())
        .into_commander()
        .unwrap();

    let v: Vec<_> = create_tree_completion_items(&cmder)
        .into_iter()
        .map(|x| x.completestr)
        .collect();
    assert_eq!(
        v,
        vec_str(vec![
            "class1",
            "class1 inner-class1",
            "class1 inner-class1 name",
            "print",
            "print countdown",
            "print echo"
        ])
    );

    cmder.parse_line("class1", true, &mut String::new());

    let v: Vec<_> = create_tree_completion_items(&cmder)
        .into_iter()
        .map(|x| x.completestr)
        .collect();
    assert_eq!(v, vec_str(vec!["inner-class1", "inner-class1 name",]));
}

#[test]
fn create_action_completion_items_test() {
    let mut cmder = Builder::default_config("eg")
        .begin_class("one", "") // a class
        .begin_class("two", "")
        .add_action("three", "", |_, _| ())
        .end_class()
        .end_class()
        .begin_class("hello", "")
        .end_class()
        .into_commander()
        .unwrap();

    let v: Vec<_> = create_action_completion_items(&cmder)
        .into_iter()
        .map(|x| (x.info.completestr, x.qualified_path))
        .collect();
    assert_eq!(
        v,
        vec![("one two three ".to_string(), "one.two..three".to_string(),)]
    );

    cmder.parse_line("one", true, &mut String::new());

    let v: Vec<_> = create_action_completion_items(&cmder)
        .into_iter()
        .map(|x| (x.info.completestr, x.qualified_path))
        .collect();
    assert_eq!(
        v,
        vec![("two three ".to_string(), "one.two..three".to_string(),)]
    );
}

#[test]
fn tree_completions_test() {
    let mut cmder = Builder::default_config("cmdtree-example")
        .begin_class("class1", "")
        .begin_class("inner-class1", "")
        .add_action("name", "", |_, _| ())
        .end_class()
        .end_class()
        .begin_class("print", "")
        .add_action("echo", "", |_, _| ())
        .add_action("countdown", "", |_, _| ())
        .end_class()
        .add_action("clone", "", |_, _| ())
        .into_commander()
        .unwrap();

    let v = create_tree_completion_items(&cmder);
    let completions = tree_completions("", &v)
        .into_iter()
        .map(|x| x.0)
        .collect::<Vec<_>>();
    assert_eq!(
        completions,
        vec![
            "clone",
            "class1",
            "class1 inner-class1",
            "class1 inner-class1 name",
            "print",
            "print countdown",
            "print echo",
        ]
    );

    let completions = tree_completions("cl", &v)
        .into_iter()
        .map(|x| x.0)
        .collect::<Vec<_>>();
    assert_eq!(
        completions,
        vec![
            "clone",
            "class1",
            "class1 inner-class1",
            "class1 inner-class1 name",
        ]
    );

    let completions = tree_completions("class1 ", &v)
        .into_iter()
        .map(|x| x.0)
        .collect::<Vec<_>>();
    assert_eq!(completions, vec!["inner-class1", "inner-class1 name",]);

    cmder.parse_line("class1", true, &mut String::new());

    let v = create_tree_completion_items(&cmder);
    let completions = tree_completions("inn", &v)
        .into_iter()
        .map(|x| x.0)
        .collect::<Vec<_>>();
    assert_eq!(completions, vec!["inner-class1", "inner-class1 name",]);
}

#[test]
fn word_break_start_edges() {
    assert_eq!(word_break_start("", &[' ']), 0);
    assert_eq!(word_break_start("abc", &[' ']), 0);
    assert_eq!(word_break_start("ab c", &[' ']), 3);
    assert_eq!(word_break_start("   ", &[' ']), 3);
    assert_eq!(word_break_start("a-b c-d", &['-']), 6);
}

#[test]
fn empty_line_completions_reproduce_the_items() {
    let cmder = Builder::default_config("eg")
        .begin_class("one", "")
        .add_action("two", "", |_, _| ())
        .into_commander()
        .unwrap();
    let v = create_tree_completion_items(&cmder);
    let all: Vec<_> = tree_completions("", &v).into_iter().collect();
    assert_eq!(all.len(), v.len());
    for (got, item) in all.iter().zip(v.iter()) {
        assert_eq!(got.0, item.completestr);
        assert_eq!(&got.1, item);
    }
}
