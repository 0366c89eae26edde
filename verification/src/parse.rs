//! Word-by-word resolution of an input line against the commander's
//! current position: reserved words take precedence over child classes,
//! classes over actions, and anything else is unrecognized.
use vstd::prelude::*;

use crate::strings::{lower_of, str_eq};
use crate::{class_at, lemma_cursor_push, path_of, valid_cursor};
use crate::{Action, Commander, SubClass};

verus! {

use vstd::string::StringExecFns;

/// The outcome of parsing one line of input.
#[derive(Debug, PartialEq)]
pub enum LineResult<R> {
    /// A help listing was written.
    Help,
    /// The cursor was reset to the root.
    Cancel,
    /// The exit signal was given.
    Exit,
    /// The cursor moved to a class.
    Class,
    /// An action ran, returning this value.
    Action(R),
    /// A word matched nothing; a diagnostic was written.
    Unrecognized,
}

/// What a single word resolves to at a class: a reserved word, the child
/// class or action at the given index, or nothing.
#[derive(Debug, PartialEq, Eq, Structural, Clone, Copy)]
pub enum WordResult {
    /// The reserved help word.
    Help,
    /// The reserved cancel words.
    Cancel,
    /// The reserved exit word.
    Exit,
    /// The child class at this index.
    Class(usize),
    /// The action at this index.
    Action(usize),
    /// No match.
    Unrecognized,
}

/// The index of the first of `names` equal to `w`, if any.
pub open spec fn first_name_match(names: Seq<Seq<char>>, w: Seq<char>) -> Option<int>
    decreases names.len(),
{
    if names.len() == 0 {
        None
    } else if names[0] == w {
        Some(0int)
    } else {
        match first_name_match(names.drop_first(), w) {
            Some(k) => Some(k + 1),
            None => None,
        }
    }
}

/// The first match is a match, nothing before it matches, and a `None`
/// means nothing matches.
pub proof fn lemma_first_name_match(names: Seq<Seq<char>>, w: Seq<char>)
    ensures
        match first_name_match(names, w) {
            Some(k) => 0 <= k < names.len() && names[k] == w && (forall|j: int|
                0 <= j < k ==> names[j] != w),
            None => forall|j: int| 0 <= j < names.len() ==> names[j] != w,
        },
    decreases names.len(),
{
    if names.len() != 0 && names[0] != w {
        lemma_first_name_match(names.drop_first(), w);
        assert(forall|j: int| 1 <= j < names.len() ==> names[j] == names.drop_first()[j - 1]);
    }
}

/// The names of the child classes of `sc`, in order.
pub open spec fn class_names<R>(sc: SubClass<R>) -> Seq<Seq<char>> {
    sc.classes@.map_values(|c: SubClass<R>| c.name@)
}

/// The names of the actions of `sc`, in order.
pub open spec fn action_names<R>(sc: SubClass<R>) -> Seq<Seq<char>> {
    sc.actions@.map_values(|a: Action<R>| a.name@)
}

/// What the case-folded word `lwr` resolves to at `sc`: reserved words
/// first, then the first child class of that name, then the first action,
/// and otherwise nothing.
pub open spec fn spec_parse_word<R>(sc: SubClass<R>, lwr: Seq<char>) -> WordResult {
    if lwr == "help"@ {
        WordResult::Help
    } else if lwr == "cancel"@ || lwr == "c"@ {
        WordResult::Cancel
    } else if lwr == "exit"@ {
        WordResult::Exit
    } else {
        match first_name_match(class_names(sc), lwr) {
            Some(k) => WordResult::Class(k as usize),
            None => match first_name_match(action_names(sc), lwr) {
                Some(k) => WordResult::Action(k as usize),
                None => WordResult::Unrecognized,
            },
        }
    }
}

/// Resolve one word against the current class.
#[verifier::loop_isolation(false)]
pub fn parse_word<R>(subclass: &SubClass<R>, word: &str) -> (r: WordResult)
    ensures
        r == spec_parse_word(*subclass, lower_of(word@)),
{
    let lwr = crate::strings::to_lowercase(word);
    let l = lwr.as_str();
    if str_eq(l, "help") {
        return WordResult::Help;
    }
    if str_eq(l, "cancel") || str_eq(l, "c") {
        return WordResult::Cancel;
    }
    if str_eq(l, "exit") {
        return WordResult::Exit;
    }
    let nc = subclass.classes.len();
    let mut i: usize = 0;
    while i < nc
        invariant
            i <= nc,
            forall|j: int| 0 <= j < i ==> class_names(*subclass)[j] != lwr@,
        decreases nc - i,
    {
        if str_eq(subclass.classes[i].name.as_str(), l) {
            proof {
                assert(class_names(*subclass)[i as int] == lwr@);
                lemma_first_name_match(class_names(*subclass), lwr@);
            }
            return WordResult::Class(i);
        }
        assert(class_names(*subclass)[i as int] != lwr@);
        i = i + 1;
    }
    proof {
        lemma_first_name_match(class_names(*subclass), lwr@);
    }
    let na = subclass.actions.len();
    let mut i: usize = 0;
    while i < na
        invariant
            i <= na,
            forall|j: int| 0 <= j < i ==> action_names(*subclass)[j] != lwr@,
        decreases na - i,
    {
        if str_eq(subclass.actions[i].name.as_str(), l) {
            proof {
                assert(action_names(*subclass)[i as int] == lwr@);
                lemma_first_name_match(action_names(*subclass), lwr@);
            }
            return WordResult::Action(i);
        }
        assert(action_names(*subclass)[i as int] != lwr@);
        i = i + 1;
    }
    proof {
        lemma_first_name_match(action_names(*subclass), lwr@);
    }
    WordResult::Unrecognized
}

/// The plain help line for one child class.
pub open spec fn plain_class_line<R>(c: SubClass<R>) -> Seq<char> {
    "\t"@ + c.name@ + " -- "@ + c.help@ + "\n"@
}

/// The plain help lines for the child classes, in order.
pub open spec fn plain_class_lines<R>(cs: Seq<SubClass<R>>) -> Seq<char>
    decreases cs.len(),
{
    if cs.len() == 0 {
        Seq::empty()
    } else {
        plain_class_line(cs[0]) + plain_class_lines(cs.drop_first())
    }
}

/// The plain help line for one action.
pub open spec fn plain_action_line<R>(a: Action<R>) -> Seq<char> {
    "\t"@ + a.name@ + " -- "@ + a.help@ + "\n"@
}

/// The plain help lines for the actions, in order.
pub open spec fn plain_action_lines<R>(acts: Seq<Action<R>>) -> Seq<char>
    decreases acts.len(),
{
    if acts.len() == 0 {
        Seq::empty()
    } else {
        plain_action_line(acts[0]) + plain_action_lines(acts.drop_first())
    }
}

/// The full plain help listing for a class: the reserved words, then the
/// child classes with their help text, then the actions with theirs.
pub open spec fn plain_help_of<R>(sc: SubClass<R>) -> Seq<char> {
    "help -- prints the help messages\n"@ + "cancel | c -- returns to the root class\n"@
        + "exit -- sends the exit signal to end the interactive loop\n"@ + (if sc.classes@.len()
        > 0 {
        "Classes:\n"@ + plain_class_lines(sc.classes@)
    } else {
        Seq::empty()
    }) + (if sc.actions@.len() > 0 {
        "Actions:\n"@ + plain_action_lines(sc.actions@)
    } else {
        Seq::empty()
    })
}

/// No escape character occurs in `s`, so styling only surrounds it.
pub open spec fn esc_free(s: Seq<char>) -> bool {
    forall|i: int| 0 <= i < s.len() ==> s[i] != '\u{1b}'
}

/// `w` is `s` surrounded by some (possibly empty) styling prefix and
/// suffix.
pub open spec fn wraps(w: Seq<char>, s: Seq<char>) -> bool {
    exists|p: Seq<char>, q: Seq<char>| w == p + s + q
}

/// The concatenation of escape-free strings is escape free.
pub proof fn lemma_esc_free_concat(a: Seq<char>, b: Seq<char>)
    requires
        esc_free(a),
        esc_free(b),
    ensures
        esc_free(a + b),
{
    assert forall|i: int| 0 <= i < (a + b).len() implies (a + b)[i] != '\u{1b}' by {
        if i < a.len() {
            assert((a + b)[i] == a[i]);
        } else {
            assert((a + b)[i] == b[i - a.len()]);
        }
    }
}

/// Relies on colored's `Colorize::bright_yellow` and the `Display` of
/// `ColoredString`: when the input holds no escape character, the
/// rendering is the input with a styling prefix and suffix (either may be
/// empty when colors are disabled).
#[verifier::external_body]
fn styled_bright_yellow(s: &str) -> (r: String)
    ensures
        esc_free(s@) ==> wraps(r@, s@),
{
    colored::Colorize::bright_yellow(s).to_string()
}

/// Relies on colored's `Colorize::bright_purple`, as `styled_bright_yellow`
/// relies on `bright_yellow`.
#[verifier::external_body]
fn styled_bright_purple(s: &str) -> (r: String)
    ensures
        esc_free(s@) ==> wraps(r@, s@),
{
    colored::Colorize::bright_purple(s).to_string()
}

/// Relies on colored's `Colorize::bright_red`, as `styled_bright_yellow`
/// relies on `bright_yellow`.
#[verifier::external_body]
fn styled_bright_red(s: &str) -> (r: String)
    ensures
        esc_free(s@) ==> wraps(r@, s@),
{
    colored::Colorize::bright_red(s).to_string()
}

/// Relies on colored's `Colorize::white`, as `styled_bright_yellow`
/// relies on `bright_yellow`.
#[verifier::external_body]
fn styled_white(s: &str) -> (r: String)
    ensures
        esc_free(s@) ==> wraps(r@, s@),
{
    colored::Colorize::white(s).to_string()
}

/// The names printed by a styled help listing hold no escape character.
pub open spec fn help_esc_free<R>(sc: SubClass<R>) -> bool {
    &&& (forall|i: int|
        0 <= i < sc.classes@.len() ==> esc_free((#[trigger] sc.classes@[i]).name@))
    &&& (forall|i: int|
        0 <= i < sc.actions@.len() ==> esc_free((#[trigger] sc.actions@[i]).name@))
}

/// `added` consists of one styled help line per child class, in order.
pub open spec fn coloured_class_lines<R>(cs: Seq<SubClass<R>>, added: Seq<char>) -> bool
    decreases cs.len(),
{
    if cs.len() == 0 {
        added == Seq::<char>::empty()
    } else {
        exists|w: Seq<char>, rest: Seq<char>|
            {
                &&& wraps(w, cs[0].name@)
                &&& added == "\t"@ + w + " -- "@ + cs[0].help@ + "\n"@ + rest
                &&& coloured_class_lines(cs.drop_first(), rest)
            }
    }
}

/// `added` consists of one styled help line per action, in order.
pub open spec fn coloured_action_lines<R>(acts: Seq<Action<R>>, added: Seq<char>) -> bool
    decreases acts.len(),
{
    if acts.len() == 0 {
        added == Seq::<char>::empty()
    } else {
        exists|w: Seq<char>, rest: Seq<char>|
            {
                &&& wraps(w, acts[0].name@)
                &&& added == "\t"@ + w + " -- "@ + acts[0].help@ + "\n"@ + rest
                &&& coloured_action_lines(acts.drop_first(), rest)
            }
    }
}

/// `part` is the styled classes section: empty when there are no child
/// classes, otherwise a styled header followed by the class lines.
pub open spec fn coloured_classes_section<R>(cs: Seq<SubClass<R>>, part: Seq<char>) -> bool {
    if cs.len() == 0 {
        part == Seq::<char>::empty()
    } else {
        exists|hdr: Seq<char>, rest: Seq<char>|
            {
                &&& wraps(hdr, "Classes:"@)
                &&& part == hdr + "\n"@ + rest
                &&& coloured_class_lines(cs, rest)
            }
    }
}

/// `part` is the styled actions section: empty when there are no actions,
/// otherwise a styled header followed by the action lines.
pub open spec fn coloured_actions_section<R>(acts: Seq<Action<R>>, part: Seq<char>) -> bool {
    if acts.len() == 0 {
        part == Seq::<char>::empty()
    } else {
        exists|hdr: Seq<char>, rest: Seq<char>|
            {
                &&& wraps(hdr, "Actions:"@)
                &&& part == hdr + "\n"@ + rest
                &&& coloured_action_lines(acts, rest)
            }
    }
}

/// `added` is a full styled help listing for `sc`: the three reserved
/// word lines with styled words, then the styled classes and actions
/// sections.
pub open spec fn coloured_help<R>(sc: SubClass<R>, added: Seq<char>) -> bool {
    exists|
        wh: Seq<char>,
        wc: Seq<char>,
        wc1: Seq<char>,
        we: Seq<char>,
        cls: Seq<char>,
        acts: Seq<char>,
    |
        {
            &&& wraps(wh, "help"@)
            &&& wraps(wc, "cancel"@)
            &&& wraps(wc1, "c"@)
            &&& wraps(we, "exit"@)
            &&& coloured_classes_section(sc.classes@, cls)
            &&& coloured_actions_section(sc.actions@, acts)
            &&& added == wh + " -- prints the help messages\n"@ + wc + " | "@ + wc1
                + " -- returns to the root class\n"@ + we
                + " -- sends the exit signal to end the interactive loop\n"@ + cls + acts
        }
}

/// Write the help listing of `class` to `writer` without styling.
#[verifier::loop_isolation(false)]
pub fn write_help<R>(class: &SubClass<R>, writer: &mut String)
    ensures
        final(writer)@ == old(writer)@ + plain_help_of(*class),
{
    writer.append("help -- prints the help messages\n");
    writer.append("cancel | c -- returns to the root class\n");
    writer.append("exit -- sends the exit signal to end the interactive loop\n");
    let ghost base = writer@;
    if class.classes.len() > 0 {
        writer.append("Classes:\n");
        let nc = class.classes.len();
        let mut i: usize = 0;
        proof {
            assert(class.classes@.skip(0) =~= class.classes@);
        }
        while i < nc
            invariant
                i <= nc,
                writer@ + plain_class_lines(class.classes@.skip(i as int)) == base
                    + "Classes:\n"@ + plain_class_lines(class.classes@),
            decreases nc - i,
        {
            proof {
                let s = class.classes@.skip(i as int);
                assert(s[0] == class.classes@[i as int]);
                assert(s.drop_first() =~= class.classes@.skip(i + 1));
            }
            writer.append("\t");
            writer.append(class.classes[i].name.as_str());
            writer.append(" -- ");
            writer.append(class.classes[i].help.as_str());
            writer.append("\n");
            proof {
                assert(writer@ + plain_class_lines(class.classes@.skip(i + 1)) =~= base
                    + "Classes:\n"@ + plain_class_lines(class.classes@));
            }
            i = i + 1;
        }
        proof {
            assert(plain_class_lines(class.classes@.skip(nc as int)) == Seq::<char>::empty());
            assert(writer@ =~= base + "Classes:\n"@ + plain_class_lines(class.classes@));
        }
    }
    let ghost base2 = writer@;
    if class.actions.len() > 0 {
        writer.append("Actions:\n");
        let na = class.actions.len();
        let mut i: usize = 0;
        proof {
            assert(class.actions@.skip(0) =~= class.actions@);
        }
        while i < na
            invariant
                i <= na,
                writer@ + plain_action_lines(class.actions@.skip(i as int)) == base2
                    + "Actions:\n"@ + plain_action_lines(class.actions@),
            decreases na - i,
        {
            proof {
                let s = class.actions@.skip(i as int);
                assert(s[0] == class.actions@[i as int]);
                assert(s.drop_first() =~= class.actions@.skip(i + 1));
            }
            writer.append("\t");
            writer.append(class.actions[i].name.as_str());
            writer.append(" -- ");
            writer.append(class.actions[i].help.as_str());
            writer.append("\n");
            proof {
                assert(writer@ + plain_action_lines(class.actions@.skip(i + 1)) =~= base2
                    + "Actions:\n"@ + plain_action_lines(class.actions@));
            }
            i = i + 1;
        }
        proof {
            assert(plain_action_lines(class.actions@.skip(na as int)) == Seq::<char>::empty());
            assert(writer@ =~= base2 + "Actions:\n"@ + plain_action_lines(class.actions@));
        }
    }
    proof {
        assert(writer@ =~= old(writer)@ + plain_help_of(*class));
    }
}

/// A styled line for the first class, followed by styled lines for the
/// rest, are styled lines for all of them.
proof fn lemma_class_lines_cons<R>(
    cs: Seq<SubClass<R>>,
    w: Seq<char>,
    rest: Seq<char>,
    added: Seq<char>,
)
    requires
        cs.len() > 0,
        wraps(w, cs[0].name@),
        added == "\t"@ + w + " -- "@ + cs[0].help@ + "\n"@ + rest,
        coloured_class_lines(cs.drop_first(), rest),
    ensures
        coloured_class_lines(cs, added),
{
}

/// A styled line for the first action, followed by styled lines for the
/// rest, are styled lines for all of them.
proof fn lemma_action_lines_cons<R>(
    acts: Seq<Action<R>>,
    w: Seq<char>,
    rest: Seq<char>,
    added: Seq<char>,
)
    requires
        acts.len() > 0,
        wraps(w, acts[0].name@),
        added == "\t"@ + w + " -- "@ + acts[0].help@ + "\n"@ + rest,
        coloured_action_lines(acts.drop_first(), rest),
    ensures
        coloured_action_lines(acts, added),
{
}

/// A styled header and the class lines make a classes section.
proof fn lemma_classes_section_intro<R>(
    cs: Seq<SubClass<R>>,
    hdr: Seq<char>,
    rest: Seq<char>,
    part: Seq<char>,
)
    requires
        cs.len() > 0,
        wraps(hdr, "Classes:"@),
        part == hdr + "\n"@ + rest,
        coloured_class_lines(cs, rest),
    ensures
        coloured_classes_section(cs, part),
{
}

/// A styled header and the action lines make an actions section.
proof fn lemma_actions_section_intro<R>(
    acts: Seq<Action<R>>,
    hdr: Seq<char>,
    rest: Seq<char>,
    part: Seq<char>,
)
    requires
        acts.len() > 0,
        wraps(hdr, "Actions:"@),
        part == hdr + "\n"@ + rest,
        coloured_action_lines(acts, rest),
    ensures
        coloured_actions_section(acts, part),
{
}

/// Styled reserved words and the two sections make a styled help listing.
proof fn lemma_coloured_help_intro<R>(
    sc: SubClass<R>,
    wh: Seq<char>,
    wc: Seq<char>,
    wc1: Seq<char>,
    we: Seq<char>,
    cls: Seq<char>,
    acts: Seq<char>,
    added: Seq<char>,
)
    requires
        wraps(wh, "help"@),
        wraps(wc, "cancel"@),
        wraps(wc1, "c"@),
        wraps(we, "exit"@),
        coloured_classes_section(sc.classes@, cls),
        coloured_actions_section(sc.actions@, acts),
        added == wh + " -- prints the help messages\n"@ + wc + " | "@ + wc1
            + " -- returns to the root class\n"@ + we
            + " -- sends the exit signal to end the interactive loop\n"@ + cls + acts,
    ensures
        coloured_help(sc, added),
{
}

/// Write the help listing of `class` to `writer`, the reserved words,
/// names and headers styled through the colored crate.  The writer only
/// ever grows; when the printed names hold no escape character, what was
/// appended has exactly the styled help shape.
#[verifier::rlimit(100)]
#[verifier::loop_isolation(false)]
pub fn write_help_coloured<R>(class: &SubClass<R>, writer: &mut String)
    ensures
        exists|added: Seq<char>| final(writer)@ == old(writer)@ + added,
        help_esc_free(*class) ==> exists|added: Seq<char>|
            final(writer)@ == old(writer)@ + added && coloured_help(*class, added),
{
    proof {
        reveal_strlit("help");
        reveal_strlit("cancel");
        reveal_strlit("c");
        reveal_strlit("exit");
        reveal_strlit("Classes:");
        reveal_strlit("Actions:");
        assert(esc_free("help"@));
        assert(esc_free("cancel"@));
        assert(esc_free("c"@));
        assert(esc_free("exit"@));
        assert(esc_free("Classes:"@));
        assert(esc_free("Actions:"@));
    }
    let wh = styled_bright_yellow("help");
    writer.append(wh.as_str());
    writer.append(" -- prints the help messages\n");
    let wc = styled_bright_yellow("cancel");
    writer.append(wc.as_str());
    writer.append(" | ");
    let wc1 = styled_bright_yellow("c");
    writer.append(wc1.as_str());
    writer.append(" -- returns to the root class\n");
    let we = styled_bright_yellow("exit");
    writer.append(we.as_str());
    writer.append(" -- sends the exit signal to end the interactive loop\n");
    let ghost head = wh@ + " -- prints the help messages\n"@ + wc@ + " | "@ + wc1@
        + " -- returns to the root class\n"@ + we@
        + " -- sends the exit signal to end the interactive loop\n"@;
    proof {
        assert(writer@ =~= old(writer)@ + head);
    }
    let ghost mut cls: Seq<char> = Seq::empty();
    if class.classes.len() > 0 {
        let hdr = styled_bright_purple("Classes:");
        writer.append(hdr.as_str());
        writer.append("\n");
        let ghost sect_base = writer@;
        let ghost mut lines_added: Seq<char> = Seq::empty();
        let nc = class.classes.len();
        let mut i: usize = 0;
        proof {
            assert(writer@ =~= sect_base + lines_added);
            assert forall|tail: Seq<char>|
                coloured_class_lines(class.classes@.skip(0), tail) implies coloured_class_lines(
                class.classes@,
                #[trigger] (lines_added + tail),
            ) by {
                assert(class.classes@.skip(0) =~= class.classes@);
                assert(lines_added + tail =~= tail);
            }
        }
        while i < nc
            invariant
                i <= nc,
                writer@ == sect_base + lines_added,
                help_esc_free(*class) ==> (forall|tail: Seq<char>|
                    coloured_class_lines(class.classes@.skip(i as int), tail)
                        ==> coloured_class_lines(class.classes@, #[trigger] (lines_added + tail))),
            decreases nc - i,
        {
            let w = styled_bright_yellow(class.classes[i].name.as_str());
            writer.append("\t");
            writer.append(w.as_str());
            writer.append(" -- ");
            writer.append(class.classes[i].help.as_str());
            writer.append("\n");
            proof {
                let line = "\t"@ + w@ + " -- "@ + class.classes@[i as int].help@ + "\n"@;
                let old_lines = lines_added;
                lines_added = lines_added + line;
                assert(writer@ =~= sect_base + lines_added);
                if help_esc_free(*class) {
                    assert(esc_free(class.classes@[i as int].name@));
                    let s = class.classes@.skip(i as int);
                    assert(s[0] == class.classes@[i as int]);
                    assert(s.drop_first() =~= class.classes@.skip(i + 1));
                    assert forall|tail: Seq<char>|
                        coloured_class_lines(class.classes@.skip(i + 1), tail) implies
                        coloured_class_lines(
                            class.classes@,
                            #[trigger] (lines_added + tail),
                        ) by {
                        assert(line + tail =~= "\t"@ + w@ + " -- "@ + s[0].help@ + "\n"@
                            + tail);
                        lemma_class_lines_cons(s, w@, tail, line + tail);
                        assert(old_lines + (line + tail) =~= lines_added + tail);
                    }
                }
            }
            i = i + 1;
        }
        proof {
            assert(class.classes@.skip(nc as int).len() == 0);
            cls = hdr@ + "\n"@ + lines_added;
            assert(writer@ =~= old(writer)@ + head + cls);
            if help_esc_free(*class) {
                assert(coloured_class_lines(
                    class.classes@.skip(nc as int),
                    Seq::<char>::empty(),
                ));
                assert(lines_added + Seq::<char>::empty() =~= lines_added);
                assert(coloured_class_lines(class.classes@, lines_added));
                lemma_classes_section_intro(class.classes@, hdr@, lines_added, cls);
            }
        }
    }
    proof {
        assert(writer@ =~= old(writer)@ + head + cls);
    }
    let ghost mut acts: Seq<char> = Seq::empty();
    if class.actions.len() > 0 {
        let hdr = styled_bright_purple("Actions:");
        writer.append(hdr.as_str());
        writer.append("\n");
        let ghost sect_base = writer@;
        let ghost mut lines_added: Seq<char> = Seq::empty();
        let na = class.actions.len();
        let mut i: usize = 0;
        proof {
            assert(writer@ =~= sect_base + lines_added);
            assert forall|tail: Seq<char>|
                coloured_action_lines(class.actions@.skip(0), tail) implies coloured_action_lines(
                class.actions@,
                #[trigger] (lines_added + tail),
            ) by {
                assert(class.actions@.skip(0) =~= class.actions@);
                assert(lines_added + tail =~= tail);
            }
        }
        while i < na
            invariant
                i <= na,
                writer@ == sect_base + lines_added,
                help_esc_free(*class) ==> (forall|tail: Seq<char>|
                    coloured_action_lines(class.actions@.skip(i as int), tail)
                        ==> coloured_action_lines(
                        class.actions@,
                        #[trigger] (lines_added + tail),
                    )),
            decreases na - i,
        {
            let w = styled_bright_yellow(class.actions[i].name.as_str());
            writer.append("\t");
            writer.append(w.as_str());
            writer.append(" -- ");
            writer.append(class.actions[i].help.as_str());
            writer.append("\n");
            proof {
                let line = "\t"@ + w@ + " -- "@ + class.actions@[i as int].help@ + "\n"@;
                let old_lines = lines_added;
                lines_added = lines_added + line;
                assert(writer@ =~= sect_base + lines_added);
                if help_esc_free(*class) {
                    assert(esc_free(class.actions@[i as int].name@));
                    let s = class.actions@.skip(i as int);
                    assert(s[0] == class.actions@[i as int]);
                    assert(s.drop_first() =~= class.actions@.skip(i + 1));
                    assert forall|tail: Seq<char>|
                        coloured_action_lines(class.actions@.skip(i + 1), tail) implies
                        coloured_action_lines(
                            class.actions@,
                            #[trigger] (lines_added + tail),
                        ) by {
                        assert(line + tail =~= "\t"@ + w@ + " -- "@ + s[0].help@ + "\n"@
                            + tail);
                        lemma_action_lines_cons(s, w@, tail, line + tail);
                        assert(old_lines + (line + tail) =~= lines_added + tail);
                    }
                }
            }
            i = i + 1;
        }
        proof {
            assert(class.actions@.skip(na as int).len() == 0);
            acts = hdr@ + "\n"@ + lines_added;
            assert(writer@ =~= old(writer)@ + head + cls + acts);
            if help_esc_free(*class) {
                assert(coloured_action_lines(
                    class.actions@.skip(na as int),
                    Seq::<char>::empty(),
                ));
                assert(lines_added + Seq::<char>::empty() =~= lines_added);
                assert(coloured_action_lines(class.actions@, lines_added));
                lemma_actions_section_intro(class.actions@, hdr@, lines_added, acts);
            }
        }
    }
    proof {
        let added = head + cls + acts;
        assert(writer@ =~= old(writer)@ + added);
        if help_esc_free(*class) {
            lemma_coloured_help_intro(*class, wh@, wc@, wc1@, we@, cls, acts, added);
        }
    }
}

/// The diagnostic for a word that matched nothing.
pub open spec fn unrec_msg(w: Seq<char>) -> Seq<char> {
    "'"@ + w + "' does not match any keywords, classes, or actions"@
}

/// Build the diagnostic for an unrecognized word.
fn build_unrec_msg(word: &str) -> (r: String)
    ensures
        r@ == unrec_msg(word@),
{
    let mut s = String::from_str("'");
    s.append(word);
    s.append("' does not match any keywords, classes, or actions");
    s
}

/// A copy of a cursor.
fn clone_cursor(v: &Vec<usize>) -> (r: Vec<usize>)
    ensures
        r@ == v@,
{
    let mut r: Vec<usize> = Vec::new();
    let n = v.len();
    let mut i: usize = 0;
    while i < n
        invariant
            i <= n,
            n == v@.len(),
            r@ == v@.take(i as int),
        decreases n - i,
    {
        r.push(v[i]);
        assert(r@ =~= v@.take(i + 1));
        i = i + 1;
    }
    assert(r@ =~= v@);
    r
}

/// How a whole line resolves: the terminal outcome of walking its words
/// from a starting cursor.
pub enum Resolution {
    /// Help was requested while the walk stood at this cursor.
    Help(Seq<usize>),
    /// The cursor is reset to the root.
    Cancel,
    /// The session is asked to end.
    Exit,
    /// Pure navigation ended at this cursor, which is committed.
    Class(Seq<usize>),
    /// The action at this index of the class at this cursor runs, with
    /// the remaining words as its arguments.
    Action(Seq<usize>, int, Seq<Seq<char>>),
    /// This word matched nothing.
    Unrecognized(Seq<char>),
}

/// Resolve the words left to right from `cur`: the first reserved word,
/// action or unmatched word ends the walk, and an exhausted word list
/// commits the navigation.
pub open spec fn resolve_words<R>(
    root: SubClass<R>,
    cur: Seq<usize>,
    words: Seq<Seq<char>>,
) -> Resolution
    decreases words.len(),
{
    if words.len() == 0 {
        Resolution::Class(cur)
    } else {
        match spec_parse_word(class_at(root, cur), lower_of(words[0])) {
            WordResult::Help => Resolution::Help(cur),
            WordResult::Cancel => Resolution::Cancel,
            WordResult::Exit => Resolution::Exit,
            WordResult::Class(k) => resolve_words(root, cur.push(k), words.drop_first()),
            WordResult::Action(k) => Resolution::Action(cur, k as int, words.drop_first()),
            WordResult::Unrecognized => Resolution::Unrecognized(words[0]),
        }
    }
}

/// Everything `parse_line` promises, over the commander before (`pre`)
/// and after (`post`), the writer contents before (`w0`) and after
/// (`w1`), and the returned result: the outcome follows the resolution
/// of the line's words, only a `Class` outcome moves the cursor, only
/// `Cancel` resets it, and the diagnostics written are pinned down as far
/// as the styling crate allows.
pub open spec fn parse_line_post<R>(
    pre: Commander<R>,
    post: Commander<R>,
    line: Seq<char>,
    colourise: bool,
    w0: Seq<char>,
    w1: Seq<char>,
    r: LineResult<R>,
) -> bool {
    let words = crate::strings::words_of(line);
    &&& post.root == pre.root
    &&& match resolve_words(pre.root, pre.cursor@, words) {
        Resolution::Class(cur) => {
            &&& r is Class
            &&& post.cursor@ == cur
            &&& post.path@ == path_of(pre.root, cur)
            &&& w1 == w0
        },
        Resolution::Help(cur) => {
            let sc = class_at(pre.root, cur);
            &&& r is Help
            &&& post.cursor@ == pre.cursor@
            &&& post.path@ == pre.path@
            &&& (!colourise ==> w1 == w0 + plain_help_of(sc))
            &&& (colourise ==> exists|added: Seq<char>| w1 == w0 + added)
            &&& (colourise && help_esc_free(sc) ==> exists|added: Seq<char>|
                w1 == w0 + added && coloured_help(sc, added))
        },
        Resolution::Cancel => {
            &&& r is Cancel
            &&& post.cursor@.len() == 0
            &&& post.path@ == pre.root.name@
            &&& w1 == w0
        },
        Resolution::Exit => {
            &&& r is Exit
            &&& post.cursor@ == pre.cursor@
            &&& post.path@ == pre.path@
            &&& w1 == w0
        },
        Resolution::Action(cur, k, args) => {
            &&& r is Action
            &&& post.cursor@ == pre.cursor@
            &&& post.path@ == pre.path@
        },
        Resolution::Unrecognized(w) => {
            &&& r is Unrecognized
            &&& post.cursor@ == pre.cursor@
            &&& post.path@ == pre.path@
            &&& (exists|added: Seq<char>| w1 == w0 + added)
            &&& (esc_free(w) ==> exists|sw: Seq<char>|
                wraps(sw, unrec_msg(w)) && w1 == w0 + sw + "\n"@)
        },
    }
}

impl<R> crate::Commander<R> {
    /// Parse a line of commands and update the commander state.
    ///
    /// The line's words are resolved left to right against the current
    /// position; reserved words, a matched action or an unmatched word
    /// end the resolution, and a line of pure class navigation commits
    /// the new cursor and path.
    #[verifier::rlimit(100)]
    #[verifier::loop_isolation(false)]
    pub fn parse_line(&mut self, line: &str, colourise: bool, writer: &mut String) -> (r:
        LineResult<R>)
        requires
            old(self).wf(),
        ensures
            final(self).wf(),
            parse_line_post(
                *old(self),
                *final(self),
                line@,
                colourise,
                old(writer)@,
                final(writer)@,
                r,
            ),
    {
        let words = crate::strings::tokenize(line);
        let ghost ws = words@.map_values(|w: String| w@);
        let n = words.len();
        let mut wcur = clone_cursor(&self.cursor);
        let mut wpath = self.path.clone();
        let mut i: usize = 0;
        proof {
            assert(ws.skip(0) =~= ws);
        }
        while i < n
            invariant
                i <= n,
                n == words@.len(),
                self.root == old(self).root,
                self.cursor@ == old(self).cursor@,
                self.path@ == old(self).path@,
                writer@ == old(writer)@,
                valid_cursor(self.root, wcur@),
                wpath@ == path_of(self.root, wcur@),
                resolve_words(old(self).root, old(self).cursor@, ws) == resolve_words(
                    self.root,
                    wcur@,
                    ws.skip(i as int),
                ),
            decreases n - i,
        {
            let cls = crate::class_at_cursor(&self.root, &wcur);
            let w = parse_word(cls, words[i].as_str());
            proof {
                assert(ws.skip(i as int)[0] == ws[i as int]);
                assert(ws[i as int] == words@[i as int]@);
                assert(ws.skip(i as int).drop_first() =~= ws.skip(i + 1));
            }
            match w {
                WordResult::Help => {
                    if colourise {
                        write_help_coloured(cls, writer);
                    } else {
                        write_help(cls, writer);
                    }
                    return LineResult::Help;
                },
                WordResult::Cancel => {
                    self.cursor = Vec::new();
                    let rn = String::from_str(self.root.name.as_str());
                    self.path = rn;
                    proof {
                        assert(self.cursor@ =~= Seq::<usize>::empty());
                    }
                    return LineResult::Cancel;
                },
                WordResult::Exit => {
                    return LineResult::Exit;
                },
                WordResult::Class(k) => {
                    proof {
                        lemma_first_name_match(class_names(*cls), lower_of(ws[i as int]));
                        assert((k as int) < cls.classes@.len());
                        lemma_cursor_push(self.root, wcur@, k);
                    }
                    wcur.push(k);
                    wpath.append(".");
                    wpath.append(cls.classes[k].name.as_str());
                    proof {
                        reveal_strlit(".");
                        assert("."@ =~= seq!['.']);
                        assert(wpath@ =~= path_of(self.root, wcur@));
                    }
                },
                WordResult::Action(k) => {
                    proof {
                        lemma_first_name_match(action_names(*cls), lower_of(ws[i as int]));
                        assert((k as int) < cls.actions@.len());
                    }
                    let mut args: Vec<String> = Vec::new();
                    let mut j: usize = i + 1;
                    while j < n
                        invariant
                            i + 1 <= j <= n,
                        decreases n - j,
                    {
                        args.push(words[j].clone());
                        j = j + 1;
                    }
                    let val = cls.actions[k].call(writer, &args);
                    return LineResult::Action(val);
                },
                WordResult::Unrecognized => {
                    let msg = build_unrec_msg(words[i].as_str());
                    let styled = if colourise {
                        styled_bright_red(msg.as_str())
                    } else {
                        styled_white(msg.as_str())
                    };
                    writer.append(styled.as_str());
                    writer.append("\n");
                    proof {
                        let w0 = old(writer)@;
                        assert(writer@ =~= w0 + (styled@ + "\n"@));
                        if esc_free(ws[i as int]) {
                            reveal_strlit("'");
                            reveal_strlit("' does not match any keywords, classes, or actions");
                            assert(esc_free("'"@));
                            assert(esc_free(
                                "' does not match any keywords, classes, or actions"@,
                            ));
                            lemma_esc_free_concat("'"@, ws[i as int]);
                            lemma_esc_free_concat(
                                "'"@ + ws[i as int],
                                "' does not match any keywords, classes, or actions"@,
                            );
                            assert(esc_free(msg@));
                            assert(wraps(styled@, unrec_msg(ws[i as int])));
                            assert(writer@ == w0 + styled@ + "\n"@) by {
                                assert(w0 + (styled@ + "\n"@) =~= w0 + styled@ + "\n"@);
                            }
                        }
                    }
                    return LineResult::Unrecognized;
                },
            }
            i = i + 1;
        }
        proof {
            assert(ws.skip(n as int).len() == 0);
            assert(resolve_words(old(self).root, old(self).cursor@, ws) == Resolution::Class(
                wcur@,
            ));
        }
        self.cursor = wcur;
        self.path = wpath;
        LineResult::Class
    }
}

} // verus!
