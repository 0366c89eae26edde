//! Completion of tree paths and action arguments: the tree is flattened
//! into space-delimited candidate strings, and candidates are matched
//! against the line being typed.
use vstd::prelude::*;

use crate::strings::{
    chars_to_string, is_prefix, push_chars, split_at_char, split_chars, str_chars, str_eq,
    str_starts_with,
};
use crate::{class_at, info_view, path_of, sort_entries, structure_entries, valid_cursor};
use crate::{Commander, Entry, ItemType, StructureInfo};

verus! {

use vstd::string::StrSliceExecFns;
use vstd::string::StringExecFns;

/// Completion item.
#[derive(Debug, PartialEq)]
pub struct CompletionInfo {
    /// The string to match. Similar to path but space delimited.
    pub completestr: String,
    /// Class or action.
    pub itemtype: ItemType,
    /// The help message.
    pub help_msg: String,
}

impl Clone for CompletionInfo {
    fn clone(&self) -> (r: Self)
        ensures
            cview(r) == cview(*self),
    {
        CompletionInfo {
            completestr: self.completestr.clone(),
            itemtype: self.itemtype,
            help_msg: self.help_msg.clone(),
        }
    }
}

/// A completion item as the contracts see it.
pub open spec fn cview(ci: CompletionInfo) -> Entry {
    (ci.completestr@, ci.itemtype, ci.help_msg@)
}

/// Match string and qualified name of action.
#[derive(Debug, PartialEq)]
pub struct ActionMatch {
    /// The match str, space delimited from current path.
    ///
    /// Carries a trailing space, marking the candidate as immediately
    /// invocable, eg `"a nested action "`.
    pub info: CompletionInfo,
    /// Qualified action name from root, as produced from `structure`,
    /// eg `a.nested..action`.
    pub qualified_path: String,
}

/// An action match as the contracts see it.
pub open spec fn amview(am: ActionMatch) -> (Entry, Seq<char>) {
    (cview(am.info), am.qualified_path@)
}

/// The fields of `ss` that are not empty, in order.
pub open spec fn nonempty_fields(ss: Seq<Seq<char>>) -> Seq<Seq<char>>
    decreases ss.len(),
{
    if ss.len() == 0 {
        Seq::empty()
    } else if ss[0].len() == 0 {
        nonempty_fields(ss.drop_first())
    } else {
        seq![ss[0]] + nonempty_fields(ss.drop_first())
    }
}

/// The words joined by single spaces after the first word.
pub open spec fn join_rest(ws: Seq<Seq<char>>) -> Seq<char>
    decreases ws.len(),
{
    if ws.len() == 0 {
        Seq::empty()
    } else {
        seq![' '] + ws[0] + join_rest(ws.drop_first())
    }
}

/// The words joined by single spaces.
pub open spec fn join_spaced(ws: Seq<Seq<char>>) -> Seq<char> {
    if ws.len() == 0 {
        Seq::empty()
    } else {
        ws[0] + join_rest(ws.drop_first())
    }
}

/// Each word followed by one space.
pub open spec fn join_trailing(ws: Seq<Seq<char>>) -> Seq<char>
    decreases ws.len(),
{
    if ws.len() == 0 {
        Seq::empty()
    } else {
        ws[0] + seq![' '] + join_trailing(ws.drop_first())
    }
}

/// The space-delimited completion string of a dot-delimited path: its
/// nonempty dot-fields joined by spaces.
pub open spec fn completestr_of(path: Seq<char>) -> Seq<char> {
    join_spaced(nonempty_fields(split_at_char(path, '.')))
}

/// The completion string of an action path relative to the current
/// position: its nonempty dot-fields, each followed by one space.
pub open spec fn action_completestr_of(rel: Seq<char>) -> Seq<char> {
    join_trailing(nonempty_fields(split_at_char(rel, '.')))
}

/// The nonempty dot-fields of `path`, computed on characters.
fn nonempty_dot_fields(path: &str) -> (r: Vec<Vec<char>>)
    ensures
        r@.map_values(|w: Vec<char>| w@) == nonempty_fields(split_at_char(path@, '.')),
{
    let cs = str_chars(path);
    let parts = split_chars(&cs, '.');
    let ghost all = parts@.map_values(|w: Vec<char>| w@);
    let mut keep: Vec<Vec<char>> = Vec::new();
    let n = parts.len();
    let mut i: usize = 0;
    proof {
        assert(all.skip(0) =~= all);
        assert(keep@.map_values(|w: Vec<char>| w@) =~= Seq::<Seq<char>>::empty());
    }
    while i < n
        invariant
            i <= n,
            n == parts@.len(),
            all == parts@.map_values(|w: Vec<char>| w@),
            nonempty_fields(all) == keep@.map_values(|w: Vec<char>| w@) + nonempty_fields(
                all.skip(i as int),
            ),
        decreases n - i,
    {
        proof {
            let s = all.skip(i as int);
            assert(s[0] == all[i as int]);
            assert(s.drop_first() =~= all.skip(i + 1));
        }
        if parts[i].len() > 0 {
            let ghost old_keep = keep@;
            keep.push(parts[i].clone());
            proof {
                assert(parts@[i as int]@.len() > 0);
                assert(keep@.map_values(|w: Vec<char>| w@) =~= old_keep.map_values(
                    |w: Vec<char>| w@,
                ) + seq![all[i as int]]);
                assert(old_keep.map_values(|w: Vec<char>| w@) + (seq![all[i as int]]
                    + nonempty_fields(all.skip(i + 1))) =~= keep@.map_values(|w: Vec<char>| w@)
                    + nonempty_fields(all.skip(i + 1)));
            }
        } else {
            proof {
                assert(all[i as int].len() == 0);
            }
        }
        i = i + 1;
    }
    proof {
        assert(nonempty_fields(all.skip(n as int)) =~= Seq::<Seq<char>>::empty());
        assert(keep@.map_values(|w: Vec<char>| w@) + nonempty_fields(all.skip(n as int))
            =~= keep@.map_values(|w: Vec<char>| w@));
    }
    keep
}

/// The completion string of a dot-delimited path.
fn completestr_exec(path: &str) -> (r: String)
    ensures
        r@ == completestr_of(path@),
{
    let keep = nonempty_dot_fields(path);
    let ghost ws = keep@.map_values(|w: Vec<char>| w@);
    if keep.len() == 0 {
        let r = String::new();
        proof {
            assert(r@ =~= completestr_of(path@));
        }
        return r;
    }
    let mut acc: Vec<char> = Vec::new();
    push_chars(&mut acc, &keep[0]);
    proof {
        assert(acc@ =~= ws[0]);
        assert(ws.skip(1) =~= ws.drop_first());
    }
    let n = keep.len();
    let mut i: usize = 1;
    while i < n
        invariant
            1 <= i <= n,
            n == keep@.len(),
            ws == keep@.map_values(|w: Vec<char>| w@),
            ws.len() > 0,
            acc@ + join_rest(ws.skip(i as int)) == ws[0] + join_rest(ws.drop_first()),
        decreases n - i,
    {
        proof {
            let s = ws.skip(i as int);
            assert(s[0] == ws[i as int]);
            assert(s.drop_first() =~= ws.skip(i + 1));
        }
        let ghost old_acc = acc@;
        acc.push(' ');
        push_chars(&mut acc, &keep[i]);
        proof {
            assert(acc@ =~= old_acc + (seq![' '] + ws[i as int]));
            assert(acc@ + join_rest(ws.skip(i + 1)) =~= old_acc + (seq![' '] + ws[i as int]
                + join_rest(ws.skip(i + 1))));
            assert(seq![' '] + ws[i as int] + join_rest(ws.skip(i + 1)) =~= join_rest(
                ws.skip(i as int),
            ));
            assert(old_acc + join_rest(ws.skip(i as int)) =~= acc@ + join_rest(ws.skip(i + 1)));
        }
        i = i + 1;
    }
    proof {
        assert(join_rest(ws.skip(n as int)) =~= Seq::<char>::empty());
        assert(acc@ =~= ws[0] + join_rest(ws.drop_first()));
    }
    chars_to_string(&acc)
}

/// The trailing-space completion string of a relative action path.
fn action_completestr_exec(rel: &str) -> (r: String)
    ensures
        r@ == action_completestr_of(rel@),
{
    let keep = nonempty_dot_fields(rel);
    let ghost ws = keep@.map_values(|w: Vec<char>| w@);
    let mut acc: Vec<char> = Vec::new();
    let n = keep.len();
    let mut i: usize = 0;
    proof {
        assert(ws.skip(0) =~= ws);
        assert(acc@ + join_trailing(ws) =~= join_trailing(ws));
    }
    while i < n
        invariant
            i <= n,
            n == keep@.len(),
            ws == keep@.map_values(|w: Vec<char>| w@),
            acc@ + join_trailing(ws.skip(i as int)) == join_trailing(ws),
        decreases n - i,
    {
        proof {
            let s = ws.skip(i as int);
            assert(s[0] == ws[i as int]);
            assert(s.drop_first() =~= ws.skip(i + 1));
        }
        let ghost old_acc = acc@;
        push_chars(&mut acc, &keep[i]);
        acc.push(' ');
        proof {
            assert(acc@ =~= old_acc + (ws[i as int] + seq![' ']));
            assert(old_acc + join_trailing(ws.skip(i as int)) =~= acc@ + join_trailing(
                ws.skip(i + 1),
            ));
        }
        i = i + 1;
    }
    proof {
        assert(join_trailing(ws.skip(n as int)) =~= Seq::<char>::empty());
        assert(acc@ =~= join_trailing(ws));
    }
    chars_to_string(&acc)
}

/// The index just after the last break character of `s`, or zero when
/// none occurs.
pub open spec fn word_break_spec(s: Seq<char>, bs: Seq<char>) -> int
    decreases s.len(),
{
    if s.len() == 0 {
        0
    } else if bs.contains(s.last()) {
        s.len() as int
    } else {
        word_break_spec(s.drop_last(), bs)
    }
}

/// The break index lies within the string.
pub proof fn lemma_word_break_bounds(s: Seq<char>, bs: Seq<char>)
    ensures
        0 <= word_break_spec(s, bs) <= s.len(),
    decreases s.len(),
{
    if s.len() != 0 && !bs.contains(s.last()) {
        lemma_word_break_bounds(s.drop_last(), bs);
    }
}

/// Whether the slice holds the character.
fn slice_contains_char(cs: &[char], c: char) -> (r: bool)
    ensures
        r == cs@.contains(c),
{
    let n = cs.len();
    let mut j: usize = 0;
    while j < n
        invariant
            j <= n,
            n == cs@.len(),
            forall|m: int| 0 <= m < j ==> cs@[m] != c,
        decreases n - j,
    {
        if cs[j] == c {
            assert(cs@[j as int] == c);
            return true;
        }
        j = j + 1;
    }
    assert(!cs@.contains(c));
    false
}

/// Returns the start position of the _last_ word, delimited by any of the
/// given characters: the index just after the last break character, in
/// characters, or zero when none occurs.
#[verifier::loop_isolation(false)]
pub fn word_break_start(s: &str, word_break_ch: &[char]) -> (r: usize)
    ensures
        r as int == word_break_spec(s@, word_break_ch@),
{
    let n = s.unicode_len();
    let mut i: usize = n;
    proof {
        assert(s@.take(n as int) =~= s@);
    }
    while i > 0
        invariant
            i <= n,
            word_break_spec(s@, word_break_ch@) == word_break_spec(
                s@.take(i as int),
                word_break_ch@,
            ),
        decreases i,
    {
        let c = s.get_char(i - 1);
        proof {
            let t = s@.take(i as int);
            assert(t.last() == s@[i - 1]);
            assert(t.drop_last() =~= s@.take(i - 1));
        }
        if slice_contains_char(word_break_ch, c) {
            return i;
        }
        i = i - 1;
    }
    proof {
        assert(s@.take(0).len() == 0);
    }
    0
}

/// The completion candidates among `items` for the typed `line`: the
/// items whose string begins with the line, each paired with its suffix
/// from the last word break of the line onward.
pub open spec fn spec_tree_completions(line: Seq<char>, items: Seq<Entry>) -> Seq<
    (Seq<char>, Entry),
>
    decreases items.len(),
{
    if items.len() == 0 {
        Seq::empty()
    } else {
        let rest = spec_tree_completions(line, items.drop_first());
        if is_prefix(line, items[0].0) {
            seq![(items[0].0.skip(word_break_spec(line, seq![' '])), items[0])] + rest
        } else {
            rest
        }
    }
}

/// Determines from a set of items the ones that could be completed from
/// the given line: each item whose string starts with `line`, paired with
/// only the slice from the final word of `line`, so a completion UI can
/// splice the suffix onto the line being edited.
#[verifier::loop_isolation(false)]
pub fn tree_completions(line: &str, items: &Vec<CompletionInfo>) -> (r: Vec<
    (String, CompletionInfo),
>)
    ensures
        r@.map_values(|p: (String, CompletionInfo)| (p.0@, cview(p.1)))
            == spec_tree_completions(
            line@,
            items@.map_values(|ci: CompletionInfo| cview(ci)),
        ),
{
    let mut breaks: Vec<char> = Vec::new();
    breaks.push(' ');
    proof {
        assert(breaks@ =~= seq![' ']);
    }
    let wb = word_break_start(line, breaks.as_slice());
    proof {
        lemma_word_break_bounds(line@, breaks@);
    }
    let ghost ivs = items@.map_values(|ci: CompletionInfo| cview(ci));
    let mut out: Vec<(String, CompletionInfo)> = Vec::new();
    let n = items.len();
    let mut i: usize = 0;
    proof {
        assert(ivs.skip(0) =~= ivs);
        assert(out@.map_values(|p: (String, CompletionInfo)| (p.0@, cview(p.1))) =~= Seq::<
            (Seq<char>, Entry),
        >::empty());
    }
    while i < n
        invariant
            i <= n,
            n == items@.len(),
            spec_tree_completions(line@, ivs) == out@.map_values(
                |p: (String, CompletionInfo)| (p.0@, cview(p.1)),
            ) + spec_tree_completions(line@, ivs.skip(i as int)),
        decreases n - i,
    {
        proof {
            let s = ivs.skip(i as int);
            assert(s[0] == ivs[i as int]);
            assert(s.drop_first() =~= ivs.skip(i + 1));
        }
        if str_starts_with(items[i].completestr.as_str(), line) {
            let cl = items[i].completestr.as_str().unicode_len();
            let suffix = items[i].completestr.as_str().substring_char(wb, cl);
            let ghost old_out = out@;
            out.push((String::from_str(suffix), items[i].clone()));
            proof {
                assert(suffix@ =~= ivs[i as int].0.skip(word_break_spec(line@, seq![' '])));
                assert(out@.map_values(|p: (String, CompletionInfo)| (p.0@, cview(p.1)))
                    =~~= old_out.map_values(|p: (String, CompletionInfo)| (p.0@, cview(p.1)))
                    + seq![
                    (ivs[i as int].0.skip(word_break_spec(line@, seq![' '])), ivs[i as int]),
                ]);
                assert(old_out.map_values(|p: (String, CompletionInfo)| (p.0@, cview(p.1)))
                    + (seq![
                    (ivs[i as int].0.skip(word_break_spec(line@, seq![' '])), ivs[i as int]),
                ] + spec_tree_completions(line@, ivs.skip(i + 1))) =~~= out@.map_values(
                    |p: (String, CompletionInfo)| (p.0@, cview(p.1)),
                ) + spec_tree_completions(line@, ivs.skip(i + 1)));
            }
        }
        i = i + 1;
    }
    proof {
        assert(spec_tree_completions(line@, ivs.skip(n as int)) =~~= Seq::<
            (Seq<char>, Entry),
        >::empty());
        assert(out@.map_values(|p: (String, CompletionInfo)| (p.0@, cview(p.1)))
            + spec_tree_completions(line@, ivs.skip(n as int)) =~~= out@.map_values(
            |p: (String, CompletionInfo)| (p.0@, cview(p.1)),
        ));
    }
    out
}

/// The completion items of a list of structure entries: each entry's
/// path as a space-delimited string, the root entry (whose string is
/// empty) left out.
pub open spec fn spec_tree_items(entries: Seq<Entry>) -> Seq<Entry>
    decreases entries.len(),
{
    if entries.len() == 0 {
        Seq::empty()
    } else {
        let rest = spec_tree_items(entries.drop_first());
        let cs = completestr_of(entries[0].0);
        if cs.len() == 0 {
            rest
        } else {
            seq![(cs, entries[0].1, entries[0].2)] + rest
        }
    }
}

/// Constructs a set of space delimited items that could be completed at
/// the current path.
#[verifier::loop_isolation(false)]
pub fn create_tree_completion_items<R>(cmdr: &Commander<R>) -> (r: Vec<CompletionInfo>)
    requires
        cmdr.wf(),
    ensures
        r@.map_values(|ci: CompletionInfo| cview(ci)) == spec_tree_items(
            sort_entries(structure_entries(cmdr.current())),
        ),
{
    let infos = cmdr.structure(false);
    let ghost es = infos@.map_values(|si: StructureInfo| info_view(si));
    let mut out: Vec<CompletionInfo> = Vec::new();
    let n = infos.len();
    let mut i: usize = 0;
    proof {
        assert(es.skip(0) =~= es);
        assert(out@.map_values(|ci: CompletionInfo| cview(ci)) =~= Seq::<Entry>::empty());
    }
    while i < n
        invariant
            i <= n,
            n == infos@.len(),
            spec_tree_items(es) == out@.map_values(|ci: CompletionInfo| cview(ci))
                + spec_tree_items(es.skip(i as int)),
        decreases n - i,
    {
        proof {
            let s = es.skip(i as int);
            assert(s[0] == es[i as int]);
            assert(s.drop_first() =~= es.skip(i + 1));
        }
        let cs = completestr_exec(infos[i].path.as_str());
        if !cs.as_str().is_empty() {
            let ghost old_out = out@;
            out.push(
                CompletionInfo {
                    completestr: cs,
                    itemtype: infos[i].itemtype,
                    help_msg: String::from_str(infos[i].help_msg.as_str()),
                },
            );
            proof {
                assert(out@.map_values(|ci: CompletionInfo| cview(ci)) =~~= old_out.map_values(
                    |ci: CompletionInfo| cview(ci),
                ) + seq![
                    (
                        completestr_of(es[i as int].0),
                        es[i as int].1,
                        es[i as int].2,
                    ),
                ]);
                assert(old_out.map_values(|ci: CompletionInfo| cview(ci)) + (seq![
                    (
                        completestr_of(es[i as int].0),
                        es[i as int].1,
                        es[i as int].2,
                    ),
                ] + spec_tree_items(es.skip(i + 1))) =~~= out@.map_values(
                    |ci: CompletionInfo| cview(ci),
                ) + spec_tree_items(es.skip(i + 1)));
            }
        }
        i = i + 1;
    }
    proof {
        assert(spec_tree_items(es.skip(n as int)) =~~= Seq::<Entry>::empty());
        assert(out@.map_values(|ci: CompletionInfo| cview(ci)) + spec_tree_items(
            es.skip(n as int),
        ) =~~= out@.map_values(|ci: CompletionInfo| cview(ci)));
    }
    out
}

/// Two consecutive dots occur in `p`: the mark of an action path.
pub open spec fn has_double_dot(p: Seq<char>) -> bool {
    exists|i: int| 0 <= i && i + 1 < p.len() && #[trigger] p[i] == '.' && p[i + 1] == '.'
}

/// Whether two consecutive dots occur in the string.
#[verifier::loop_isolation(false)]
fn contains_double_dot(s: &str) -> (r: bool)
    ensures
        r == has_double_dot(s@),
{
    let n = s.unicode_len();
    if n < 2 {
        return false;
    }
    let mut i: usize = 0;
    while i + 1 < n
        invariant
            i + 1 <= n,
            forall|j: int| 0 <= j < i ==> !(#[trigger] s@[j] == '.' && s@[j + 1] == '.'),
        decreases n - i,
    {
        if s.get_char(i) == '.' && s.get_char(i + 1) == '.' {
            assert(s@[i as int] == '.' && s@[i + 1] == '.');
            return true;
        }
        i = i + 1;
    }
    assert(!has_double_dot(s@));
    false
}

/// The path of the current position relative to the root: empty at the
/// root, otherwise the current path without the root name and the dot
/// after it.
pub open spec fn starter_of<R>(c: Commander<R>) -> Seq<char> {
    if c.path@ == c.root.name@ {
        Seq::empty()
    } else {
        c.path@.skip(c.root.name@.len() as int + 1)
    }
}

/// A path of a nonempty cursor extends the root name by at least a dot.
proof fn lemma_path_of_len<R>(sc: crate::SubClass<R>, cur: Seq<usize>)
    ensures
        cur.len() == 0 ==> path_of(sc, cur) == sc.name@,
        cur.len() > 0 ==> path_of(sc, cur).len() >= sc.name@.len() + 1,
{
    if cur.len() > 0 {
        assert(path_of(sc, cur).len() == sc.name@.len() + 1 + path_of(
            sc.classes@[cur[0] as int],
            cur.drop_first(),
        ).len());
    }
}

/// The action matches among a list of structure entries, relative to the
/// given starter path: the double-dot entries below the starter, each
/// with its trailing-space completion string and its qualified path.
pub open spec fn spec_action_items(entries: Seq<Entry>, starter: Seq<char>) -> Seq<
    (Entry, Seq<char>),
>
    decreases entries.len(),
{
    if entries.len() == 0 {
        Seq::empty()
    } else {
        let rest = spec_action_items(entries.drop_first(), starter);
        let p = entries[0].0;
        if has_double_dot(p) && is_prefix(starter, p) {
            let cs = action_completestr_of(p.skip(starter.len() as int));
            if cs.len() == 0 {
                rest
            } else {
                seq![((cs, entries[0].1, entries[0].2), p)] + rest
            }
        } else {
            rest
        }
    }
}

/// Completing against the empty line reproduces every item: each is
/// paired with its own whole completion string, since the empty line has
/// no word break.
pub proof fn lemma_tree_completions_identity(items: Seq<Entry>)
    ensures
        spec_tree_completions(Seq::empty(), items) == items.map_values(
            |e: Entry| (e.0, e),
        ),
    decreases items.len(),
{
    if items.len() == 0 {
        assert(spec_tree_completions(Seq::empty(), items) =~~= items.map_values(
            |e: Entry| (e.0, e),
        ));
    } else {
        lemma_tree_completions_identity(items.drop_first());
        assert(is_prefix(Seq::empty(), items[0].0)) by {
            assert(items[0].0.take(0) =~= Seq::<char>::empty());
        }
        assert(items[0].0.skip(word_break_spec(Seq::empty(), seq![' '])) =~= items[0].0);
        assert(seq![(items[0].0, items[0])] + items.drop_first().map_values(
            |e: Entry| (e.0, e),
        ) =~~= items.map_values(|e: Entry| (e.0, e)));
    }
}

/// Constructs a set of space delimited actions that could be completed at
/// the current path, each with the qualified action path it stands for.
#[verifier::loop_isolation(false)]
pub fn create_action_completion_items<R>(cmdr: &Commander<R>) -> (r: Vec<ActionMatch>)
    requires
        cmdr.wf(),
    ensures
        r@.map_values(|am: ActionMatch| amview(am)) == spec_action_items(
            sort_entries(structure_entries(cmdr.root)),
            starter_of(*cmdr),
        ),
{
    let cpath = cmdr.path();
    let rname = cmdr.root_name();
    let starter: String = if str_eq(cpath, rname) {
        String::new()
    } else {
        proof {
            lemma_path_of_len(cmdr.root, cmdr.cursor@);
            assert(cmdr.cursor@.len() > 0);
        }
        let nl = rname.unicode_len();
        let pl = cpath.unicode_len();
        String::from_str(cpath.substring_char(nl + 1, pl))
    };
    proof {
        assert(starter@ =~= starter_of(*cmdr));
    }
    let infos = cmdr.structure(true);
    let ghost es = infos@.map_values(|si: StructureInfo| info_view(si));
    let mut out: Vec<ActionMatch> = Vec::new();
    let n = infos.len();
    let mut i: usize = 0;
    proof {
        assert(es.skip(0) =~= es);
        assert(out@.map_values(|am: ActionMatch| amview(am)) =~= Seq::<
            (Entry, Seq<char>),
        >::empty());
    }
    while i < n
        invariant
            i <= n,
            n == infos@.len(),
            starter@ == starter_of(*cmdr),
            spec_action_items(es, starter@) == out@.map_values(|am: ActionMatch| amview(am))
                + spec_action_items(es.skip(i as int), starter@),
        decreases n - i,
    {
        proof {
            let s = es.skip(i as int);
            assert(s[0] == es[i as int]);
            assert(s.drop_first() =~= es.skip(i + 1));
        }
        let p = infos[i].path.as_str();
        if contains_double_dot(p) && str_starts_with(p, starter.as_str()) {
            let sl = starter.as_str().unicode_len();
            let pl = p.unicode_len();
            let rel = p.substring_char(sl, pl);
            proof {
                assert(rel@ =~= es[i as int].0.skip(starter@.len() as int));
            }
            let cs = action_completestr_exec(rel);
            if !cs.as_str().is_empty() {
                let ghost old_out = out@;
                out.push(
                    ActionMatch {
                        info: CompletionInfo {
                            completestr: cs,
                            itemtype: infos[i].itemtype,
                            help_msg: String::from_str(infos[i].help_msg.as_str()),
                        },
                        qualified_path: infos[i].path.clone(),
                    },
                );
                proof {
                    let entry = (
                        (
                            action_completestr_of(es[i as int].0.skip(starter@.len() as int)),
                            es[i as int].1,
                            es[i as int].2,
                        ),
                        es[i as int].0,
                    );
                    assert(out@.map_values(|am: ActionMatch| amview(am)) =~~= old_out.map_values(
                        |am: ActionMatch| amview(am),
                    ) + seq![entry]);
                    assert(old_out.map_values(|am: ActionMatch| amview(am)) + (seq![entry]
                        + spec_action_items(es.skip(i + 1), starter@)) =~~= out@.map_values(
                        |am: ActionMatch| amview(am),
                    ) + spec_action_items(es.skip(i + 1), starter@));
                }
            }
        }
        i = i + 1;
    }
    proof {
        assert(spec_action_items(es.skip(n as int), starter@) =~~= Seq::<
            (Entry, Seq<char>),
        >::empty());
        assert(out@.map_values(|am: ActionMatch| amview(am)) + spec_action_items(
            es.skip(n as int),
            starter@,
        ) =~~= out@.map_values(|am: ActionMatch| amview(am)));
    }
    out
}

} // verus!
