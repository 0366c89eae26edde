//! A tree of named command classes and leaf actions for line-driven
//! consoles, with a verified builder, a verified word-by-word line
//! resolver, and a verified completion engine.
use vstd::prelude::*;

pub mod builder;
pub mod completion;
pub mod parse;
pub mod strings;

pub use builder::{BuildError, Builder, BuilderChain};
pub use parse::LineResult;

use crate::strings::is_folded;
use crate::strings::lower_of;

verus! {

use vstd::string::StrSliceExecFns;
use vstd::string::StringExecFns;

/// An owned command string: the text of a help message.
#[derive(Debug)]
pub struct CmdStr {
    /// The text itself.
    pub text: String,
}

impl View for CmdStr {
    type V = Seq<char>;

    open spec fn view(&self) -> Seq<char> {
        self.text@
    }
}

impl Clone for CmdStr {
    fn clone(&self) -> (r: Self)
        ensures
            r@ == self@,
    {
        CmdStr { text: self.text.clone() }
    }
}

impl CmdStr {
    /// Represent a string.
    pub fn as_str(&self) -> (r: &str)
        ensures
            r@ == self@,
    {
        self.text.as_str()
    }

    /// Own the given text.
    pub fn from_text(s: &str) -> (r: Self)
        ensures
            r@ == s@,
    {
        CmdStr { text: String::from_str(s) }
    }
}

/// Holds an action's callback behind a mutual-exclusion lock, so that at
/// most one invocation of a given action proceeds at a time.  The boxed
/// `dyn` closure cannot be declared to the verifier, so the whole holder
/// is opaque to it.
#[verifier::external_body]
#[verifier::reject_recursive_types(R)]
pub struct ActionClosure<R> {
    inner: std::sync::Mutex<Box<dyn FnMut(&mut String, &[&str]) -> R + Send>>,
}

impl<R> ActionClosure<R> {
    /// Relies on `Mutex::new` and `Box::new`: stores the callback; nothing
    /// is assumed of the callback itself.
    #[verifier::external_body]
    pub fn new<F: FnMut(&mut String, &[&str]) -> R + Send + 'static>(f: F) -> (r: ActionClosure<
        R,
    >) {
        ActionClosure { inner: std::sync::Mutex::new(Box::new(f)) }
    }

    /// Relies on `Mutex::lock` and the `FnMut` call: runs the held callback
    /// on the writer and the argument words.  Nothing is known of the
    /// result, nor of what the callback leaves in the writer.
    #[verifier::external_body]
    pub fn call(&self, writer: &mut String, arguments: &Vec<String>) -> R {
        let borrowed: Vec<&str> = arguments.iter().map(|s| s.as_str()).collect();
        let f = &mut *self.inner.lock().expect("locking command action failed");
        f(writer, &borrowed)
    }
}

/// A leaf invocable command: a lowercased name, a help message, and the
/// callback run when the resolver reaches the action.
#[verifier::reject_recursive_types(R)]
pub struct Action<R> {
    /// The name, case folded at construction.
    pub name: String,
    /// The help message.
    pub help: CmdStr,
    /// The stored callback.
    pub closure: ActionClosure<R>,
}

impl<R> Action<R> {
    /// Invoke the stored callback with the writer and the argument words.
    pub fn call(&self, wtr: &mut String, arguments: &Vec<String>) -> R {
        self.closure.call(wtr, arguments)
    }

    /// The debug rendering of the action: its name and help message.
    pub fn debug_string(&self) -> (r: String)
        ensures
            r@ == "Action { name: "@ + self.name@ + ", help: "@ + self.help@ + " }"@,
    {
        let mut s = String::from_str("Action { name: ");
        s.append(self.name.as_str());
        s.append(", help: ");
        s.append(self.help.as_str());
        s.append(" }");
        s
    }
}

impl Action<()> {
    /// An action whose callback does nothing, for exercising the tree.
    pub fn blank_fn(name: &str, help_msg: &str) -> (r: Self)
        ensures
            r.name@ == lower_of(name@),
            r.help@ == help_msg@,
    {
        Action {
            name: crate::strings::to_lowercase(name),
            help: CmdStr::from_text(help_msg),
            closure: ActionClosure::new(|_w: &mut String, _a: &[&str]| ()),
        }
    }
}

/// A namespace node of the command tree: child classes and leaf actions
/// under a lowercased name.
#[verifier::reject_recursive_types(R)]
pub struct SubClass<R> {
    /// The name, case folded at construction.
    pub name: String,
    /// The help message.
    pub help: CmdStr,
    /// The child classes, in insertion order.
    pub classes: Vec<SubClass<R>>,
    /// The owned actions, in insertion order.
    pub actions: Vec<Action<R>>,
}

impl<R> SubClass<R> {
    /// A childless class with the case-folded form of `name`.
    pub fn with_name(name: &str, help_msg: &str) -> (r: Self)
        ensures
            r.name@ == lower_of(name@),
            r.help@ == help_msg@,
            r.classes@.len() == 0,
            r.actions@.len() == 0,
    {
        SubClass {
            name: crate::strings::to_lowercase(name),
            help: CmdStr::from_text(help_msg),
            classes: Vec::new(),
            actions: Vec::new(),
        }
    }
}

/// The globally reserved words, which no class or action may be named.
pub open spec fn is_reserved(n: Seq<char>) -> bool {
    n == "help"@ || n == "cancel"@ || n == "c"@ || n == "exit"@
}

/// The name `n` collides with nothing owned by `sc`: it is not reserved,
/// and no child class or action of `sc` bears it.
pub open spec fn name_ok<R>(sc: SubClass<R>, n: Seq<char>) -> bool {
    &&& !is_reserved(n)
    &&& (forall|j: int| 0 <= j < sc.classes@.len() ==> (#[trigger] sc.classes@[j]).name@ != n)
    &&& (forall|j: int| 0 <= j < sc.actions@.len() ==> (#[trigger] sc.actions@[j]).name@ != n)
}

/// Well-formedness of a class subtree: every name is case folded, no two
/// siblings (classes, actions or one of each) share a name, no name is
/// reserved, and every child class is itself well formed.
pub open spec fn sc_wf<R>(sc: SubClass<R>) -> bool
    decreases sc,
{
    &&& is_folded(sc.name@)
    &&& (forall|i: int, j: int|
        0 <= i < j < sc.classes@.len() ==> (#[trigger] sc.classes@[i]).name@ != (
        #[trigger] sc.classes@[j]).name@)
    &&& (forall|i: int, j: int|
        0 <= i < j < sc.actions@.len() ==> (#[trigger] sc.actions@[i]).name@ != (
        #[trigger] sc.actions@[j]).name@)
    &&& (forall|i: int, j: int|
        0 <= i < sc.classes@.len() && 0 <= j < sc.actions@.len() ==> (
        #[trigger] sc.classes@[i]).name@ != (#[trigger] sc.actions@[j]).name@)
    &&& (forall|i: int|
        0 <= i < sc.classes@.len() ==> !is_reserved((#[trigger] sc.classes@[i]).name@))
    &&& (forall|i: int|
        0 <= i < sc.actions@.len() ==> !is_reserved((#[trigger] sc.actions@[i]).name@)
            && is_folded(sc.actions@[i].name@))
    &&& (forall|i: int| 0 <= i < sc.classes@.len() ==> sc_wf(#[trigger] sc.classes@[i]))
}

/// The cursor `cur` denotes a class of the tree rooted at `sc`: each step
/// is an in-bounds child index.
pub open spec fn valid_cursor<R>(sc: SubClass<R>, cur: Seq<usize>) -> bool
    decreases cur.len(),
{
    cur.len() == 0 || ((cur[0] as int) < sc.classes@.len() && valid_cursor(
        sc.classes@[cur[0] as int],
        cur.drop_first(),
    ))
}

/// The class denoted by the cursor `cur` in the tree rooted at `sc`.
pub open spec fn class_at<R>(sc: SubClass<R>, cur: Seq<usize>) -> SubClass<R>
    decreases cur.len(),
{
    if cur.len() == 0 {
        sc
    } else {
        class_at(sc.classes@[cur[0] as int], cur.drop_first())
    }
}

/// The dot-joined names from the root `sc` down to the class denoted by
/// `cur`.
pub open spec fn path_of<R>(sc: SubClass<R>, cur: Seq<usize>) -> Seq<char>
    decreases cur.len(),
{
    if cur.len() == 0 {
        sc.name@
    } else {
        sc.name@ + seq!['.'] + path_of(sc.classes@[cur[0] as int], cur.drop_first())
    }
}

/// A constructed command tree together with the per-session cursor: the
/// current position, held as the child indices from the root, and the
/// dot-joined path of names down to it.
#[verifier::reject_recursive_types(R)]
pub struct Commander<R> {
    /// The root class of the finalized tree.
    pub root: SubClass<R>,
    /// The child indices from the root down to the current position.
    pub cursor: Vec<usize>,
    /// The dot-joined class names from the root to the current position.
    pub path: String,
}

impl<R> Commander<R> {
    /// The invariant of every built commander: the tree is well formed,
    /// the cursor denotes a class, and the path spells the names down to
    /// it.
    pub open spec fn wf(&self) -> bool {
        &&& sc_wf(self.root)
        &&& valid_cursor(self.root, self.cursor@)
        &&& self.path@ == path_of(self.root, self.cursor@)
    }

    /// The class the cursor currently denotes.
    pub open spec fn current(&self) -> SubClass<R> {
        class_at(self.root, self.cursor@)
    }

    /// Return the root name.
    pub fn root_name(&self) -> (r: &str)
        ensures
            r@ == self.root.name@,
    {
        self.root.name.as_str()
    }

    /// Return the path of the current class, separated by `.`.
    pub fn path(&self) -> (r: &str)
        ensures
            r@ == self.path@,
    {
        self.path.as_str()
    }

    /// Returns if the commander is sitting at the root class.
    pub fn at_root(&self) -> (r: bool)
        ensures
            r == (self.cursor@.len() == 0),
    {
        self.cursor.len() == 0
    }
}

/// The class a cursor denotes, walked child by child.
pub fn class_at_cursor<'a, R>(sc: &'a SubClass<R>, cur: &Vec<usize>) -> (r: &'a SubClass<R>)
    requires
        valid_cursor(*sc, cur@),
    ensures
        *r == class_at(*sc, cur@),
{
    let mut node: &'a SubClass<R> = sc;
    let n = cur.len();
    let mut i: usize = 0;
    proof {
        assert(cur@.skip(0) =~= cur@);
    }
    while i < n
        invariant
            i <= n,
            n == cur@.len(),
            valid_cursor(*node, cur@.skip(i as int)),
            class_at(*sc, cur@) == class_at(*node, cur@.skip(i as int)),
        decreases n - i,
    {
        proof {
            let s = cur@.skip(i as int);
            assert(s[0] == cur@[i as int]);
            assert(s.drop_first() =~= cur@.skip(i + 1));
        }
        node = &node.classes[cur[i]];
        i = i + 1;
    }
    node
}

/// Extending a valid cursor by an in-bounds child index denotes that
/// child, and extends the path by a dot and the child's name.
pub proof fn lemma_cursor_push<R>(sc: SubClass<R>, cur: Seq<usize>, k: usize)
    requires
        valid_cursor(sc, cur),
        (k as int) < class_at(sc, cur).classes@.len(),
    ensures
        valid_cursor(sc, cur.push(k)),
        class_at(sc, cur.push(k)) == class_at(sc, cur).classes@[k as int],
        path_of(sc, cur.push(k)) == path_of(sc, cur) + seq!['.'] + class_at(
            sc,
            cur,
        ).classes@[k as int].name@,
    decreases cur.len(),
{
    if cur.len() == 0 {
        assert(cur.push(k)[0] == k);
        assert(cur.push(k).drop_first() =~= Seq::<usize>::empty());
        assert(valid_cursor(sc.classes@[k as int], Seq::<usize>::empty()));
        assert(valid_cursor(sc, cur.push(k)));
        assert(class_at(sc, cur.push(k)) == class_at(
            sc.classes@[k as int],
            Seq::<usize>::empty(),
        ));
        assert(path_of(sc, cur.push(k)) == sc.name@ + seq!['.'] + path_of(
            sc.classes@[k as int],
            Seq::<usize>::empty(),
        ));
    } else {
        assert(cur.push(k)[0] == cur[0]);
        assert(cur.push(k).drop_first() =~= cur.drop_first().push(k));
        lemma_cursor_push(sc.classes@[cur[0] as int], cur.drop_first(), k);
        assert(valid_cursor(sc, cur.push(k)));
        assert(class_at(sc, cur.push(k)) == class_at(
            sc.classes@[cur[0] as int],
            cur.drop_first().push(k),
        ));
        assert(path_of(sc, cur.push(k)) == sc.name@ + seq!['.'] + path_of(
            sc.classes@[cur[0] as int],
            cur.drop_first().push(k),
        ));
        assert(path_of(sc, cur) + seq!['.'] + class_at(sc, cur).classes@[k as int].name@ =~= sc.name@
            + seq!['.'] + (path_of(sc.classes@[cur[0] as int], cur.drop_first()) + seq!['.']
            + class_at(sc.classes@[cur[0] as int], cur.drop_first()).classes@[k as int].name@));
    }
}

/// Every class a valid cursor denotes in a well-formed tree is itself
/// well formed.
pub proof fn lemma_class_at_wf<R>(sc: SubClass<R>, cur: Seq<usize>)
    requires
        sc_wf(sc),
        valid_cursor(sc, cur),
    ensures
        sc_wf(class_at(sc, cur)),
    decreases cur.len(),
{
    if cur.len() != 0 {
        lemma_class_at_wf(sc.classes@[cur[0] as int], cur.drop_first());
    }
}

/// A command type.
#[derive(Debug, PartialEq, Eq, Structural, Clone, Copy)]
pub enum ItemType {
    /// Class type.
    Class,
    /// Action type.
    Action,
}

/// An item in the command tree: a dot-separated path (actions are double
/// delimited), whether it is a class or an action, and its help message.
#[derive(Debug)]
pub struct StructureInfo {
    /// Period delimited path; an action name follows a double period.
    pub path: String,
    /// Class or Action.
    pub itemtype: ItemType,
    /// The help message.
    pub help_msg: CmdStr,
}

impl Clone for StructureInfo {
    fn clone(&self) -> (r: Self)
        ensures
            r.path@ == self.path@,
            r.itemtype == self.itemtype,
            r.help_msg@ == self.help_msg@,
    {
        StructureInfo {
            path: self.path.clone(),
            itemtype: self.itemtype,
            help_msg: self.help_msg.clone(),
        }
    }
}

/// A structure entry as the contracts see it: path, kind, help message.
pub type Entry = (Seq<char>, ItemType, Seq<char>);

/// The entry a `StructureInfo` stands for.
pub open spec fn info_view(si: StructureInfo) -> Entry {
    (si.path@, si.itemtype, si.help_msg@)
}

/// The action entries below the class whose path is `p`, in order: each
/// action is double-dot delimited from its class path.
pub open spec fn act_entries<R>(acts: Seq<Action<R>>, p: Seq<char>) -> Seq<Entry>
    decreases acts.len(),
{
    if acts.len() == 0 {
        Seq::empty()
    } else {
        seq![(p + ".."@ + acts[0].name@, ItemType::Action, acts[0].help@)] + act_entries(
            acts.drop_first(),
            p,
        )
    }
}

/// The entries of the class whose own path is `p`: the class itself, its
/// actions, then its descendants.
pub open spec fn class_entries<R>(sc: SubClass<R>, p: Seq<char>) -> Seq<Entry>
    decreases sc,
{
    seq![(p, ItemType::Class, sc.help@)] + act_entries(sc.actions@, p) + sub_entries(
        sc.classes@,
        p,
    )
}

/// The entries of the child classes of the class whose path is `p`.
pub open spec fn sub_entries<R>(cs: Seq<SubClass<R>>, p: Seq<char>) -> Seq<Entry>
    decreases cs,
{
    if cs.len() == 0 {
        Seq::empty()
    } else {
        class_entries(cs[0], p + "."@ + cs[0].name@) + sub_entries(cs.drop_first(), p)
    }
}

/// The entries of the start classes of a traversal: their paths are their
/// bare names.
pub open spec fn start_entries<R>(cs: Seq<SubClass<R>>) -> Seq<Entry>
    decreases cs,
{
    if cs.len() == 0 {
        Seq::empty()
    } else {
        class_entries(cs[0], cs[0].name@) + start_entries(cs.drop_first())
    }
}

/// All entries of a traversal that starts at `start`: the start class
/// itself has no entry; its actions are double-dot entries with an empty
/// class path.
pub open spec fn structure_entries<R>(start: SubClass<R>) -> Seq<Entry> {
    act_entries(start.actions@, Seq::empty()) + start_entries(start.classes@)
}

/// Insert `e` into the path-sorted `s`: before the first entry with a
/// path not below `e`'s, unless that entry has the same path, in which
/// case the present entry is kept.
pub open spec fn insert_entry(s: Seq<Entry>, e: Entry) -> Seq<Entry>
    decreases s.len(),
{
    if s.len() == 0 {
        seq![e]
    } else if e.0 == s[0].0 {
        s
    } else if crate::strings::lex_lt(e.0, s[0].0) {
        seq![e] + s
    } else {
        seq![s[0]] + insert_entry(s.drop_first(), e)
    }
}

/// The entries of `l` inserted left to right into a path-sorted sequence;
/// of entries with equal paths, the earliest survives.
pub open spec fn sort_entries(l: Seq<Entry>) -> Seq<Entry>
    decreases l.len(),
{
    if l.len() == 0 {
        Seq::empty()
    } else {
        insert_entry(sort_entries(l.drop_last()), l.last())
    }
}

/// Paths strictly ascend through the sequence.
pub open spec fn entries_sorted(s: Seq<Entry>) -> bool {
    forall|i: int, j: int|
        0 <= i < j < s.len() ==> crate::strings::lex_lt((#[trigger] s[i]).0, (#[trigger] s[j]).0)
}

/// Inserting into a path-sorted sequence keeps it path sorted.
pub proof fn lemma_insert_entry_sorted(s: Seq<Entry>, e: Entry)
    requires
        entries_sorted(s),
    ensures
        entries_sorted(insert_entry(s, e)),
    decreases s.len(),
{
    if s.len() == 0 {
    } else if e.0 == s[0].0 {
    } else if crate::strings::lex_lt(e.0, s[0].0) {
        let r = seq![e] + s;
        assert forall|i: int, j: int| 0 <= i < j < r.len() implies crate::strings::lex_lt(
            (#[trigger] r[i]).0,
            (#[trigger] r[j]).0,
        ) by {
            if i == 0 {
                if j > 1 {
                    crate::strings::lemma_lex_transitive(e.0, s[0].0, s[j - 1].0);
                }
            } else {
                assert(r[i] == s[i - 1] && r[j] == s[j - 1]);
            }
        }
    } else {
        crate::strings::lemma_lex_trichotomy(e.0, s[0].0);
        let t = s.drop_first();
        assert(entries_sorted(t)) by {
            assert(forall|i: int, j: int|
                0 <= i < j < t.len() ==> t[i] == s[i + 1] && t[j] == s[j + 1]);
        }
        lemma_insert_entry_sorted(t, e);
        let it = insert_entry(t, e);
        let r = seq![s[0]] + it;
        assert(insert_entry(s, e) == r);
        assert forall|k: int| 0 <= k < it.len() implies crate::strings::lex_lt(
            s[0].0,
            (#[trigger] it[k]).0,
        ) by {
            lemma_insert_entry_mem(t, e, k);
            if it[k] == e {
                assert(crate::strings::lex_lt(s[0].0, e.0));
            } else {
                let ghost w = choose|m: int| 0 <= m < t.len() && t[m] == it[k];
                assert(t[w] == s[w + 1]);
            }
        }
        assert forall|i: int, j: int| 0 <= i < j < r.len() implies crate::strings::lex_lt(
            (#[trigger] r[i]).0,
            (#[trigger] r[j]).0,
        ) by {
            if i > 0 {
                assert(r[i] == it[i - 1] && r[j] == it[j - 1]);
            } else {
                assert(r[j] == it[j - 1]);
            }
        }
    }
}

/// Every entry of an insertion result is the inserted entry or one of the
/// sequence's own.
pub proof fn lemma_insert_entry_mem(s: Seq<Entry>, e: Entry, k: int)
    requires
        0 <= k < insert_entry(s, e).len(),
    ensures
        insert_entry(s, e)[k] == e || exists|m: int| 0 <= m < s.len() && s[m] == insert_entry(
            s,
            e,
        )[k],
    decreases s.len(),
{
    if s.len() == 0 {
    } else if e.0 == s[0].0 {
        assert(s[k] == insert_entry(s, e)[k]);
    } else if crate::strings::lex_lt(e.0, s[0].0) {
        if k > 0 {
            assert(s[k - 1] == insert_entry(s, e)[k]);
        }
    } else {
        if k == 0 {
            assert(s[0] == insert_entry(s, e)[0]);
        } else {
            let t = s.drop_first();
            lemma_insert_entry_mem(t, e, k - 1);
            assert(insert_entry(s, e)[k] == insert_entry(t, e)[k - 1]);
            if insert_entry(t, e)[k - 1] != e {
                let w = choose|m: int| 0 <= m < t.len() && t[m] == insert_entry(t, e)[k - 1];
                assert(s[w + 1] == insert_entry(s, e)[k]);
            }
        }
    }
}

/// The sorted form of any entry list is path sorted: `structure` output
/// ascends strictly by path.
pub proof fn lemma_sort_entries_sorted(l: Seq<Entry>)
    ensures
        entries_sorted(sort_entries(l)),
    decreases l.len(),
{
    if l.len() != 0 {
        lemma_sort_entries_sorted(l.drop_last());
        lemma_insert_entry_sorted(sort_entries(l.drop_last()), l.last());
    }
}

/// The naming discipline of every built tree, at every class a valid
/// cursor can denote: sibling names — child classes and actions together
/// — are pairwise distinct, none is a reserved word, and every name is a
/// case-folded string (the image of the fold, so case-insensitively
/// unique).
pub proof fn lemma_tree_naming<R>(c: Commander<R>, cur: Seq<usize>)
    requires
        c.wf(),
        valid_cursor(c.root, cur),
    ensures
        ({
            let sc = class_at(c.root, cur);
            &&& (forall|i: int, j: int|
                0 <= i < j < sc.classes@.len() ==> (#[trigger] sc.classes@[i]).name@ != (
                #[trigger] sc.classes@[j]).name@)
            &&& (forall|i: int, j: int|
                0 <= i < j < sc.actions@.len() ==> (#[trigger] sc.actions@[i]).name@ != (
                #[trigger] sc.actions@[j]).name@)
            &&& (forall|i: int, j: int|
                0 <= i < sc.classes@.len() && 0 <= j < sc.actions@.len() ==> (
                #[trigger] sc.classes@[i]).name@ != (#[trigger] sc.actions@[j]).name@)
            &&& (forall|i: int|
                0 <= i < sc.classes@.len() ==> !is_reserved(
                    (#[trigger] sc.classes@[i]).name@,
                ) && is_folded(sc.classes@[i].name@))
            &&& (forall|i: int|
                0 <= i < sc.actions@.len() ==> !is_reserved(
                    (#[trigger] sc.actions@[i]).name@,
                ) && is_folded(sc.actions@[i].name@))
        }),
{
    lemma_class_at_wf(c.root, cur);
    let sc = class_at(c.root, cur);
    assert forall|i: int|
        0 <= i < sc.classes@.len() implies !is_reserved((#[trigger] sc.classes@[i]).name@)
        && is_folded(sc.classes@[i].name@) by {
        assert(sc_wf(sc.classes@[i]));
    }
}

/// The structure listing of any traversal start ascends strictly by
/// path, so repeated calls of `structure` on an unchanged commander
/// return the same sorted listing.
pub proof fn lemma_structure_sorted<R>(start: SubClass<R>)
    ensures
        entries_sorted(sort_entries(structure_entries(start))),
{
    lemma_sort_entries_sorted(structure_entries(start));
}

/// Where the scan of a sorted sequence stops, the recursive insertion
/// acts: it keeps the sequence on an equal path and inserts there
/// otherwise.
proof fn lemma_insert_entry_at(s: Seq<Entry>, e: Entry, k: int)
    requires
        0 <= k <= s.len(),
        forall|j: int| 0 <= j < k ==> crate::strings::lex_lt((#[trigger] s[j]).0, e.0),
        k < s.len() ==> !crate::strings::lex_lt(s[k as int].0, e.0),
    ensures
        insert_entry(s, e) == if k < s.len() && s[k as int].0 == e.0 {
            s
        } else {
            s.insert(k, e)
        },
    decreases s.len(),
{
    if k == 0 {
        if s.len() == 0 {
            assert(insert_entry(s, e) =~= s.insert(0, e));
        } else if s[0].0 == e.0 {
        } else {
            crate::strings::lemma_lex_trichotomy(e.0, s[0].0);
            assert(crate::strings::lex_lt(e.0, s[0].0));
            assert(seq![e] + s =~= s.insert(0, e));
        }
    } else {
        crate::strings::lemma_lex_trichotomy(e.0, s[0].0);
        assert(crate::strings::lex_lt(s[0].0, e.0));
        let t = s.drop_first();
        assert(forall|j: int| 0 <= j < k - 1 ==> t[j] == s[j + 1]);
        if k - 1 < t.len() {
            assert(t[k - 1] == s[k as int]);
        }
        lemma_insert_entry_at(t, e, k - 1);
        if k < s.len() && s[k as int].0 == e.0 {
            assert(seq![s[0]] + t =~= s);
        } else {
            assert(seq![s[0]] + t.insert(k - 1, e) =~= s.insert(k, e));
        }
    }
}

/// Insert a structure entry into the path-sorted `res`, dropping it if
/// its path is already present.
#[verifier::loop_isolation(false)]
fn insert_sorted(res: &mut Vec<StructureInfo>, e: StructureInfo)
    ensures
        final(res)@.map_values(|si: StructureInfo| info_view(si)) == insert_entry(
            old(res)@.map_values(|si: StructureInfo| info_view(si)),
            info_view(e),
        ),
{
    let ghost s = res@.map_values(|si: StructureInfo| info_view(si));
    let n = res.len();
    let mut k: usize = 0;
    loop
        invariant
            k <= n,
            n == res@.len(),
            res@ == old(res)@,
            forall|j: int| 0 <= j < k ==> crate::strings::lex_lt((#[trigger] s[j]).0, e.path@),
        decreases n - k,
    {
        if k >= n {
            proof {
                lemma_insert_entry_at(s, info_view(e), k as int);
            }
            res.insert(k, e);
            proof {
                assert(res@.map_values(|si: StructureInfo| info_view(si)) =~~= s.insert(
                    k as int,
                    info_view(e),
                ));
            }
            return ;
        }
        let c = crate::strings::str_cmp(res[k].path.as_str(), e.path.as_str());
        if c == 0 {
            proof {
                crate::strings::lemma_lex_trichotomy(s[k as int].0, e.path@);
                lemma_insert_entry_at(s, info_view(e), k as int);
            }
            return ;
        }
        if c == 1 {
            proof {
                crate::strings::lemma_lex_trichotomy(s[k as int].0, e.path@);
                lemma_insert_entry_at(s, info_view(e), k as int);
            }
            res.insert(k, e);
            proof {
                assert(res@.map_values(|si: StructureInfo| info_view(si)) =~~= s.insert(
                    k as int,
                    info_view(e),
                ));
            }
            return ;
        }
        assert(crate::strings::lex_lt(s[k as int].0, e.path@));
        k = k + 1;
    }
}

/// Push the entries of the class whose own path is `p` onto `out`, in
/// traversal order.
#[verifier::loop_isolation(false)]
fn collect_class<R>(sc: &SubClass<R>, p: &String, out: &mut Vec<StructureInfo>)
    ensures
        final(out)@.map_values(|si: StructureInfo| info_view(si)) == old(out)@.map_values(
            |si: StructureInfo| info_view(si),
        ) + class_entries(*sc, p@),
    decreases *sc,
{
    let ghost base = out@.map_values(|si: StructureInfo| info_view(si));
    out.push(
        StructureInfo { path: p.clone(), itemtype: ItemType::Class, help_msg: sc.help.clone() },
    );
    proof {
        assert(out@.map_values(|si: StructureInfo| info_view(si)) =~~= base + seq![
            (p@, ItemType::Class, sc.help@),
        ]);
    }
    let na = sc.actions.len();
    let mut i: usize = 0;
    proof {
        assert(sc.actions@.skip(0) =~= sc.actions@);
    }
    while i < na
        invariant
            i <= na,
            out@.map_values(|si: StructureInfo| info_view(si)) + act_entries(
                sc.actions@.skip(i as int),
                p@,
            ) =~~= base + seq![(p@, ItemType::Class, sc.help@)] + act_entries(sc.actions@, p@),
        decreases na - i,
    {
        proof {
            let s = sc.actions@.skip(i as int);
            assert(s[0] == sc.actions@[i as int]);
            assert(s.drop_first() =~= sc.actions@.skip(i + 1));
        }
        let mut ap = p.clone();
        ap.append("..");
        ap.append(sc.actions[i].name.as_str());
        out.push(
            StructureInfo {
                path: ap,
                itemtype: ItemType::Action,
                help_msg: sc.actions[i].help.clone(),
            },
        );
        proof {
            assert(out@.map_values(|si: StructureInfo| info_view(si)) + act_entries(
                sc.actions@.skip(i + 1),
                p@,
            ) =~~= base + seq![(p@, ItemType::Class, sc.help@)] + act_entries(sc.actions@, p@));
        }
        i = i + 1;
    }
    proof {
        assert(act_entries(sc.actions@.skip(na as int), p@) =~~= Seq::<Entry>::empty());
    }
    let ghost mid = base + seq![(p@, ItemType::Class, sc.help@)] + act_entries(sc.actions@, p@);
    proof {
        assert(out@.map_values(|si: StructureInfo| info_view(si)) =~~= mid);
    }
    let nc = sc.classes.len();
    let mut i: usize = 0;
    proof {
        assert(sc.classes@.skip(0) =~= sc.classes@);
    }
    while i < nc
        invariant
            i <= nc,
            out@.map_values(|si: StructureInfo| info_view(si)) + sub_entries(
                sc.classes@.skip(i as int),
                p@,
            ) =~~= mid + sub_entries(sc.classes@, p@),
        decreases nc - i,
    {
        proof {
            let s = sc.classes@.skip(i as int);
            assert(s[0] == sc.classes@[i as int]);
            assert(s.drop_first() =~= sc.classes@.skip(i + 1));
        }
        let mut cp = p.clone();
        cp.append(".");
        cp.append(sc.classes[i].name.as_str());
        collect_class(&sc.classes[i], &cp, out);
        proof {
            assert(out@.map_values(|si: StructureInfo| info_view(si)) + sub_entries(
                sc.classes@.skip(i + 1),
                p@,
            ) =~~= mid + sub_entries(sc.classes@, p@));
        }
        i = i + 1;
    }
    proof {
        assert(sub_entries(sc.classes@.skip(nc as int), p@) =~~= Seq::<Entry>::empty());
        assert(out@.map_values(|si: StructureInfo| info_view(si)) =~~= old(out)@.map_values(
            |si: StructureInfo| info_view(si),
        ) + class_entries(*sc, p@));
    }
}

/// Push the entries of a traversal starting at `start` onto `out`: its
/// actions with an empty class path, then its child classes under their
/// bare names.
#[verifier::loop_isolation(false)]
fn collect_start<R>(start: &SubClass<R>, out: &mut Vec<StructureInfo>)
    ensures
        final(out)@.map_values(|si: StructureInfo| info_view(si)) == old(out)@.map_values(
            |si: StructureInfo| info_view(si),
        ) + structure_entries(*start),
{
    let ghost base = out@.map_values(|si: StructureInfo| info_view(si));
    let empty = String::new();
    let na = start.actions.len();
    let mut i: usize = 0;
    proof {
        assert(start.actions@.skip(0) =~= start.actions@);
        assert(out@.map_values(|si: StructureInfo| info_view(si)) =~~= base);
    }
    while i < na
        invariant
            i <= na,
            empty@.len() == 0,
            out@.map_values(|si: StructureInfo| info_view(si)) + act_entries(
                start.actions@.skip(i as int),
                Seq::<char>::empty(),
            ) =~~= base + act_entries(start.actions@, Seq::<char>::empty()),
        decreases na - i,
    {
        proof {
            let s = start.actions@.skip(i as int);
            assert(s[0] == start.actions@[i as int]);
            assert(s.drop_first() =~= start.actions@.skip(i + 1));
        }
        let mut ap = String::new();
        ap.append("..");
        ap.append(start.actions[i].name.as_str());
        out.push(
            StructureInfo {
                path: ap,
                itemtype: ItemType::Action,
                help_msg: start.actions[i].help.clone(),
            },
        );
        proof {
            assert(Seq::<char>::empty() + ".."@ + start.actions@[i as int].name@ =~= ap@);
            assert(out@.map_values(|si: StructureInfo| info_view(si)) + act_entries(
                start.actions@.skip(i + 1),
                Seq::<char>::empty(),
            ) =~~= base + act_entries(start.actions@, Seq::<char>::empty()));
        }
        i = i + 1;
    }
    proof {
        assert(act_entries(start.actions@.skip(na as int), Seq::<char>::empty())
            =~~= Seq::<Entry>::empty());
    }
    let ghost mid = base + act_entries(start.actions@, Seq::<char>::empty());
    proof {
        assert(out@.map_values(|si: StructureInfo| info_view(si)) =~~= mid);
    }
    let nc = start.classes.len();
    let mut i: usize = 0;
    proof {
        assert(start.classes@.skip(0) =~= start.classes@);
    }
    while i < nc
        invariant
            i <= nc,
            out@.map_values(|si: StructureInfo| info_view(si)) + start_entries(
                start.classes@.skip(i as int),
            ) =~~= mid + start_entries(start.classes@),
        decreases nc - i,
    {
        proof {
            let s = start.classes@.skip(i as int);
            assert(s[0] == start.classes@[i as int]);
            assert(s.drop_first() =~= start.classes@.skip(i + 1));
        }
        let cp = String::from_str(start.classes[i].name.as_str());
        collect_class(&start.classes[i], &cp, out);
        proof {
            assert(out@.map_values(|si: StructureInfo| info_view(si)) + start_entries(
                start.classes@.skip(i + 1),
            ) =~~= mid + start_entries(start.classes@));
        }
        i = i + 1;
    }
    proof {
        assert(start_entries(start.classes@.skip(nc as int)) =~~= Seq::<Entry>::empty());
        assert(out@.map_values(|si: StructureInfo| info_view(si)) =~~= old(out)@.map_values(
            |si: StructureInfo| info_view(si),
        ) + structure_entries(*start));
    }
}

impl<R> Commander<R> {
    /// Returns the command structure as a path-sorted list, from the root
    /// or from the current class.
    ///
    /// Each item is a dot separated path, except for actions which are
    /// separated by a double dot.
    #[verifier::loop_isolation(false)]
    pub fn structure(&self, from_root: bool) -> (r: Vec<StructureInfo>)
        requires
            self.wf(),
        ensures
            r@.map_values(|si: StructureInfo| info_view(si)) == sort_entries(
                structure_entries(
                    if from_root {
                        self.root
                    } else {
                        self.current()
                    },
                ),
            ),
            entries_sorted(r@.map_values(|si: StructureInfo| info_view(si))),
    {
        proof {
            lemma_sort_entries_sorted(
                structure_entries(
                    if from_root {
                        self.root
                    } else {
                        self.current()
                    },
                ),
            );
        }
        let start = if from_root {
            &self.root
        } else {
            class_at_cursor(&self.root, &self.cursor)
        };
        let mut flat: Vec<StructureInfo> = Vec::new();
        collect_start(start, &mut flat);
        proof {
            assert(flat@.map_values(|si: StructureInfo| info_view(si)) =~~= structure_entries(
                *start,
            ));
        }
        let ghost l = flat@.map_values(|si: StructureInfo| info_view(si));
        let mut r: Vec<StructureInfo> = Vec::new();
        let n = flat.len();
        let mut i: usize = 0;
        proof {
            assert(l.take(0) =~= Seq::<Entry>::empty());
        }
        while i < n
            invariant
                i <= n,
                n == flat@.len(),
                r@.map_values(|si: StructureInfo| info_view(si)) == sort_entries(
                    l.take(i as int),
                ),
            decreases n - i,
        {
            let e = flat[i].clone();
            proof {
                assert(info_view(e) == l[i as int]);
                assert(l.take(i + 1).drop_last() =~= l.take(i as int));
                assert(l.take(i + 1).last() == l[i as int]);
            }
            insert_sorted(&mut r, e);
            i = i + 1;
        }
        proof {
            assert(l.take(n as int) =~= l);
        }
        r
    }
}

} // verus!
