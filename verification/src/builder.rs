//! Construction of a `Commander` through a chainable `Builder` that
//! validates every class and action name as the tree is assembled.
//!
//! The chain methods are shared between `Builder` and its result type
//! through the `BuilderChain` trait, so a failed step short-circuits the
//! rest of the chain and propagates the same error.
use vstd::prelude::*;

use crate::strings::lower_of;
use crate::strings::str_eq;
use crate::{is_reserved, name_ok, path_of, sc_wf, valid_cursor};
use crate::{Action, ActionClosure, CmdStr, Commander, SubClass};

verus! {

/// Error variants when building a `Commander`.
#[derive(Debug, PartialEq, Eq, Structural, Clone, Copy)]
pub enum BuildError {
    /// The name already exists as a class.
    NameExistsAsClass,
    /// The name already exists as an action.
    NameExistsAsAction,
    /// Tried to get to a parent when none exists.
    /// This usually occurs when `end_class` is called too many times.
    NoParent,
}

/// The persistent `Builder` structure to construct a `Commander` command
/// tree: the stack of unclosed parent scopes, and the scope being filled.
#[verifier::reject_recursive_types(R)]
pub struct Builder<R> {
    /// The enclosing scopes, outermost first.
    pub parents: Vec<SubClass<R>>,
    /// The scope names and actions are currently added to.
    pub current: SubClass<R>,
}

/// The common result of `BuilderChain` functions.
pub type BuilderResult<R> = Result<Builder<R>, BuildError>;

/// The naming validation applied to the case-folded `lwr` against what
/// `sc` already owns: reserved words and action names are reported as an
/// existing action, class names as an existing class.
pub open spec fn spec_check_names<R>(sc: SubClass<R>, lwr: Seq<char>) -> Result<(), BuildError> {
    if is_reserved(lwr) || (exists|i: int|
        0 <= i < sc.actions@.len() && (#[trigger] sc.actions@[i]).name@ == lwr) {
        Err(BuildError::NameExistsAsAction)
    } else if exists|i: int|
        0 <= i < sc.classes@.len() && (#[trigger] sc.classes@[i]).name@ == lwr {
        Err(BuildError::NameExistsAsClass)
    } else {
        Ok(())
    }
}

/// Validate `name` against the names already owned by `subclass`.
pub fn check_names<R>(name: &str, subclass: &SubClass<R>) -> (r: Result<(), BuildError>)
    ensures
        r == spec_check_names(*subclass, lower_of(name@)),
{
    let lwr = crate::strings::to_lowercase(name);
    let l = lwr.as_str();
    if str_eq(l, "help") || str_eq(l, "cancel") || str_eq(l, "c") || str_eq(l, "exit") {
        return Err(BuildError::NameExistsAsAction);
    }
    let na = subclass.actions.len();
    let mut i: usize = 0;
    while i < na
        invariant
            i <= na,
            na == subclass.actions@.len(),
            l@ == lwr@,
            lwr@ == lower_of(name@),
            !is_reserved(lwr@),
            forall|j: int| 0 <= j < i ==> (#[trigger] subclass.actions@[j]).name@ != lwr@,
        decreases na - i,
    {
        if str_eq(subclass.actions[i].name.as_str(), l) {
            assert(subclass.actions@[i as int].name@ == lwr@);
            return Err(BuildError::NameExistsAsAction);
        }
        i = i + 1;
    }
    let nc = subclass.classes.len();
    let mut i: usize = 0;
    while i < nc
        invariant
            i <= nc,
            nc == subclass.classes@.len(),
            l@ == lwr@,
            lwr@ == lower_of(name@),
            !is_reserved(lwr@),
            forall|j: int|
                0 <= j < subclass.actions@.len() ==> (#[trigger] subclass.actions@[j]).name@
                    != lwr@,
            forall|j: int| 0 <= j < i ==> (#[trigger] subclass.classes@[j]).name@ != lwr@,
        decreases nc - i,
    {
        if str_eq(subclass.classes[i].name.as_str(), l) {
            assert(subclass.classes@[i as int].name@ == lwr@);
            return Err(BuildError::NameExistsAsClass);
        }
        i = i + 1;
    }
    Ok(())
}

/// The builder stack is coherent: every scope on it is well formed, and
/// each scope's name was validated against the scope below it, so closing
/// scopes keeps trees well formed.
pub open spec fn stack_ok<R>(parents: Seq<SubClass<R>>, current: SubClass<R>) -> bool {
    &&& sc_wf(current)
    &&& (forall|i: int| 0 <= i < parents.len() ==> sc_wf(#[trigger] parents[i]))
    &&& (forall|i: int|
        0 <= i < parents.len() ==> name_ok(
            #[trigger] parents[i],
            if i == parents.len() - 1 {
                current.name@
            } else {
                parents[i + 1].name@
            },
        ))
}

impl<R> Builder<R> {
    /// The invariant every builder reachable through this module's
    /// operations maintains.
    pub open spec fn wf(&self) -> bool {
        stack_ok(self.parents@, self.current)
    }
}

/// Closing out every open scope of the stack, innermost first, yields the
/// tree `root`: each step attaches the inner scope as the last child class
/// of the scope below it.
pub open spec fn closes_to<R>(
    parents: Seq<SubClass<R>>,
    current: SubClass<R>,
    root: SubClass<R>,
) -> bool
    decreases parents.len(),
{
    if parents.len() == 0 {
        root == current
    } else {
        exists|m: SubClass<R>|
            {
                &&& (#[trigger] m.name)@ == parents.last().name@
                &&& m.help@ == parents.last().help@
                &&& m.actions@ == parents.last().actions@
                &&& m.classes@ == parents.last().classes@.push(current)
                &&& closes_to(parents.drop_last(), m, root)
            }
    }
}

/// What `begin_class` leaves of a chain in state `st`: an error passes
/// through; otherwise the current scope is pushed onto the stack and a
/// fresh scope with the folded name is opened, provided the name
/// validates.
pub open spec fn begin_class_post<R>(
    st: Result<Builder<R>, BuildError>,
    name: Seq<char>,
    help: Seq<char>,
    r: BuilderResult<R>,
) -> bool {
    match st {
        Err(e) => r == Err::<Builder<R>, BuildError>(e),
        Ok(b) => match r {
            Ok(nb) => {
                &&& spec_check_names(b.current, lower_of(name)) is Ok
                &&& nb.parents@ == b.parents@.push(b.current)
                &&& nb.current.name@ == lower_of(name)
                &&& nb.current.help@ == help
                &&& nb.current.classes@.len() == 0
                &&& nb.current.actions@.len() == 0
                &&& (b.wf() ==> nb.wf())
            },
            Err(e) => spec_check_names(b.current, lower_of(name)) == Err::<(), BuildError>(e),
        },
    }
}

/// What `end_class` leaves of a chain in state `st`: an error passes
/// through; at the outermost scope `NoParent` is returned; otherwise the
/// current scope becomes the last child class of the popped parent.
pub open spec fn end_class_post<R>(st: Result<Builder<R>, BuildError>, r: BuilderResult<R>) -> bool {
    match st {
        Err(e) => r == Err::<Builder<R>, BuildError>(e),
        Ok(b) => {
            if b.parents@.len() == 0 {
                r == Err::<Builder<R>, BuildError>(BuildError::NoParent)
            } else {
                match r {
                    Ok(nb) => {
                        &&& nb.parents@ == b.parents@.drop_last()
                        &&& nb.current.name@ == b.parents@.last().name@
                        &&& nb.current.help@ == b.parents@.last().help@
                        &&& nb.current.actions@ == b.parents@.last().actions@
                        &&& nb.current.classes@ == b.parents@.last().classes@.push(b.current)
                        &&& (b.wf() ==> nb.wf())
                    },
                    Err(_) => false,
                }
            }
        },
    }
}

/// What `add_action` leaves of a chain in state `st`: an error passes
/// through; otherwise an action with the folded name is appended to the
/// current scope, provided the name validates.
pub open spec fn add_action_post<R>(
    st: Result<Builder<R>, BuildError>,
    name: Seq<char>,
    help: Seq<char>,
    r: BuilderResult<R>,
) -> bool {
    match st {
        Err(e) => r == Err::<Builder<R>, BuildError>(e),
        Ok(b) => match r {
            Ok(nb) => {
                &&& spec_check_names(b.current, lower_of(name)) is Ok
                &&& nb.parents@ == b.parents@
                &&& nb.current.name@ == b.current.name@
                &&& nb.current.help@ == b.current.help@
                &&& nb.current.classes@ == b.current.classes@
                &&& nb.current.actions@.len() == b.current.actions@.len() + 1
                &&& nb.current.actions@.take(b.current.actions@.len() as int)
                    == b.current.actions@
                &&& nb.current.actions@.last().name@ == lower_of(name)
                &&& nb.current.actions@.last().help@ == help
                &&& (b.wf() ==> nb.wf())
            },
            Err(e) => spec_check_names(b.current, lower_of(name)) == Err::<(), BuildError>(e),
        },
    }
}

/// What `root` leaves of a chain in state `st`: an error passes through;
/// otherwise every open scope is closed out and the stack is empty.
pub open spec fn root_post<R>(st: Result<Builder<R>, BuildError>, r: BuilderResult<R>) -> bool {
    match st {
        Err(e) => r == Err::<Builder<R>, BuildError>(e),
        Ok(b) => match r {
            Ok(nb) => {
                &&& nb.parents@.len() == 0
                &&& closes_to(b.parents@, b.current, nb.current)
                &&& (b.wf() ==> nb.wf())
            },
            Err(_) => false,
        },
    }
}

/// What `into_commander` leaves of a chain in state `st`: an error passes
/// through; otherwise the scopes are closed out into a tree and the
/// commander starts at its root, with the path equal to the root name.
pub open spec fn into_commander_post<R>(
    st: Result<Builder<R>, BuildError>,
    r: Result<Commander<R>, BuildError>,
) -> bool {
    match st {
        Err(e) => r == Err::<Commander<R>, BuildError>(e),
        Ok(b) => match r {
            Ok(c) => {
                &&& closes_to(b.parents@, b.current, c.root)
                &&& c.cursor@.len() == 0
                &&& c.path@ == c.root.name@
                &&& (b.wf() ==> c.wf())
            },
            Err(_) => false,
        },
    }
}

/// The common functions across a `Builder` or a `BuilderResult`.
/// See module level documentation for more information.
pub trait BuilderChain<R>: Sized {
    /// The builder this link of the chain carries, or the error being
    /// propagated.
    spec fn chain_state(self) -> Result<Builder<R>, BuildError>;

    /// Start a new nested class. If the name already exists a `BuildError`
    /// will be returned.
    fn begin_class(self, name: &str, help_msg: &str) -> (r: BuilderResult<R>)
        ensures
            begin_class_post(self.chain_state(), name@, help_msg@, r),
    ;

    /// Close a class and move to it's parent.
    /// If no parent exists (this function is called on the root), a
    /// `BuildError` will be returned.
    fn end_class(self) -> (r: BuilderResult<R>)
        ensures
            end_class_post(self.chain_state(), r),
    ;

    /// Add an action. The closure is given the output writer and the words
    /// following the action command.
    fn add_action<F: FnMut(&mut String, &[&str]) -> R + Send + 'static>(
        self,
        name: &str,
        help_msg: &str,
        closure: F,
    ) -> (r: BuilderResult<R>)
        ensures
            add_action_post(self.chain_state(), name@, help_msg@, r),
    ;

    /// Navigates to the root class, closing out the classes as it goes.
    fn root(self) -> (r: BuilderResult<R>)
        ensures
            root_post(self.chain_state(), r),
    ;

    /// Finishes the construction of the command tree and returns the built
    /// `Commander`.  This can be called even when not on a root class: the
    /// remaining scopes are closed out first, so an explicit `root` call
    /// beforehand converges to the same tree.
    fn into_commander(self) -> (r: Result<Commander<R>, BuildError>)
        ensures
            into_commander_post(self.chain_state(), r),
    ;
}

impl Builder<()> {
    /// Initialise a `Builder` instance with the given root name.
    pub fn default_config(root_name: &str) -> (r: Self)
        ensures
            r.parents@.len() == 0,
            r.current.name@ == lower_of(root_name@),
            r.current.classes@.len() == 0,
            r.current.actions@.len() == 0,
            r.wf(),
    {
        Builder::<()>::new(root_name)
    }
}

impl<R> Builder<R> {
    /// Initialise new `Builder` instance with no configuration.
    pub fn new(root_name: &str) -> (r: Self)
        ensures
            r.parents@.len() == 0,
            r.current.name@ == lower_of(root_name@),
            r.current.classes@.len() == 0,
            r.current.actions@.len() == 0,
            r.wf(),
    {
        let b = Builder {
            parents: Vec::new(),
            current: SubClass::with_name(root_name, "base class of commander tree"),
        };
        proof {
            assert(sc_wf(b.current));
        }
        b
    }
}

/// Appending a validated child class keeps a scope well formed.
proof fn lemma_wf_push_class<R>(parent: SubClass<R>, child: SubClass<R>)
    requires
        sc_wf(parent),
        sc_wf(child),
        name_ok(parent, child.name@),
    ensures
        forall|m: SubClass<R>|
            (m.name@ == parent.name@ && m.help@ == parent.help@ && m.actions@ == parent.actions@
                && m.classes@ == parent.classes@.push(child)) ==> sc_wf(m),
{
    assert forall|m: SubClass<R>|
        (m.name@ == parent.name@ && m.help@ == parent.help@ && m.actions@ == parent.actions@
            && m.classes@ == parent.classes@.push(child)) implies sc_wf(m) by {
        let pc = parent.classes@;
        assert(m.classes@.len() == pc.len() + 1);
        assert(forall|i: int| 0 <= i < pc.len() ==> m.classes@[i] == pc[i]);
        assert(m.classes@[pc.len() as int] == child);
    }
}

/// Appending a validated action keeps a scope well formed.
proof fn lemma_wf_push_action<R>(parent: SubClass<R>, nm: Seq<char>, new_actions: Seq<Action<R>>)
    requires
        sc_wf(parent),
        name_ok(parent, nm),
        crate::strings::is_folded(nm),
        new_actions.len() == parent.actions@.len() + 1,
        new_actions.take(parent.actions@.len() as int) == parent.actions@,
        new_actions.last().name@ == nm,
    ensures
        forall|m: SubClass<R>|
            (m.name@ == parent.name@ && m.help@ == parent.help@ && m.classes@ == parent.classes@
                && m.actions@ == new_actions) ==> sc_wf(m),
{
    assert forall|m: SubClass<R>|
        (m.name@ == parent.name@ && m.help@ == parent.help@ && m.classes@ == parent.classes@
            && m.actions@ == new_actions) implies sc_wf(m) by {
        let pa = parent.actions@;
        assert(forall|i: int|
            0 <= i < pa.len() ==> new_actions[i] == pa.take(pa.len() as int)[i]);
        assert(forall|i: int| 0 <= i < pa.len() ==> pa.take(pa.len() as int)[i] == pa[i]);
        assert(new_actions[pa.len() as int] == new_actions.last());
    }
}

impl<R> BuilderChain<R> for Builder<R> {
    open spec fn chain_state(self) -> Result<Builder<R>, BuildError> {
        Ok(self)
    }

    fn begin_class(self, name: &str, help_msg: &str) -> (r: BuilderResult<R>) {
        match check_names(name, &self.current) {
            Err(e) => Err(e),
            Ok(()) => {
                let ghost old_self = self;
                let Builder { mut parents, current } = self;
                let fresh = SubClass::with_name(name, help_msg);
                parents.push(current);
                let b = Builder { parents, current: fresh };
                proof {
                    if old_self.wf() {
                        let ps = b.parents@;
                        assert(ps.last() == old_self.current);
                        assert(ps.drop_last() =~= old_self.parents@);
                        assert forall|i: int| 0 <= i < ps.len() implies sc_wf(#[trigger] ps[i]) by {
                            if i < ps.len() - 1 {
                                assert(ps[i] == old_self.parents@[i]);
                            }
                        }
                        assert(sc_wf(b.current));
                        assert forall|i: int| 0 <= i < ps.len() implies name_ok(
                            #[trigger] ps[i],
                            if i == ps.len() - 1 {
                                b.current.name@
                            } else {
                                ps[i + 1].name@
                            },
                        ) by {
                            if i < ps.len() - 1 {
                                assert(ps[i] == old_self.parents@[i]);
                                if i < ps.len() - 2 {
                                    assert(ps[i + 1] == old_self.parents@[i + 1]);
                                } else {
                                    assert(ps[i + 1] == old_self.current);
                                }
                            } else {
                                assert(ps[i] == old_self.current);
                            }
                        }
                        assert(b.wf());
                    }
                }
                Ok(b)
            },
        }
    }

    fn end_class(self) -> (r: BuilderResult<R>) {
        let ghost old_self = self;
        let Builder { mut parents, current } = self;
        match parents.pop() {
            None => Err(BuildError::NoParent),
            Some(mut parent) => {
                parent.classes.push(current);
                let b = Builder { parents, current: parent };
                proof {
                    let ops = old_self.parents@;
                    assert(b.parents@ =~= ops.drop_last());
                    assert(ops.last().classes@.push(old_self.current) == b.current.classes@);
                    if old_self.wf() {
                        assert(sc_wf(ops[ops.len() - 1]));
                        assert(name_ok(ops[ops.len() - 1], old_self.current.name@));
                        lemma_wf_push_class(ops.last(), old_self.current);
                        assert(sc_wf(b.current));
                        assert forall|i: int| 0 <= i < b.parents@.len() implies name_ok(
                            #[trigger] b.parents@[i],
                            if i == b.parents@.len() - 1 {
                                b.current.name@
                            } else {
                                b.parents@[i + 1].name@
                            },
                        ) by {
                            assert(b.parents@[i] == ops[i]);
                            if i < b.parents@.len() - 1 {
                                assert(b.parents@[i + 1] == ops[i + 1]);
                            } else {
                                assert(b.current.name@ == ops[i + 1].name@);
                            }
                        }
                        assert(b.wf());
                    }
                }
                Ok(b)
            },
        }
    }

    fn add_action<F: FnMut(&mut String, &[&str]) -> R + Send + 'static>(
        self,
        name: &str,
        help_msg: &str,
        closure: F,
    ) -> (r: BuilderResult<R>) {
        match check_names(name, &self.current) {
            Err(e) => Err(e),
            Ok(()) => {
                let ghost old_self = self;
                let Builder { parents, mut current } = self;
                let act = Action {
                    name: crate::strings::to_lowercase(name),
                    help: CmdStr::from_text(help_msg),
                    closure: ActionClosure::new(closure),
                };
                current.actions.push(act);
                let b = Builder { parents, current };
                proof {
                    let pa = old_self.current.actions@;
                    assert(b.current.actions@.take(pa.len() as int) =~= pa);
                    if old_self.wf() {
                        assert(name_ok(old_self.current, lower_of(name@)));
                        lemma_wf_push_action(
                            old_self.current,
                            lower_of(name@),
                            b.current.actions@,
                        );
                        assert(sc_wf(b.current));
                        assert(b.wf());
                    }
                }
                Ok(b)
            },
        }
    }

    fn root(self) -> (r: BuilderResult<R>) {
        let ghost orig = self;
        let mut b = self;
        proof {
            assert(closes_to(Seq::<SubClass<R>>::empty(), b.current, b.current));
        }
        while b.parents.len() != 0
            invariant
                forall|rt: SubClass<R>|
                    closes_to(b.parents@, b.current, rt) ==> closes_to(
                        orig.parents@,
                        orig.current,
                        rt,
                    ),
                orig.wf() ==> b.wf(),
            decreases b.parents@.len(),
        {
            let ghost prev = b;
            match b.end_class() {
                Ok(nb) => {
                    b = nb;
                    proof {
                        assert forall|rt: SubClass<R>|
                            closes_to(b.parents@, b.current, rt) implies closes_to(
                            prev.parents@,
                            prev.current,
                            rt,
                        ) by {
                            assert(prev.parents@.drop_last() == b.parents@);
                            assert(closes_to(
                                prev.parents@.drop_last(),
                                b.current,
                                rt,
                            ));
                        }
                    }
                },
                Err(e) => {
                    proof {
                        assert(false);
                    }
                    return Err(e);
                },
            }
        }
        proof {
            assert(b.parents@ =~= Seq::<SubClass<R>>::empty());
            assert(closes_to(b.parents@, b.current, b.current));
        }
        Ok(b)
    }

    fn into_commander(self) -> (r: Result<Commander<R>, BuildError>) {
        let ghost orig = self;
        match self.root() {
            Err(e) => {
                proof {
                    assert(false);
                }
                Err(e)
            },
            Ok(b) => {
                let path = String::from_str(b.current.name.as_str());
                let c = Commander { root: b.current, cursor: Vec::new(), path };
                proof {
                    assert(c.cursor@ =~= Seq::<usize>::empty());
                    assert(path_of(c.root, c.cursor@) == c.root.name@);
                    assert(valid_cursor(c.root, c.cursor@));
                }
                Ok(c)
            },
        }
    }
}

impl<R> BuilderChain<R> for BuilderResult<R> {
    open spec fn chain_state(self) -> Result<Builder<R>, BuildError> {
        self
    }

    fn begin_class(self, name: &str, help_msg: &str) -> (r: BuilderResult<R>) {
        match self {
            Ok(b) => b.begin_class(name, help_msg),
            Err(e) => Err(e),
        }
    }

    fn end_class(self) -> (r: BuilderResult<R>) {
        match self {
            Ok(b) => b.end_class(),
            Err(e) => Err(e),
        }
    }

    fn add_action<F: FnMut(&mut String, &[&str]) -> R + Send + 'static>(
        self,
        name: &str,
        help_msg: &str,
        closure: F,
    ) -> (r: BuilderResult<R>) {
        match self {
            Ok(b) => b.add_action(name, help_msg, closure),
            Err(e) => Err(e),
        }
    }

    fn root(self) -> (r: BuilderResult<R>) {
        match self {
            Ok(b) => b.root(),
            Err(e) => Err(e),
        }
    }

    fn into_commander(self) -> (r: Result<Commander<R>, BuildError>) {
        match self {
            Ok(b) => b.into_commander(),
            Err(e) => Err(e),
        }
    }
}

} // verus!
