//! The registry: the names of the leaves and what is bound to each.

use vstd::prelude::*;
use vstd::string::*;
use crate::leaf::{Implementation, Predicate, Routine};
use crate::status::RuntimeError;

verus! {

/// A name with the implementation bound to it.
#[derive(Debug)]
pub struct Binding {
    pub name: String,
    pub implementation: Implementation,
}

/// Why a name cannot be registered.
#[derive(Clone, Copy, Debug, PartialEq, Eq)]
pub enum RegistryError {
    /// The name is bound already.
    DuplicateName,
}

/// Tells whether `name` is bound among `bindings`.
pub open spec fn bound(bindings: Seq<Binding>, name: Seq<char>) -> bool {
    exists|i: int| 0 <= i < bindings.len() && #[trigger] bindings[i].name@ == name
}

/// The place of `name` among `bindings`, where it is bound.
pub open spec fn slot(bindings: Seq<Binding>, name: Seq<char>) -> int {
    choose|i: int| 0 <= i < bindings.len() && #[trigger] bindings[i].name@ == name
}

/// No name is bound twice among `bindings`.
pub open spec fn distinct_names(bindings: Seq<Binding>) -> bool {
    forall|i: int, j: int|
        0 <= i < j < bindings.len() ==> #[trigger] bindings[i].name@ != #[trigger] bindings[j].name@
}

/// A bound name is found at its place.
pub proof fn lemma_slot(bindings: Seq<Binding>, i: int)
    requires
        distinct_names(bindings),
        0 <= i < bindings.len(),
    ensures
        bound(bindings, bindings[i].name@),
        slot(bindings, bindings[i].name@) == i,
{
    let name = bindings[i].name@;
    let p = slot(bindings, name);
    assert(bindings[p].name@ == name);
    if p < i {
        assert(bindings[p].name@ != bindings[i].name@);
    } else if i < p {
        assert(bindings[i].name@ != bindings[p].name@);
    }
}

/// The names of the built-in leaves, in the order of the standard registry.
pub open spec fn builtin_names() -> Seq<Seq<char>> {
    seq!["success"@, "fail"@, "always"@, "never"@]
}

/// The signatures of the built-in leaves: for each its kind, its name and its
/// parameters.
pub open spec fn builtin_signatures() -> Seq<Seq<char>> {
    seq!["action success()"@, "action fail()"@, "condition always()"@, "condition never()"@]
}

/// The names of the built-in leaves differ.
proof fn lemma_builtin_names()
    ensures
        "success"@.len() == 7,
        "fail"@.len() == 4,
        "always"@.len() == 6,
        "never"@.len() == 5,
{
    reveal_strlit("success");
    reveal_strlit("fail");
    reveal_strlit("always");
    reveal_strlit("never");
}

/// Lists the built-in leaves: each with its name and its signature.
pub fn list_builtin_actions() -> (listing: Vec<(String, String)>)
    ensures
        listing@.len() == builtin_names().len(),
        forall|i: int|
            0 <= i < listing@.len() ==> (#[trigger] listing@[i]).0@ == builtin_names()[i]
                && listing@[i].1@ == builtin_signatures()[i],
{
    let mut listing: Vec<(String, String)> = Vec::new();
    listing.push((String::from_str("success"), String::from_str("action success()")));
    listing.push((String::from_str("fail"), String::from_str("action fail()")));
    listing.push((String::from_str("always"), String::from_str("condition always()")));
    listing.push((String::from_str("never"), String::from_str("condition never()")));
    listing
}

/// The implementations of the leaves, each under its name.
#[derive(Debug)]
pub struct Registry {
    bindings: Vec<Binding>,
}

impl Registry {
    /// The bindings, in the order in which they were registered.
    pub closed spec fn bindings(&self) -> Seq<Binding> {
        self.bindings@
    }

    /// The invariant of the registry: no name is bound twice.
    pub open spec fn wf(&self) -> bool {
        distinct_names(self.bindings())
    }

    /// A registry without bindings.
    pub fn new() -> (registry: Registry)
        ensures
            registry.wf(),
            registry.bindings().len() == 0,
    {
        Registry { bindings: Vec::new() }
    }

    /// The standard registry: the built-in leaves under their names.
    /// `success` is an action that succeeds at once and `fail` one that
    /// fails at once, with code 0; `always` is a condition that holds and
    /// `never` one that does not.
    pub fn standard() -> (registry: Registry)
        ensures
            registry.wf(),
            registry.bindings().len() == builtin_names().len(),
            forall|i: int|
                0 <= i < registry.bindings().len() ==> (#[trigger] registry.bindings()[i]).name@
                    == builtin_names()[i],
            registry.bindings()[0].implementation == Implementation::Action(Routine::Succeed),
            registry.bindings()[1].implementation == Implementation::Action(Routine::Fail(0)),
            registry.bindings()[2].implementation == Implementation::Condition(Predicate::Always),
            registry.bindings()[3].implementation == Implementation::Condition(Predicate::Never),
    {
        let mut bindings: Vec<Binding> = Vec::new();
        bindings.push(
            Binding {
                name: String::from_str("success"),
                implementation: Implementation::Action(Routine::Succeed),
            },
        );
        bindings.push(
            Binding {
                name: String::from_str("fail"),
                implementation: Implementation::Action(Routine::Fail(0)),
            },
        );
        bindings.push(
            Binding {
                name: String::from_str("always"),
                implementation: Implementation::Condition(Predicate::Always),
            },
        );
        bindings.push(
            Binding {
                name: String::from_str("never"),
                implementation: Implementation::Condition(Predicate::Never),
            },
        );
        proof {
            lemma_builtin_names();
        }
        Registry { bindings }
    }

    /// The number of bindings.
    pub fn len(&self) -> (n: usize)
        ensures
            n == self.bindings().len(),
    {
        self.bindings.len()
    }

    /// The binding at `place`.
    pub fn binding(&self, place: usize) -> (b: &Binding)
        requires
            place < self.bindings().len(),
        ensures
            *b == self.bindings()[place as int],
    {
        &self.bindings[place]
    }

    /// The place of `name`, where it is bound.
    pub fn find(&self, name: &str) -> (r: Option<usize>)
        requires
            self.wf(),
        ensures
            match r {
                Some(i) => bound(self.bindings(), name@) && i == slot(self.bindings(), name@) && i
                    < self.bindings().len() && self.bindings()[i as int].name@ == name@,
                None => !bound(self.bindings(), name@),
            },
    {
        let wanted = String::from_str(name);
        let mut i: usize = 0;
        while i < self.bindings.len()
            invariant
                self.wf(),
                wanted@ == name@,
                i <= self.bindings@.len(),
                forall|j: int| 0 <= j < i ==> (#[trigger] self.bindings@[j]).name@ != wanted@,
            decreases self.bindings@.len() - i,
        {
            if self.bindings[i].name == wanted {
                proof {
                    lemma_slot(self.bindings@, i as int);
                }
                return Some(i);
            }
            i = i + 1;
        }
        None
    }

    /// Binds `implementation` to `name`. Fails with `DuplicateName`, and
    /// changes nothing, where the name is bound already.
    pub fn register(&mut self, name: &str, implementation: Implementation) -> (r: Result<
        (),
        RegistryError,
    >)
        requires
            old(self).wf(),
        ensures
            final(self).wf(),
            match r {
                Ok(_) => {
                    &&& !bound(old(self).bindings(), name@)
                    &&& final(self).bindings().len() == old(self).bindings().len() + 1
                    &&& final(self).bindings().drop_last() == old(self).bindings()
                    &&& final(self).bindings().last().name@ == name@
                    &&& final(self).bindings().last().implementation == implementation
                },
                Err(e) => {
                    &&& bound(old(self).bindings(), name@)
                    &&& final(self).bindings() == old(self).bindings()
                    &&& e == RegistryError::DuplicateName
                },
            },
    {
        match self.find(name) {
            Some(_) => Err(RegistryError::DuplicateName),
            None => {
                let ghost before = self.bindings@;
                self.bindings.push(Binding { name: String::from_str(name), implementation });
                proof {
                    let after = self.bindings@;
                    assert(after.drop_last() =~= before);
                    assert forall|a: int, b: int| 0 <= a < b < after.len() implies after[a].name@
                        != after[b].name@ by {
                        if b < before.len() {
                            assert(before[a].name@ != before[b].name@);
                        } else {
                            assert(before[a].name@ == after[a].name@);
                        }
                    }
                }
                Ok(())
            },
        }
    }

    /// The implementation bound to `name`. Fails with
    /// `RegistryUnknownAction` where the name is not bound.
    pub fn resolve(&self, name: &str) -> (r: Result<&Implementation, RuntimeError>)
        requires
            self.wf(),
        ensures
            match r {
                Ok(implementation) => bound(self.bindings(), name@) && *implementation
                    == self.bindings()[slot(self.bindings(), name@)].implementation,
                Err(e) => !bound(self.bindings(), name@) && e
                    == RuntimeError::RegistryUnknownAction,
            },
    {
        match self.find(name) {
            Some(i) => Ok(&self.bindings[i].implementation),
            None => Err(RuntimeError::RegistryUnknownAction),
        }
    }
}

} // verus!
