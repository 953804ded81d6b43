//! The description of a tree as a parser hands it over: named trees whose
//! nodes are nested, leaves and sub-trees called by name.

use vstd::prelude::*;

verus! {

/// A decorator as a description names it.
#[derive(Debug, PartialEq, Eq)]
pub enum Wrapper {
    /// Swaps success and failure.
    Invert,
    /// Ticks a failed child again, up to the given number of times.
    Retry(u64),
    /// Fails once the child has been `Running` on more than the given number
    /// of ticks.
    Timeout(u64),
    /// Ticks the child again while the condition registered under the name
    /// holds.
    RepeatWhile(String),
}

/// A node of a description, with the nodes below it.
#[derive(Debug, PartialEq, Eq)]
pub enum Shape {
    /// A sequence of the children.
    Sequence(Vec<Shape>),
    /// A fallback over the children.
    Fallback(Vec<Shape>),
    /// A parallel node over the children, with the number of successes with
    /// which it succeeds and the number of failures with which it fails.
    Parallel(usize, usize, Vec<Shape>),
    /// A decorator over its child.
    Decorator(Wrapper, Vec<Shape>),
    /// A call by name: of another tree of the description, which is then
    /// included in place, or else of a leaf of the registry.
    Call(String),
}

/// A named tree of a description.
#[derive(Debug, PartialEq, Eq)]
pub struct Definition {
    /// The name under which the tree is called and selected.
    pub name: String,
    /// Whether the tree can be the root of a graph.
    pub root: bool,
    /// The tree itself.
    pub body: Shape,
}

/// A description: the trees of a project.
#[derive(Debug, PartialEq, Eq)]
pub struct Description {
    pub definitions: Vec<Definition>,
}

/// Why a description cannot be built into a graph.
#[derive(Clone, Copy, Debug, PartialEq, Eq)]
pub enum BuildError {
    /// A call names neither a tree nor a leaf of the registry, or a
    /// decorator names no condition of the registry.
    UnknownAction,
    /// A decorator has not exactly one child, or a sequence, a fallback or
    /// a parallel node has none.
    ArityMismatch,
    /// The root cannot be told: none is named and the description has not
    /// exactly one root tree, or the name given is that of no root tree.
    AmbiguousRoot,
    /// Two trees of the description have the same name.
    DuplicateRoot,
    /// A tree includes itself, directly or through the trees it calls.
    CyclicReference,
}

/// Tells whether a tree of the name is defined.
pub open spec fn defined(definitions: Seq<Definition>, name: Seq<char>) -> bool {
    exists|i: int| 0 <= i < definitions.len() && #[trigger] definitions[i].name@ == name
}

/// The place of the tree of the name, where one is defined.
pub open spec fn definition_of(definitions: Seq<Definition>, name: Seq<char>) -> int {
    choose|i: int| 0 <= i < definitions.len() && #[trigger] definitions[i].name@ == name
}

/// No two trees have the same name.
pub open spec fn distinct_trees(definitions: Seq<Definition>) -> bool {
    forall|i: int, j: int|
        0 <= i < j < definitions.len() ==> #[trigger] definitions[i].name@
            != #[trigger] definitions[j].name@
}

/// The one root tree of the description, where it has exactly one.
pub open spec fn sole_root(definitions: Seq<Definition>) -> Option<int> {
    if exists|i: int| is_sole_root(definitions, i) {
        Some(choose|i: int| is_sole_root(definitions, i))
    } else {
        None
    }
}

/// The tree at place `i` is a root tree, and no other is.
pub open spec fn is_sole_root(definitions: Seq<Definition>, i: int) -> bool {
    &&& 0 <= i < definitions.len()
    &&& definitions[i].root
    &&& forall|j: int| 0 <= j < definitions.len() && (#[trigger] definitions[j]).root ==> j == i
}

/// The tree that is the root of the graph: the root tree of the name given,
/// or, where none is given, the only root tree.
pub open spec fn selected(definitions: Seq<Definition>, root: Option<Seq<char>>) -> Option<int> {
    match root {
        Some(name) => if defined(definitions, name) && definitions[definition_of(
            definitions,
            name,
        )].root {
            Some(definition_of(definitions, name))
        } else {
            None
        },
        None => sole_root(definitions),
    }
}

/// A tree is found at its place.
pub proof fn lemma_definition_of(definitions: Seq<Definition>, i: int)
    requires
        distinct_trees(definitions),
        0 <= i < definitions.len(),
    ensures
        defined(definitions, definitions[i].name@),
        definition_of(definitions, definitions[i].name@) == i,
{
    let name = definitions[i].name@;
    let p = definition_of(definitions, name);
    assert(definitions[p].name@ == name);
    if p < i {
        assert(definitions[p].name@ != definitions[i].name@);
    } else if i < p {
        assert(definitions[i].name@ != definitions[p].name@);
    }
}

} // verus!
