//! The builder: from a description and a registry to a graph that can be
//! ticked.
//!
//! The tree that is selected as the root is laid out in post-order, the
//! trees that it calls included in place. The description is walked depth
//! first, the parent before its children, and the first fault met is the
//! error of the build.

use vstd::prelude::*;
use vstd::string::*;
use vstd::std_specs::vec::axiom_vec_index_decreases;
use crate::blackboard::Blackboard;
use crate::description::{
    defined, definition_of, distinct_trees, is_sole_root, lemma_definition_of, selected, sole_root,
    BuildError, Definition, Description, Shape, Wrapper,
};
use crate::graph::{
    node_settled, settled, Decorator, Graph, Node, NodeKind, NodeState, Plan, World,
};
use crate::leaf::Implementation;
use crate::registry::{bound, slot, Binding, Registry};

verus! {

/// A node as contracts see it.
pub struct Outline {
    pub kind: NodeKind,
    pub children: Seq<usize>,
    pub first: usize,
}

impl Node {
    /// The node as contracts see it.
    pub open spec fn outline(&self) -> Outline {
        Outline { kind: self.kind, children: self.children@, first: self.first }
    }
}

/// The nodes as contracts see them.
pub open spec fn outlines(nodes: Seq<Node>) -> Seq<Outline> {
    Seq::new(nodes.len(), |i: int| nodes[i].outline())
}

/// What a description is built against.
pub struct Context {
    pub definitions: Seq<Definition>,
    pub bindings: Seq<Binding>,
}

/// A stretch of the arena: the subtrees of some children of one node, and
/// the roots of those subtrees.
pub struct Fragment {
    pub nodes: Seq<Outline>,
    pub roots: Seq<usize>,
}

/// The kind of the leaf that is bound to `name`, where one is.
pub open spec fn leaf_kind(bindings: Seq<Binding>, name: Seq<char>) -> Option<NodeKind> {
    if bound(bindings, name) {
        let b = slot(bindings, name);
        match bindings[b].implementation {
            Implementation::Condition(_) => Some(NodeKind::Condition(b as usize)),
            Implementation::Action(_) => Some(NodeKind::Action(b as usize)),
        }
    } else {
        None
    }
}

/// The decorator that `wrapper` names, where the condition it speaks of is
/// registered.
pub open spec fn decorator_of(bindings: Seq<Binding>, wrapper: Wrapper) -> Option<Decorator> {
    match wrapper {
        Wrapper::Invert => Some(Decorator::Invert),
        Wrapper::Retry(limit) => Some(Decorator::Retry(limit)),
        Wrapper::Timeout(limit) => Some(Decorator::Timeout(limit)),
        Wrapper::RepeatWhile(name) => match leaf_kind(bindings, name@) {
            Some(NodeKind::Condition(b)) => Some(Decorator::RepeatWhile(b)),
            _ => None,
        },
    }
}

/// The subtrees of the children with their parent, of kind `kind`, put
/// after them. The subtree begins at `base`.
pub open spec fn crowned(kind: NodeKind, below: Result<Fragment, BuildError>, base: int) -> Result<
    Seq<Outline>,
    BuildError,
> {
    match below {
        Ok(fragment) => Ok(
            fragment.nodes.push(Outline { kind, children: fragment.roots, first: base as usize }),
        ),
        Err(e) => Err(e),
    }
}

/// The nodes that `shape` is laid out as, the first of them at `base` of
/// the arena, or the first fault met. `path` holds the trees that are being
/// included: a call of one of them closes a cycle.
pub open spec fn expand(ctx: Context, shape: Shape, path: Seq<usize>, base: int) -> Result<
    Seq<Outline>,
    BuildError,
>
    decreases ctx.definitions.len() - path.len(), shape, 0int,
{
    let none = Fragment { nodes: Seq::empty(), roots: Seq::empty() };
    match shape {
        Shape::Sequence(children) => if children@.len() == 0 {
            Err(BuildError::ArityMismatch)
        } else {
            crowned(NodeKind::Sequence, expand_all(ctx, children@, 0, path, base, none), base)
        },
        Shape::Fallback(children) => if children@.len() == 0 {
            Err(BuildError::ArityMismatch)
        } else {
            crowned(NodeKind::Fallback, expand_all(ctx, children@, 0, path, base, none), base)
        },
        Shape::Parallel(succeed, fail, children) => if children@.len() == 0 {
            Err(BuildError::ArityMismatch)
        } else {
            crowned(
                NodeKind::Parallel { succeed, fail },
                expand_all(ctx, children@, 0, path, base, none),
                base,
            )
        },
        Shape::Decorator(wrapper, children) => if children@.len() != 1 {
            Err(BuildError::ArityMismatch)
        } else {
            match decorator_of(ctx.bindings, wrapper) {
                Some(decorator) => crowned(
                    NodeKind::Decorator(decorator),
                    expand_all(ctx, children@, 0, path, base, none),
                    base,
                ),
                None => Err(BuildError::UnknownAction),
            }
        },
        Shape::Call(name) => if defined(ctx.definitions, name@) {
            let d = definition_of(ctx.definitions, name@);
            if path.contains(d as usize) || path.len() >= ctx.definitions.len() {
                Err(BuildError::CyclicReference)
            } else {
                expand(ctx, ctx.definitions[d].body, path.push(d as usize), base)
            }
        } else {
            match leaf_kind(ctx.bindings, name@) {
                Some(kind) => Ok(seq![Outline { kind, children: Seq::empty(), first: base as usize }]),
                None => Err(BuildError::UnknownAction),
            }
        },
    }
}

/// The subtrees of the children from position `k` on, laid out one after
/// the other behind those in `done`, the first of which stands at `base`.
pub open spec fn expand_all(
    ctx: Context,
    shapes: Seq<Shape>,
    k: int,
    path: Seq<usize>,
    base: int,
    done: Fragment,
) -> Result<Fragment, BuildError>
    decreases ctx.definitions.len() - path.len(), shapes, shapes.len() - k,
{
    if 0 <= k < shapes.len() {
        match expand(ctx, shapes[k], path, base + done.nodes.len()) {
            Ok(nodes) => expand_all(
                ctx,
                shapes,
                k + 1,
                path,
                base,
                Fragment {
                    nodes: done.nodes + nodes,
                    roots: done.roots.push((base + done.nodes.len() + nodes.len() - 1) as usize),
                },
            ),
            Err(e) => Err(e),
        }
    } else {
        Ok(done)
    }
}

/// The arena that a description is built into, or the error of the build:
/// `DuplicateRoot` where two trees share a name; else `AmbiguousRoot` where
/// the root cannot be told; else the first fault met in the root tree.
pub open spec fn built(
    definitions: Seq<Definition>,
    bindings: Seq<Binding>,
    root: Option<Seq<char>>,
) -> Result<Seq<Outline>, BuildError> {
    if !distinct_trees(definitions) {
        Err(BuildError::DuplicateRoot)
    } else {
        match selected(definitions, root) {
            Some(d) => expand(
                Context { definitions, bindings },
                definitions[d].body,
                seq![d as usize],
                0,
            ),
            None => Err(BuildError::AmbiguousRoot),
        }
    }
}

/// What a description and a registry are built against.
pub open spec fn context_of(definitions: &Vec<Definition>, registry: &Registry) -> Context {
    Context { definitions: definitions@, bindings: registry.bindings() }
}

/// The nodes of the arena from `base` on, as contracts see them.
pub open spec fn added(nodes: Seq<Node>, base: int) -> Seq<Outline> {
    outlines(nodes.subrange(base, nodes.len() as int))
}

/// The nodes from `lo` up to `hi`, without `hi`, obey the rules of the arena.
pub open spec fn range_wf(nodes: Seq<Node>, bindings: Seq<Binding>, lo: int, hi: int) -> bool {
    forall|id: int|
        lo <= id < hi ==> #[trigger] (Plan { nodes, bindings }).kind_wf(id) && (Plan {
            nodes,
            bindings,
        }).layout_wf(id)
}

/// The roots of the subtrees of some children, laid out from `base` on in
/// an arena that ends with the last of them.
pub open spec fn chained(nodes: Seq<Node>, roots: Seq<usize>, base: int) -> bool {
    &&& forall|j: int| 0 <= j < roots.len() ==> base <= #[trigger] roots[j] < nodes.len()
    &&& forall|j: int|
        0 <= j < roots.len() ==> (#[trigger] nodes[roots[j] as int]).first == if j == 0 {
            base
        } else {
            roots[j - 1] + 1
        }
    &&& roots.len() > 0 ==> roots.last() == nodes.len() - 1
    &&& roots.len() == 0 ==> nodes.len() == base
}

/// Nodes keep obeying the rules of the arena when nodes are put behind them.
proof fn lemma_range_kept(
    before: Seq<Node>,
    after: Seq<Node>,
    bindings: Seq<Binding>,
    lo: int,
    hi: int,
)
    requires
        before.len() <= after.len(),
        after.subrange(0, before.len() as int) == before,
        0 <= lo,
        hi <= before.len(),
        range_wf(before, bindings, lo, hi),
    ensures
        range_wf(after, bindings, lo, hi),
{
    let p = Plan { nodes: before, bindings };
    let q = Plan { nodes: after, bindings };
    assert forall|id: int| 0 <= id < before.len() implies after[id] == before[id] by {
        assert(after.subrange(0, before.len() as int)[id] == after[id]);
    }
    assert forall|id: int| lo <= id < hi implies #[trigger] q.kind_wf(id) && q.layout_wf(id) by {
        assert(p.kind_wf(id));
        assert(p.layout_wf(id));
        assert(q.nodes[id] == p.nodes[id]);
        assert forall|k: int| 0 <= k < q.arity(id) implies 0 <= #[trigger] q.child(id, k) < id by {
            assert(0 <= p.child(id, k) < id);
        }
        assert forall|k: int| 0 <= k < q.arity(id) - 1 implies q.first(
            #[trigger] q.child(id, k + 1),
        ) == q.child(id, k) + 1 by {
            assert(0 <= p.child(id, k + 1) < id);
            assert(p.first(p.child(id, k + 1)) == p.child(id, k) + 1);
        }
        if q.arity(id) > 0 {
            assert(0 <= p.child(id, 0) < id);
        }
    }
}

/// Tells whether no two trees have the same name.
fn names_distinct(definitions: &Vec<Definition>) -> (r: bool)
    ensures
        r == distinct_trees(definitions@),
{
    let mut j: usize = 0;
    while j < definitions.len()
        invariant
            j <= definitions@.len(),
            forall|a: int, b: int|
                0 <= a < b < j ==> #[trigger] definitions@[a].name@
                    != #[trigger] definitions@[b].name@,
        decreases definitions@.len() - j,
    {
        let mut i: usize = 0;
        while i < j
            invariant
                i <= j < definitions@.len(),
                forall|a: int| 0 <= a < i ==> #[trigger] definitions@[a].name@ != definitions@[j as int].name@,
            decreases j - i,
        {
            if definitions[i].name == definitions[j].name {
                return false;
            }
            i = i + 1;
        }
        j = j + 1;
    }
    true
}

/// The place of the tree of the name, where one is defined.
fn find_definition(definitions: &Vec<Definition>, name: &String) -> (r: Option<usize>)
    requires
        distinct_trees(definitions@),
    ensures
        match r {
            Some(d) => defined(definitions@, name@) && d == definition_of(definitions@, name@) && d
                < definitions@.len(),
            None => !defined(definitions@, name@),
        },
{
    let mut i: usize = 0;
    while i < definitions.len()
        invariant
            distinct_trees(definitions@),
            i <= definitions@.len(),
            forall|j: int| 0 <= j < i ==> (#[trigger] definitions@[j]).name@ != name@,
        decreases definitions@.len() - i,
    {
        if definitions[i].name == *name {
            proof {
                lemma_definition_of(definitions@, i as int);
            }
            return Some(i);
        }
        i = i + 1;
    }
    None
}

/// The only root tree, where there is exactly one.
fn find_sole_root(definitions: &Vec<Definition>) -> (r: Option<usize>)
    ensures
        match r {
            Some(d) => sole_root(definitions@) == Some(d as int),
            None => sole_root(definitions@) is None,
        },
{
    let mut found: Option<usize> = None;
    let mut i: usize = 0;
    while i < definitions.len()
        invariant
            i <= definitions@.len(),
            match found {
                Some(d) => d < i && definitions@[d as int].root && forall|j: int|
                    0 <= j < i && (#[trigger] definitions@[j]).root ==> j == d,
                None => forall|j: int| 0 <= j < i ==> !(#[trigger] definitions@[j]).root,
            },
        decreases definitions@.len() - i,
    {
        if definitions[i].root {
            match found {
                Some(d) => {
                    proof {
                        assert forall|c: int| !is_sole_root(definitions@, c) by {
                            if is_sole_root(definitions@, c) {
                                assert(definitions@[d as int].root);
                                assert(definitions@[i as int].root);
                            }
                        }
                    }
                    return None;
                },
                None => {
                    found = Some(i);
                },
            }
        }
        i = i + 1;
    }
    proof {
        match found {
            Some(d) => {
                assert(is_sole_root(definitions@, d as int));
                let c = choose|c: int| is_sole_root(definitions@, c);
                assert(definitions@[d as int].root);
            },
            None => {
                assert forall|c: int| !is_sole_root(definitions@, c) by {
                    if is_sole_root(definitions@, c) {
                        assert(!definitions@[c].root);
                    }
                }
            },
        }
    }
    found
}

/// The name as contracts see it.
pub open spec fn name_view(name: Option<&str>) -> Option<Seq<char>> {
    match name {
        Some(n) => Some(n@),
        None => None,
    }
}

/// Selects the root tree.
fn select_root(definitions: &Vec<Definition>, root_name: Option<&str>) -> (r: Option<usize>)
    requires
        distinct_trees(definitions@),
    ensures
        match r {
            Some(d) => selected(definitions@, name_view(root_name)) == Some(d as int) && d
                < definitions@.len(),
            None => selected(definitions@, name_view(root_name)) is None,
        },
{
    match root_name {
        Some(name) => {
            let wanted = String::from_str(name);
            match find_definition(definitions, &wanted) {
                Some(d) => {
                    if definitions[d].root {
                        Some(d)
                    } else {
                        None
                    }
                },
                None => None,
            }
        },
        None => {
            let r = find_sole_root(definitions);
            proof {
                if r is Some {
                    let c = choose|c: int| is_sole_root(definitions@, c);
                    assert(is_sole_root(definitions@, c));
                }
            }
            r
        },
    }
}

/// The kind of the leaf bound to `name`, where one is.
fn leaf_for(registry: &Registry, name: &str) -> (r: Option<NodeKind>)
    requires
        registry.wf(),
    ensures
        r == leaf_kind(registry.bindings(), name@),
        match r {
            Some(NodeKind::Action(b)) => b < registry.bindings().len()
                && registry.bindings()[b as int].implementation is Action,
            Some(NodeKind::Condition(b)) => b < registry.bindings().len()
                && registry.bindings()[b as int].implementation is Condition,
            Some(_) => false,
            None => true,
        },
{
    match registry.find(name) {
        Some(b) => match &registry.binding(b).implementation {
            Implementation::Condition(_) => Some(NodeKind::Condition(b)),
            Implementation::Action(_) => Some(NodeKind::Action(b)),
        },
        None => None,
    }
}

/// The decorator that `wrapper` names, where its condition is registered.
fn decorator_for(registry: &Registry, wrapper: &Wrapper) -> (r: Option<Decorator>)
    requires
        registry.wf(),
    ensures
        r == decorator_of(registry.bindings(), *wrapper),
        r matches Some(Decorator::RepeatWhile(b)) ==> b < registry.bindings().len()
            && registry.bindings()[b as int].implementation is Condition,
{
    match wrapper {
        Wrapper::Invert => Some(Decorator::Invert),
        Wrapper::Retry(limit) => Some(Decorator::Retry(*limit)),
        Wrapper::Timeout(limit) => Some(Decorator::Timeout(*limit)),
        Wrapper::RepeatWhile(name) => match leaf_for(registry, name.as_str()) {
            Some(NodeKind::Condition(b)) => Some(Decorator::RepeatWhile(b)),
            _ => None,
        },
    }
}

/// Tells whether the tree at place `d` is being included.
fn on_path(path: &Vec<usize>, d: usize) -> (r: bool)
    ensures
        r == path@.contains(d),
{
    let mut i: usize = 0;
    while i < path.len()
        invariant
            i <= path@.len(),
            forall|j: int| 0 <= j < i ==> path@[j] != d,
        decreases path@.len() - i,
    {
        if path[i] == d {
            return true;
        }
        i = i + 1;
    }
    false
}

/// The arena `after` is the arena `before` with nodes put behind it.
pub open spec fn grown(before: Seq<Node>, after: Seq<Node>) -> bool {
    before.len() < after.len() && after.subrange(0, before.len() as int) == before
}

/// No children laid out yet.
pub open spec fn nothing() -> Fragment {
    Fragment { nodes: Seq::empty(), roots: Seq::empty() }
}

/// Lays out `shape` behind the nodes of the arena.
fn expand_shape(
    definitions: &Vec<Definition>,
    registry: &Registry,
    shape: &Shape,
    path: &mut Vec<usize>,
    nodes: &mut Vec<Node>,
) -> (r: Result<(), BuildError>)
    requires
        registry.wf(),
        distinct_trees(definitions@),
    ensures
        match r {
            Ok(_) => {
                &&& final(path)@ == old(path)@
                &&& grown(old(nodes)@, final(nodes)@)
                &&& expand(
                    context_of(definitions, registry),
                    *shape,
                    old(path)@,
                    old(nodes)@.len() as int,
                ) == Ok::<Seq<Outline>, BuildError>(added(final(nodes)@, old(nodes)@.len() as int))
                &&& range_wf(
                    final(nodes)@,
                    registry.bindings(),
                    old(nodes)@.len() as int,
                    final(nodes)@.len() as int,
                )
                &&& final(nodes)@.last().first == old(nodes)@.len()
            },
            Err(e) => expand(
                context_of(definitions, registry),
                *shape,
                old(path)@,
                old(nodes)@.len() as int,
            ) == Err::<Seq<Outline>, BuildError>(e),
        },
    decreases definitions@.len() - old(path)@.len(), *shape, 0nat,
{
    let base = nodes.len();
    match shape {
        Shape::Sequence(children) => {
            if children.len() == 0 {
                return Err(BuildError::ArityMismatch);
            }
            expand_composite(definitions, registry, NodeKind::Sequence, children, path, nodes)
        },
        Shape::Fallback(children) => {
            if children.len() == 0 {
                return Err(BuildError::ArityMismatch);
            }
            expand_composite(definitions, registry, NodeKind::Fallback, children, path, nodes)
        },
        Shape::Parallel(succeed, fail, children) => {
            if children.len() == 0 {
                return Err(BuildError::ArityMismatch);
            }
            expand_composite(
                definitions,
                registry,
                NodeKind::Parallel { succeed: *succeed, fail: *fail },
                children,
                path,
                nodes,
            )
        },
        Shape::Decorator(wrapper, children) => {
            if children.len() != 1 {
                return Err(BuildError::ArityMismatch);
            }
            match decorator_for(registry, wrapper) {
                Some(decorator) => expand_composite(
                    definitions,
                    registry,
                    NodeKind::Decorator(decorator),
                    children,
                    path,
                    nodes,
                ),
                None => Err(BuildError::UnknownAction),
            }
        },
        Shape::Call(name) => {
            match find_definition(definitions, name) {
                Some(d) => {
                    if on_path(path, d) || path.len() >= definitions.len() {
                        return Err(BuildError::CyclicReference);
                    }
                    path.push(d);
                    let r = expand_shape(definitions, registry, &definitions[d].body, path, nodes);
                    path.pop();
                    proof {
                        if r is Ok {
                            assert(path@ =~= old(path)@);
                        }
                    }
                    r
                },
                None => {
                    match leaf_for(registry, name.as_str()) {
                        Some(kind) => {
                            let ghost before = nodes@;
                            nodes.push(Node { kind, children: Vec::new(), first: base });
                            proof {
                                assert(nodes@.subrange(0, before.len() as int) =~= before);
                                assert(added(nodes@, base as int) =~= seq![
                                    Outline { kind, children: Seq::empty(), first: base },
                                ]);
                                let plan = Plan { nodes: nodes@, bindings: registry.bindings() };
                                assert(plan.kind_wf(base as int));
                                assert(plan.layout_wf(base as int));
                            }
                            Ok(())
                        },
                        None => Err(BuildError::UnknownAction),
                    }
                },
            }
        },
    }
}

/// Lays out the children of a node behind the nodes of the arena, and the
/// node itself, of kind `kind`, behind them.
fn expand_composite(
    definitions: &Vec<Definition>,
    registry: &Registry,
    kind: NodeKind,
    children: &Vec<Shape>,
    path: &mut Vec<usize>,
    nodes: &mut Vec<Node>,
) -> (r: Result<(), BuildError>)
    requires
        registry.wf(),
        distinct_trees(definitions@),
        children@.len() > 0,
        match kind {
            NodeKind::Sequence => true,
            NodeKind::Fallback => true,
            NodeKind::Parallel { .. } => true,
            NodeKind::Decorator(decorator) => children@.len() == 1 && (decorator matches Decorator::RepeatWhile(
                b,
            ) ==> b < registry.bindings().len()
                && registry.bindings()[b as int].implementation is Condition),
            _ => false,
        },
    ensures
        match r {
            Ok(_) => {
                &&& final(path)@ == old(path)@
                &&& grown(old(nodes)@, final(nodes)@)
                &&& crowned(
                    kind,
                    expand_all(
                        context_of(definitions, registry),
                        children@,
                        0,
                        old(path)@,
                        old(nodes)@.len() as int,
                        nothing(),
                    ),
                    old(nodes)@.len() as int,
                ) == Ok::<Seq<Outline>, BuildError>(added(final(nodes)@, old(nodes)@.len() as int))
                &&& range_wf(
                    final(nodes)@,
                    registry.bindings(),
                    old(nodes)@.len() as int,
                    final(nodes)@.len() as int,
                )
                &&& final(nodes)@.last().first == old(nodes)@.len()
            },
            Err(e) => crowned(
                kind,
                expand_all(
                    context_of(definitions, registry),
                    children@,
                    0,
                    old(path)@,
                    old(nodes)@.len() as int,
                    nothing(),
                ),
                old(nodes)@.len() as int,
            ) == Err::<Seq<Outline>, BuildError>(e),
        },
    decreases definitions@.len() - old(path)@.len(), *children, 1nat,
{
    let base = nodes.len();
    let ghost ctx = context_of(definitions, registry);
    let ghost goal = expand_all(ctx, children@, 0, path@, base as int, nothing());
    let mut roots: Vec<usize> = Vec::new();
    let mut k: usize = 0;
    proof {
        assert(added(nodes@, base as int) =~= Seq::<Outline>::empty());
        assert(nodes@.subrange(0, base as int) =~= nodes@);
    }
    while k < children.len()
        invariant
            registry.wf(),
            distinct_trees(definitions@),
            ctx == context_of(definitions, registry),
            k <= children@.len(),
            path@ == old(path)@,
            base == old(nodes)@.len(),
            base <= nodes@.len(),
            nodes@.subrange(0, base as int) == old(nodes)@,
            roots@.len() == k,
            chained(nodes@, roots@, base as int),
            range_wf(nodes@, registry.bindings(), base as int, nodes@.len() as int),
            expand_all(
                ctx,
                children@,
                k as int,
                path@,
                base as int,
                Fragment { nodes: added(nodes@, base as int), roots: roots@ },
            ) == goal,
            goal == expand_all(ctx, children@, 0, old(path)@, base as int, nothing()),
        decreases children@.len() - k,
    {
        let ghost before = nodes@;
        let ghost roots_before = roots@;
        proof {
            axiom_vec_index_decreases(*children, k as int);
        }
        match expand_shape(definitions, registry, &children[k], path, nodes) {
            Ok(_) => {
                roots.push(nodes.len() - 1);
                proof {
                    let mid = before.len() as int;
                    assert(added(nodes@, base as int) =~= added(before, base as int) + added(
                        nodes@,
                        mid,
                    )) by {
                        assert forall|i: int| 0 <= i < mid - base implies nodes@.subrange(
                            base as int,
                            nodes@.len() as int,
                        )[i] == before.subrange(base as int, mid)[i] by {
                            assert(nodes@.subrange(0, mid)[base + i] == nodes@[base + i]);
                        }
                    }
                    assert(nodes@.subrange(0, base as int) =~= old(nodes)@) by {
                        assert forall|i: int| 0 <= i < base implies nodes@[i] == old(nodes)@[i] by {
                            assert(nodes@.subrange(0, mid)[i] == nodes@[i]);
                            assert(before.subrange(0, base as int)[i] == before[i]);
                        }
                    }
                    lemma_range_kept(before, nodes@, registry.bindings(), base as int, mid);
                    assert forall|j: int| 0 <= j < roots@.len() implies base <= #[trigger] roots@[j]
                        < nodes@.len() && (nodes@[roots@[j] as int]).first == if j == 0 {
                        base as int
                    } else {
                        roots@[j - 1] + 1
                    } by {
                        if j < k {
                            assert(roots@[j] == roots_before[j]);
                            assert(nodes@.subrange(0, mid)[roots@[j] as int] == nodes@[roots@[j] as int]);
                            assert((before[roots_before[j] as int]).first == if j == 0 {
                                base as int
                            } else {
                                roots_before[j - 1] + 1
                            });
                        }
                    }
                }
            },
            Err(e) => {
                return Err(e);
            },
        }
        k = k + 1;
    }
    let ghost before = nodes@;
    let ghost below = roots@;
    nodes.push(Node { kind, children: roots, first: base });
    proof {
        let id = before.len() as int;
        assert(nodes@.subrange(0, id) =~= before);
        assert(added(nodes@, base as int) =~= added(before, base as int).push(
            Outline { kind, children: below, first: base },
        )) by {
            assert forall|i: int| 0 <= i < id - base implies nodes@.subrange(
                base as int,
                nodes@.len() as int,
            )[i] == before.subrange(base as int, id)[i] by {}
        }
        assert(nodes@.subrange(0, base as int) =~= old(nodes)@) by {
            assert forall|i: int| 0 <= i < base implies nodes@[i] == old(nodes)@[i] by {
                assert(before.subrange(0, base as int)[i] == before[i]);
            }
        }
        lemma_range_kept(before, nodes@, registry.bindings(), base as int, id);
        let plan = Plan { nodes: nodes@, bindings: registry.bindings() };
        assert(plan.kind_wf(id));
        assert(plan.layout_wf(id)) by {
            assert forall|j: int| 0 <= j < plan.arity(id) implies 0 <= #[trigger] plan.child(id, j)
                < id by {
                assert(base <= below[j] < before.len());
            }
            assert forall|j: int| 0 <= j < plan.arity(id) - 1 implies plan.first(
                #[trigger] plan.child(id, j + 1),
            ) == plan.child(id, j) + 1 by {
                assert((before[below[j + 1] as int]).first == below[j + 1 - 1] + 1);
            }
            assert((before[below[0] as int]).first == base);
        }
    }
    Ok(())
}

/// The world of a graph that was never ticked: no node holds running-state,
/// no leaf was invoked or has a forced report, and the blackboard is empty.
pub open spec fn initial_world(nodes: nat) -> World {
    World {
        states: Seq::new(nodes, |i: int| NodeState::initial()),
        board: Map::<Seq<char>, crate::blackboard::Datum>::empty(),
    }
}

/// Builds the graph of the tree that `root_name` selects, or of the only
/// root tree where no name is given. The registry goes into the graph.
///
/// Fails with `DuplicateRoot` where two trees of the description share a
/// name; else with `AmbiguousRoot` where the root cannot be told; else with
/// the first fault that the walk through the root tree meets:
/// `ArityMismatch` at a decorator that has not one child or at another
/// inner node without children, `UnknownAction` at a call or a condition
/// that the registry does not hold, `CyclicReference` at a call of a tree
/// that is being included.
pub fn build(description: &Description, registry: Registry, root_name: Option<&str>) -> (r: Result<
    Graph,
    BuildError,
>)
    requires
        registry.wf(),
    ensures
        match r {
            Ok(graph) => {
                &&& graph.wf()
                &&& built(description.definitions@, registry.bindings(), name_view(root_name))
                    == Ok::<Seq<Outline>, BuildError>(outlines(graph.plan().nodes))
                &&& graph.plan().bindings == registry.bindings()
                &&& graph.world() == initial_world(graph.plan().nodes.len())
            },
            Err(e) => built(description.definitions@, registry.bindings(), name_view(root_name))
                == Err::<Seq<Outline>, BuildError>(e),
        },
{
    let definitions = &description.definitions;
    if !names_distinct(definitions) {
        return Err(BuildError::DuplicateRoot);
    }
    let d = match select_root(definitions, root_name) {
        Some(d) => d,
        None => {
            return Err(BuildError::AmbiguousRoot);
        },
    };
    let mut path: Vec<usize> = Vec::new();
    path.push(d);
    let mut nodes: Vec<Node> = Vec::new();
    proof {
        assert(path@ =~= seq![d]);
    }
    match expand_shape(definitions, &registry, &definitions[d].body, &mut path, &mut nodes) {
        Err(e) => Err(e),
        Ok(_) => {
            let ghost plan = Plan { nodes: nodes@, bindings: registry.bindings() };
            proof {
                assert(added(nodes@, 0) =~= outlines(nodes@)) by {
                    assert(nodes@.subrange(0, nodes@.len() as int) =~= nodes@);
                }
                assert forall|id: int| 0 <= id < plan.nodes.len() implies #[trigger] plan.kind_wf(id)
                    && plan.layout_wf(id) by {
                    assert(range_wf(nodes@, registry.bindings(), 0, nodes@.len() as int));
                    assert(plan.kind_wf(id));
                    assert(plan.layout_wf(id));
                }
                assert(plan.nodes.len() > 0);
                assert(plan.nodes.last().first == 0);
                assert(plan.first(plan.root()) == 0);
                assert(plan.wf());
            }
            let mut states: Vec<NodeState> = Vec::new();
            let mut i: usize = 0;
            while i < nodes.len()
                invariant
                    i <= nodes@.len(),
                    states@.len() == i,
                    forall|j: int| 0 <= j < i ==> states@[j] == NodeState::initial(),
                decreases nodes@.len() - i,
            {
                states.push(
                    NodeState { active: false, cursor: 0, count: 0, invocations: 0, forced: None },
                );
                i = i + 1;
            }
            let graph = Graph { nodes, states, registry, board: Blackboard::new() };
            proof {
                graph.lemma_parts();
                assert(graph.plan() == plan);
                let w = graph.world();
                assert(w.states =~= initial_world(plan.nodes.len()).states);
                assert(w == initial_world(plan.nodes.len()));
                assert forall|id: int| 0 <= id <= plan.root() implies #[trigger] node_settled(
                    plan,
                    w,
                    id,
                ) by {
                    crate::graph::lemma_node_wf(plan, id);
                    assert(w.states[id] == NodeState::initial());
                    assert forall|j: int| plan.first(id) <= j <= id implies (#[trigger] w.states[j]).fresh() by {
                        assert(w.states[j] == NodeState::initial());
                    }
                    assert forall|k: int| 0 <= k < plan.arity(id) implies !(#[trigger] w.states[plan.child(
                        id,
                        k,
                    )]).active by {
                        assert(0 <= plan.child(id, k) < id);
                        assert(w.states[plan.child(id, k)] == NodeState::initial());
                    }
                }
                assert(settled(plan, w, 0, plan.root()));
            }
            Ok(graph)
        },
    }
}

/// A decorator that has not exactly one child is rejected with
/// `ArityMismatch`, whatever its children are, and so is a sequence, a
/// fallback or a parallel node without children.
pub proof fn law_arity(ctx: Context, shape: Shape, path: Seq<usize>, base: int)
    requires
        match shape {
            Shape::Decorator(_, children) => children@.len() != 1,
            Shape::Sequence(children) => children@.len() == 0,
            Shape::Fallback(children) => children@.len() == 0,
            Shape::Parallel(_, _, children) => children@.len() == 0,
            Shape::Call(_) => false,
        },
    ensures
        expand(ctx, shape, path, base) == Err::<Seq<Outline>, BuildError>(
            BuildError::ArityMismatch,
        ),
{
}

/// A call of a name that is neither a tree of the description nor bound in
/// the registry is rejected with `UnknownAction`.
pub proof fn law_unknown_action(ctx: Context, name: String, path: Seq<usize>, base: int)
    requires
        !defined(ctx.definitions, name@),
        !bound(ctx.bindings, name@),
    ensures
        expand(ctx, Shape::Call(name), path, base) == Err::<Seq<Outline>, BuildError>(
            BuildError::UnknownAction,
        ),
{
}

/// A fault in a child is the fault of its parent, unless an earlier child
/// has one: the first fault met is the error of the build.
pub proof fn law_first_fault(
    ctx: Context,
    shapes: Seq<Shape>,
    k: int,
    path: Seq<usize>,
    base: int,
    done: Fragment,
)
    requires
        0 <= k < shapes.len(),
        expand(ctx, shapes[k], path, base + done.nodes.len()) is Err,
    ensures
        expand_all(ctx, shapes, k, path, base, done) == Err::<Fragment, BuildError>(
            expand(ctx, shapes[k], path, base + done.nodes.len())->Err_0,
        ),
{
}

} // verus!
