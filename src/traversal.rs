use vstd::prelude::*;

verus! {

/// What an engine asks its driver to do next.
#[derive(Debug, Clone, Copy, PartialEq, Eq)]
pub enum Step {
    /// Poll the child stream that is being drained.
    Drain,
    /// Poll the queue of pending expansions for the next child stream.
    Expansion,
    /// The traversal is complete.
    End,
}

/// What becomes of a node that a child stream produced.
#[derive(Debug, Clone, Copy, PartialEq, Eq)]
pub enum Visit {
    /// The node was visited before: drop it and keep draining.
    Skip,
    /// Emit the node; its children are not requested.
    Emit,
    /// Emit the node and request its children, which will have the given depth.
    Expand(usize),
}

/// One item of a traversal's output, as an engine records it.
pub enum Emission<N> {
    /// A node, with its distance from the root and the node whose child
    /// stream produced it.
    Node { node: N, depth: usize, parent: N },
    /// An error from a child stream or from an expansion.
    Error,
}

/// Whether a node at `depth` has its children requested.
///
/// Depths are `usize`, so a node at the largest depth is never expanded.
pub open spec fn expands(depth: usize, max_depth: Option<usize>) -> bool {
    &&& depth < usize::MAX
    &&& match max_depth {
        Some(m) => depth < m,
        None => true,
    }
}

/// The depth at which the children of the root are requested, if at all.
pub open spec fn root_expansion(max_depth: Option<usize>) -> Seq<usize> {
    if expands(0, max_depth) {
        seq![1usize]
    } else {
        Seq::empty()
    }
}

/// The set of nodes that a log has emitted.
pub open spec fn emitted_nodes<N>(log: Seq<Emission<N>>) -> Set<N> {
    Set::new(|n: N| exists|i: int| 0 <= i < log.len() && #[trigger] log[i] is Node && log[i]->node == n)
}

/// `n` is the root or a node that the log has emitted.
pub open spec fn known<N>(log: Seq<Emission<N>>, root: N, n: N) -> bool {
    n == root || emitted_nodes(log).contains(n)
}

/// Each emitted node came from the stream of the root or of a node emitted
/// before it.
pub open spec fn parents_precede<N>(log: Seq<Emission<N>>, root: N) -> bool {
    forall|i: int|
        0 <= i < log.len() && #[trigger] log[i] is Node ==> log[i]->parent == root || exists|
            j: int,
        |
            0 <= j < i && #[trigger] log[j] is Node && log[j]->node == log[i]->parent
}

/// No node occurs twice among the emissions of a log.
pub open spec fn nodes_distinct<N>(log: Seq<Emission<N>>) -> bool {
    forall|i: int, j: int|
        0 <= i < j < log.len() && #[trigger] log[i] is Node && #[trigger] log[j] is Node
            ==> log[i]->node != log[j]->node
}

/// Every emitted node lies at depth one or more, and not beyond `max_depth`.
pub open spec fn depths_within<N>(log: Seq<Emission<N>>, max_depth: Option<usize>) -> bool {
    forall|i: int|
        0 <= i < log.len() && #[trigger] log[i] is Node ==> {
            &&& 1 <= log[i]->depth
            &&& match max_depth {
                Some(m) => log[i]->depth <= m,
                None => true,
            }
        }
}

/// Depths of emitted nodes never decrease along the log.
pub open spec fn depths_non_decreasing<N>(log: Seq<Emission<N>>) -> bool {
    forall|i: int, j: int|
        0 <= i < j < log.len() && #[trigger] log[i] is Node && #[trigger] log[j] is Node
            ==> log[i]->depth <= log[j]->depth
}

/// The depth of the last node in a log, or zero (the root's depth) if it has none.
pub open spec fn last_depth<N>(log: Seq<Emission<N>>) -> nat
    decreases log.len(),
{
    if log.len() == 0 {
        0
    } else if log.last() is Node {
        log.last()->depth as nat
    } else {
        last_depth(log.drop_last())
    }
}

/// Each emitted node lies at most one level below the node emitted before it
/// (the first one at depth one at most): a walk never skips a level going down.
pub open spec fn dives_one_level<N>(log: Seq<Emission<N>>) -> bool
    decreases log.len(),
{
    log.len() == 0 || {
        &&& dives_one_level(log.drop_last())
        &&& (log.last() is Node ==> log.last()->depth <= last_depth(log.drop_last()) + 1)
    }
}

/// Decides whether a node at `depth` is expanded.
pub fn expands_at(depth: usize, max_depth: Option<usize>) -> (r: bool)
    ensures
        r == expands(depth, max_depth),
{
    if depth == usize::MAX {
        return false;
    }
    match max_depth {
        Some(m) => depth < m,
        None => true,
    }
}

pub(crate) proof fn lemma_emitted_push<N>(log: Seq<Emission<N>>, e: Emission<N>)
    ensures
        e is Node ==> emitted_nodes(log.push(e)) == emitted_nodes(log).insert(e->node),
        e is Error ==> emitted_nodes(log.push(e)) == emitted_nodes(log),
{
    let l2 = log.push(e);
    assert forall|i: int| 0 <= i < log.len() implies l2[i] == log[i] by {}
    if e is Node {
        assert(l2[log.len() as int] is Node);
        assert(emitted_nodes(l2) =~= emitted_nodes(log).insert(e->node));
    } else {
        assert(emitted_nodes(l2) =~= emitted_nodes(log));
    }
}

pub(crate) proof fn lemma_last_depth_push<N>(log: Seq<Emission<N>>, e: Emission<N>)
    ensures
        last_depth(log.push(e)) == (if e is Node { e->depth as nat } else { last_depth(log) }),
        dives_one_level(log.push(e)) == (dives_one_level(log) && (e is Node ==> e->depth
            <= last_depth(log) + 1)),
{
    assert(log.push(e).drop_last() =~= log);
}

} // verus!
