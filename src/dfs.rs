use std::collections::{HashSet, VecDeque};
use std::hash::Hash;
use vstd::prelude::*;
use vstd::std_specs::hash::obeys_key_model;

use crate::traversal::{
    depths_within, dives_one_level, emitted_nodes, expands, expands_at, known, last_depth, parents_precede,
    lemma_emitted_push, lemma_last_depth_push, nodes_distinct, root_expansion, Emission, Step,
    Visit,
};

verus! {

/// Depth-first traversal engine.
///
/// Ready child streams are kept on a stack and the top one is drained. The
/// children of each emitted node are requested at the front of the queue of
/// pending expansions, and their stream is pushed on the stack before
/// anything else is drained: the walk dives into a node's subtree before it
/// goes on with the node's siblings.
#[verifier::reject_recursive_types(N)]
pub struct Dfs<N> {
    /// Depths of the items of the ready child streams, bottom first.
    stack: Vec<usize>,
    /// Depths of the children that the pending expansions will produce, in
    /// the order they will be taken.
    pending: VecDeque<usize>,
    max_depth: Option<usize>,
    allow_circles: bool,
    visited: HashSet<N>,
    root: Ghost<N>,
    log: Ghost<Seq<Emission<N>>>,
    /// The nodes whose expansions are pending, in the order of `pending`.
    parents: Ghost<Seq<N>>,
    /// The nodes whose child streams are on the stack, in the order of `stack`.
    stack_parents: Ghost<Seq<N>>,
    /// Every pair of a node and a child that its stream produced.
    seen: Ghost<Set<(N, N)>>,
    /// The nodes whose child streams were drained to their end.
    drained: Ghost<Set<N>>,
}

impl<N: Eq + Hash> Dfs<N> {
    /// Depths of the ready child streams, bottom of the stack first.
    pub closed spec fn stack(&self) -> Seq<usize> {
        self.stack@
    }

    /// Depths of the pending expansions, in the order they will be taken.
    pub closed spec fn pending(&self) -> Seq<usize> {
        self.pending@
    }

    pub closed spec fn max_depth(&self) -> Option<usize> {
        self.max_depth
    }

    pub closed spec fn allows_circles(&self) -> bool {
        self.allow_circles
    }

    /// The nodes that count as visited.
    pub closed spec fn visited(&self) -> Set<N> {
        self.visited@
    }

    pub closed spec fn root(&self) -> N {
        self.root@
    }

    /// Everything the engine has emitted so far, in order.
    pub closed spec fn log(&self) -> Seq<Emission<N>> {
        self.log@
    }

    /// The nodes whose expansions are pending, in the order of `pending()`.
    pub closed spec fn parents(&self) -> Seq<N> {
        self.parents@
    }

    /// The nodes whose child streams are on the stack, in the order of `stack()`.
    pub closed spec fn stack_parents(&self) -> Seq<N> {
        self.stack_parents@
    }

    /// Every pair of a node and a child that its stream produced.
    pub closed spec fn seen(&self) -> Set<(N, N)> {
        self.seen@
    }

    /// The nodes whose child streams were drained to their end.
    pub closed spec fn drained(&self) -> Set<N> {
        self.drained@
    }

    /// The expansion of `n` is pending, its stream is on the stack, or its
    /// stream was drained.
    pub closed spec fn covered(&self, n: N) -> bool {
        ||| self.parents@.contains(n)
        ||| self.stack_parents@.contains(n)
        ||| self.drained@.contains(n)
    }

    pub closed spec fn wf(&self) -> bool {
        &&& obeys_key_model::<N>()
        &&& self.allow_circles ==> self.visited@ == Set::<N>::empty()
        &&& !self.allow_circles ==> {
            &&& self.visited@ == emitted_nodes(self.log@).insert(self.root@)
            &&& nodes_distinct(self.log@)
            &&& !emitted_nodes(self.log@).contains(self.root@)
        }
        &&& depths_within(self.log@, self.max_depth)
        &&& dives_one_level(self.log@)
        &&& forall|i: int| 0 <= i < self.stack@.len() ==> #[trigger] self.stack@[i] == i + 1
        &&& self.stack@.len() <= last_depth(self.log@) + 1
        &&& self.max_depth matches Some(m) ==> self.stack@.len() <= m
        &&& self.parents@.len() == self.pending@.len()
        &&& self.stack_parents@.len() == self.stack@.len()
        &&& forall|i: int|
            0 <= i < self.parents@.len() ==> known(self.log@, self.root@, #[trigger] self.parents@[i])
        &&& forall|i: int|
            0 <= i < self.stack_parents@.len() ==> known(
                self.log@,
                self.root@,
                #[trigger] self.stack_parents@[i],
            )
        &&& forall|p: N, c: N| #[trigger] self.seen@.contains((p, c)) ==> known(self.log@, self.root@, c)
        &&& parents_precede(self.log@, self.root@)
        &&& forall|i: int|
            0 <= i < self.log@.len() && #[trigger] self.log@[i] is Node ==> self.seen@.contains(
                (self.log@[i]->parent, self.log@[i]->node),
            )
        &&& expands(0, self.max_depth) ==> self.covered(self.root@)
        &&& forall|i: int|
            0 <= i < self.log@.len() && #[trigger] self.log@[i] is Node && expands(
                self.log@[i]->depth,
                self.max_depth,
            ) ==> self.covered(self.log@[i]->node)
        &&& self.pending@.len() <= 1
        &&& self.pending@.len() == 1 ==> {
            &&& self.pending@[0] == self.stack@.len() + 1
            &&& self.stack@.len() == last_depth(self.log@)
            &&& (self.max_depth matches Some(m) ==> self.pending@[0] <= m)
        }
    }

    /// Starts a traversal from `root`.
    ///
    /// The children of the root are requested at depth one, unless
    /// `max_depth` is zero: then nothing is ever emitted.
    pub fn new(root: N, max_depth: Option<usize>, allow_circles: bool) -> (r: Self)
        requires
            obeys_key_model::<N>(),
        ensures
            r.wf(),
            r.stack() == Seq::<usize>::empty(),
            r.pending() == root_expansion(max_depth),
            r.max_depth() == max_depth,
            r.allows_circles() == allow_circles,
            r.root() == root,
            r.visited() == (if allow_circles { Set::empty() } else { set![root] }),
            r.log() == Seq::<Emission<N>>::empty(),
            r.parents() == (if expands(0, max_depth) { seq![root] } else { Seq::empty() }),
            r.stack_parents() == Seq::<N>::empty(),
            r.seen() == Set::<(N, N)>::empty(),
            r.drained() == Set::<N>::empty(),
    {
        let ghost g = root;
        let mut pending: VecDeque<usize> = VecDeque::new();
        if expands_at(0, max_depth) {
            pending.push_front(1);
        }
        let mut visited: HashSet<N> = HashSet::new();
        if !allow_circles {
            visited.insert(root);
        }
        let r = Dfs {
            stack: Vec::new(),
            pending,
            max_depth,
            allow_circles,
            visited,
            root: Ghost(g),
            log: Ghost(Seq::empty()),
            parents: Ghost(if expands(0, max_depth) { seq![g] } else { Seq::empty() }),
            stack_parents: Ghost(Seq::empty()),
            seen: Ghost(Set::empty()),
            drained: Ghost(Set::empty()),
        };
        proof {
            assert(r.pending@ =~= root_expansion(max_depth));
            if expands(0, max_depth) {
                assert(r.parents@[0] == g);
            }
            assert(r.stack@ =~= Seq::<usize>::empty());
            assert(emitted_nodes(r.log@) =~= Set::<N>::empty());
            assert(r.visited@ =~= (if allow_circles { Set::empty() } else { set![g] }));
            if !allow_circles {
                assert(set![g] =~= Set::<N>::empty().insert(g));
            }
        }
        r
    }

    /// What the driver does next: take the pending expansion, drain the
    /// stream on top of the stack, or stop.
    pub fn next(&self) -> (r: Step)
        ensures
            r == (if self.pending().len() > 0 {
                Step::Expansion
            } else if self.stack().len() > 0 {
                Step::Drain
            } else {
                Step::End
            }),
    {
        if self.pending.len() > 0 {
            Step::Expansion
        } else if self.stack.len() > 0 {
            Step::Drain
        } else {
            Step::End
        }
    }

    /// The number of pending expansions.
    pub fn pending_len(&self) -> (r: usize)
        ensures
            r == self.pending().len(),
    {
        self.pending.len()
    }

    /// The stream on top of the stack produced `node`.
    ///
    /// A node that was visited before is skipped. Any other node is emitted
    /// at the depth of that stream; its children are requested at the front
    /// of the queue unless that depth has reached the cutoff.
    pub fn accept(&mut self, node: N) -> (r: Visit)
        requires
            old(self).wf(),
            old(self).pending().len() == 0,
            old(self).stack().len() > 0,
        ensures
            final(self).wf(),
            final(self).stack() == old(self).stack(),
            final(self).max_depth() == old(self).max_depth(),
            final(self).allows_circles() == old(self).allows_circles(),
            final(self).root() == old(self).root(),
            final(self).stack_parents() == old(self).stack_parents(),
            final(self).drained() == old(self).drained(),
            final(self).seen() == old(self).seen().insert((old(self).stack_parents().last(), node)),
            ({
                let d = old(self).stack().last();
                if !old(self).allows_circles() && old(self).visited().contains(node) {
                    &&& r == Visit::Skip
                    &&& final(self).visited() == old(self).visited()
                    &&& final(self).pending() == old(self).pending()
                    &&& final(self).parents() == old(self).parents()
                    &&& final(self).log() == old(self).log()
                } else {
                    &&& final(self).visited() == (if old(self).allows_circles() {
                        old(self).visited()
                    } else {
                        old(self).visited().insert(node)
                    })
                    &&& final(self).log() == old(self).log().push(
                        Emission::Node { node, depth: d, parent: old(self).stack_parents().last() },
                    )
                    &&& if expands(d, old(self).max_depth()) {
                        &&& r == Visit::Expand((d + 1) as usize)
                        &&& final(self).pending() == old(self).pending().insert(
                            0,
                            (d + 1) as usize,
                        )
                        &&& final(self).parents() == old(self).parents().insert(0, node)
                    } else {
                        &&& r == Visit::Emit
                        &&& final(self).pending() == old(self).pending()
                        &&& final(self).parents() == old(self).parents()
                    }
                }
            }),
    {
        let d = self.stack[self.stack.len() - 1];
        let ghost old_log = self.log@;
        let ghost g = node;
        let ghost parent = self.stack_parents@.last();
        let ghost pair = (parent, g);
        proof {
            assert forall|i: int| 0 <= i < old_log.len() && #[trigger] old_log[i] is Node
                implies self.seen@.insert(pair).contains((old_log[i]->parent, old_log[i]->node)) by {}
            assert(known(old_log, self.root@, self.stack_parents@[self.stack_parents@.len() - 1]));
        }
        if !self.allow_circles && self.visited.contains(&node) {
            self.seen = Ghost(self.seen@.insert(pair));
            return Visit::Skip;
        }
        let ghost e = Emission::Node { node: g, depth: d, parent };
        proof {
            lemma_emitted_push(old_log, e);
            lemma_last_depth_push(old_log, e);
        }
        if !self.allow_circles {
            self.visited.insert(node);
        }
        self.log = Ghost(self.log@.push(e));
        self.seen = Ghost(self.seen@.insert(pair));
        proof {
            let l = self.log@;
            let root = self.root@;
            assert(l[old_log.len() as int] == e);
            assert forall|i: int| 0 <= i < old_log.len() implies l[i] == old_log[i] by {}
            assert forall|n: N| known(old_log, root, n) implies known(l, root, n) by {}
            if !self.allow_circles {
                assert(self.visited@ =~= emitted_nodes(l).insert(root));
                assert forall|i: int, j: int|
                    0 <= i < j < l.len() && #[trigger] l[i] is Node && #[trigger] l[j] is Node
                    implies l[i]->node != l[j]->node by {
                    if j == old_log.len() {
                        assert(old_log[i] is Node);
                        assert(emitted_nodes(old_log).contains(old_log[i]->node));
                    }
                }
            }
            assert forall|i: int| 0 <= i < l.len() && #[trigger] l[i] is Node implies l[i]->parent
                == root || exists|j: int|
                0 <= j < i && #[trigger] l[j] is Node && l[j]->node == l[i]->parent by {
                if i < old_log.len() {
                    assert(old_log[i] is Node);
                    if l[i]->parent != root {
                        let j = choose|j: int|
                            0 <= j < i && #[trigger] old_log[j] is Node && old_log[j]->node
                                == old_log[i]->parent;
                        assert(l[j] == old_log[j]);
                    }
                } else if parent != root {
                    let j = choose|j: int|
                        0 <= j < old_log.len() && #[trigger] old_log[j] is Node && old_log[j]->node
                            == parent;
                    assert(l[j] == old_log[j]);
                }
            }
            assert(parents_precede(l, root));
            assert(depths_within(l, self.max_depth));
        }
        if expands_at(d, self.max_depth) {
            self.pending.push_front(d + 1);
            self.parents = Ghost(self.parents@.insert(0, g));
            proof {
                assert(self.pending@ =~= Seq::<usize>::empty().insert(0, (d + 1) as usize));
                assert(self.parents@[0] == g);
            }
            Visit::Expand(d + 1)
        } else {
            Visit::Emit
        }
    }

    /// The stream on top of the stack produced an error, which is passed on.
    /// The traversal goes on with the same stream.
    pub fn record_error(&mut self)
        requires
            old(self).wf(),
            old(self).pending().len() == 0,
            old(self).stack().len() > 0,
        ensures
            final(self).wf(),
            final(self).stack() == old(self).stack(),
            final(self).pending() == old(self).pending(),
            final(self).max_depth() == old(self).max_depth(),
            final(self).allows_circles() == old(self).allows_circles(),
            final(self).visited() == old(self).visited(),
            final(self).root() == old(self).root(),
            final(self).log() == old(self).log().push(Emission::Error),
            final(self).parents() == old(self).parents(),
            final(self).stack_parents() == old(self).stack_parents(),
            final(self).seen() == old(self).seen(),
            final(self).drained() == old(self).drained(),
    {
        let ghost old_log = self.log@;
        proof {
            lemma_emitted_push(old_log, Emission::<N>::Error);
            lemma_last_depth_push(old_log, Emission::<N>::Error);
        }
        self.log = Ghost(self.log@.push(Emission::Error));
        proof {
            let l = self.log@;
            assert forall|i: int| 0 <= i < old_log.len() implies l[i] == old_log[i] by {}
        }
    }

    /// The stream on top of the stack has ended and is popped.
    pub fn finish_stream(&mut self)
        requires
            old(self).wf(),
            old(self).pending().len() == 0,
            old(self).stack().len() > 0,
        ensures
            final(self).wf(),
            final(self).stack() == old(self).stack().drop_last(),
            final(self).pending() == old(self).pending(),
            final(self).max_depth() == old(self).max_depth(),
            final(self).allows_circles() == old(self).allows_circles(),
            final(self).visited() == old(self).visited(),
            final(self).root() == old(self).root(),
            final(self).log() == old(self).log(),
            final(self).parents() == old(self).parents(),
            final(self).stack_parents() == old(self).stack_parents().drop_last(),
            final(self).seen() == old(self).seen(),
            final(self).drained() == old(self).drained().insert(old(self).stack_parents().last()),
    {
        let ghost old_sp = self.stack_parents@;
        self.stack.pop();
        self.drained = Ghost(self.drained@.insert(old_sp.last()));
        self.stack_parents = Ghost(old_sp.drop_last());
        proof {
            assert forall|n: N| old_sp.contains(n) && n != old_sp.last() implies self.stack_parents@.contains(n) by {
                let k = choose|k: int| 0 <= k < old_sp.len() && old_sp[k] == n;
                assert(self.stack_parents@[k] == n);
            }
            assert forall|i: int| 0 <= i < self.stack_parents@.len() implies self.stack_parents@[i] == old_sp[i] by {}
            assert forall|i: int| 0 <= i < self.stack@.len() implies #[trigger] self.stack@[i]
                == i + 1 by {
                assert(self.stack@[i] == old(self).stack@[i]);
            }
        }
    }

    /// The pending expansion has completed; its child stream (or a stream of
    /// its one error) is pushed on the stack. Returns the depth of that
    /// stream's items.
    pub fn take_expansion(&mut self) -> (r: usize)
        requires
            old(self).wf(),
            old(self).pending().len() > 0,
        ensures
            final(self).wf(),
            r == old(self).pending()[0],
            final(self).stack() == old(self).stack().push(r),
            final(self).pending() == old(self).pending().drop_first(),
            final(self).max_depth() == old(self).max_depth(),
            final(self).allows_circles() == old(self).allows_circles(),
            final(self).visited() == old(self).visited(),
            final(self).root() == old(self).root(),
            final(self).log() == old(self).log(),
            final(self).parents() == old(self).parents().drop_first(),
            final(self).stack_parents() == old(self).stack_parents().push(old(self).parents()[0]),
            final(self).seen() == old(self).seen(),
            final(self).drained() == old(self).drained(),
    {
        let ghost old_pending = self.pending@;
        let ghost old_parents = self.parents@;
        let ghost old_sp = self.stack_parents@;
        let d = match self.pending.pop_front() {
            Some(d) => d,
            None => 0,
        };
        self.stack.push(d);
        self.parents = Ghost(old_parents.drop_first());
        self.stack_parents = Ghost(old_sp.push(old_parents[0]));
        proof {
            assert(self.parents@ =~= Seq::<N>::empty());
            assert(self.stack_parents@[old_sp.len() as int] == old_parents[0]);
            assert forall|n: N| old_sp.contains(n) implies self.stack_parents@.contains(n) by {
                let k = choose|k: int| 0 <= k < old_sp.len() && old_sp[k] == n;
                assert(self.stack_parents@[k] == n);
            }
            assert forall|i: int| 0 <= i < old_sp.len() implies self.stack_parents@[i] == old_sp[i] by {}
            assert(self.pending@ =~= old_pending.drop_first());
            assert forall|i: int| 0 <= i < self.stack@.len() implies #[trigger] self.stack@[i]
                == i + 1 by {
                if i < old(self).stack@.len() {
                    assert(self.stack@[i] == old(self).stack@[i]);
                }
            }
        }
        d
    }

    /// With cycle avoidance on, no node is emitted twice, and the root is
    /// never emitted.
    pub proof fn lemma_no_reemission(&self)
        requires
            self.wf(),
            !self.allows_circles(),
        ensures
            nodes_distinct(self.log()),
            !emitted_nodes(self.log()).contains(self.root()),
    {
    }

    /// No emitted node lies deeper than `max_depth`, nor is any expansion
    /// pending that would produce nodes deeper than that.
    pub proof fn lemma_depth_cutoff(&self)
        requires
            self.wf(),
        ensures
            depths_within(self.log(), self.max_depth()),
            forall|i: int|
                0 <= i < self.pending().len() ==> 1 <= #[trigger] self.pending()[i] && (
                self.max_depth() matches Some(m) ==> self.pending()[i] <= m),
    {
    }

    /// Under depth-first order the walk never skips a level going down: each
    /// emitted node lies at most one level below the node emitted before it,
    /// and the first one lies at depth one.
    pub proof fn lemma_dives_one_level(&self)
        requires
            self.wf(),
        ensures
            dives_one_level(self.log()),
    {
    }

    /// Once a traversal without circles and without a depth bound has ended,
    /// the emitted nodes are exactly those reachable from the root through
    /// the children that the streams produced, each emitted once: every
    /// emitted node came from the stream of the root or of a node emitted
    /// before it; the streams of the root and of every emitted node were
    /// drained to their end; and every child they produced is the root or an
    /// emitted node.
    pub proof fn lemma_complete(&self)
        requires
            self.wf(),
            !self.allows_circles(),
            self.max_depth() is None,
            self.stack().len() == 0,
            self.pending().len() == 0,
            forall|i: int|
                0 <= i < self.log().len() && #[trigger] self.log()[i] is Node ==> self.log()[i]->depth
                    < usize::MAX,
        ensures
            nodes_distinct(self.log()),
            parents_precede(self.log(), self.root()),
            self.drained().contains(self.root()),
            forall|i: int|
                0 <= i < self.log().len() && #[trigger] self.log()[i] is Node ==> self.drained().contains(
                    self.log()[i]->node,
                ),
            forall|p: N, c: N| #[trigger]
                self.seen().contains((p, c)) ==> known(self.log(), self.root(), c),
    {
        assert(self.parents@ =~= Seq::<N>::empty());
        assert(self.stack_parents@ =~= Seq::<N>::empty());
    }
}

} // verus!
