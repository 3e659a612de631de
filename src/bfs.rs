use std::collections::{HashSet, VecDeque};
use std::hash::Hash;
use vstd::prelude::*;
use vstd::std_specs::hash::obeys_key_model;

use crate::traversal::{
    depths_non_decreasing, depths_within, emitted_nodes, expands, expands_at, known, lemma_emitted_push, parents_precede,
    nodes_distinct, root_expansion, Emission, Step, Visit,
};

verus! {

/// Breadth-first traversal engine.
///
/// One child stream at a time is drained to its end; the children of each
/// emitted node are requested at the back of the queue of pending expansions,
/// so that a whole level is emitted before the next one begins.
#[verifier::reject_recursive_types(N)]
pub struct Bfs<N> {
    /// Depth of the items of the child stream being drained, if there is one.
    current: Option<usize>,
    /// Depths of the children that the pending expansions will produce, in
    /// submission order.
    pending: VecDeque<usize>,
    max_depth: Option<usize>,
    allow_circles: bool,
    visited: HashSet<N>,
    root: Ghost<N>,
    /// Depth of the child stream installed last.
    level: Ghost<nat>,
    log: Ghost<Seq<Emission<N>>>,
    /// The nodes whose expansions are pending, in the order of `pending`.
    parents: Ghost<Seq<N>>,
    /// The node whose child stream is being drained.
    parent: Ghost<N>,
    /// Every pair of a node and a child that its stream produced.
    seen: Ghost<Set<(N, N)>>,
    /// The nodes whose child streams were drained to their end.
    drained: Ghost<Set<N>>,
}

impl<N: Eq + Hash> Bfs<N> {
    /// Depth of the child stream being drained, if there is one.
    pub closed spec fn current(&self) -> Option<usize> {
        self.current
    }

    /// Depths of the pending expansions, in the order they will be taken.
    pub closed spec fn pending(&self) -> Seq<usize> {
        self.pending@
    }

    pub closed spec fn max_depth(&self) -> Option<usize> {
        self.max_depth
    }

    pub closed spec fn allows_circles(&self) -> bool {
        self.allow_circles
    }

    /// The nodes that count as visited.
    pub closed spec fn visited(&self) -> Set<N> {
        self.visited@
    }

    pub closed spec fn root(&self) -> N {
        self.root@
    }

    /// Everything the engine has emitted so far, in order.
    pub closed spec fn log(&self) -> Seq<Emission<N>> {
        self.log@
    }

    /// The nodes whose expansions are pending, in the order of `pending()`.
    pub closed spec fn parents(&self) -> Seq<N> {
        self.parents@
    }

    /// The node whose child stream is being drained, when there is one.
    pub closed spec fn parent(&self) -> N {
        self.parent@
    }

    /// Every pair of a node and a child that its stream produced.
    pub closed spec fn seen(&self) -> Set<(N, N)> {
        self.seen@
    }

    /// The nodes whose child streams were drained to their end.
    pub closed spec fn drained(&self) -> Set<N> {
        self.drained@
    }

    /// The expansion of `n` is pending, its stream is being drained, or
    /// its stream was drained.
    pub closed spec fn covered(&self, n: N) -> bool {
        ||| self.parents@.contains(n)
        ||| (self.current is Some && self.parent@ == n)
        ||| self.drained@.contains(n)
    }

    pub closed spec fn wf(&self) -> bool {
        &&& obeys_key_model::<N>()
        &&& self.allow_circles ==> self.visited@ == Set::<N>::empty()
        &&& !self.allow_circles ==> {
            &&& self.visited@ == emitted_nodes(self.log@).insert(self.root@)
            &&& nodes_distinct(self.log@)
            &&& !emitted_nodes(self.log@).contains(self.root@)
        }
        &&& depths_within(self.log@, self.max_depth)
        &&& depths_non_decreasing(self.log@)
        &&& forall|i: int|
            0 <= i < self.log@.len() && #[trigger] self.log@[i] is Node ==> self.log@[i]->depth
                <= self.level@
        &&& forall|i: int|
            0 <= i < self.pending@.len() ==> {
                &&& self.level@ <= #[trigger] self.pending@[i] <= self.level@ + 1
                &&& self.pending@[i] >= 1
                &&& (self.max_depth matches Some(m) ==> self.pending@[i] <= m)
            }
        &&& forall|i: int, j: int|
            0 <= i < j < self.pending@.len() ==> #[trigger] self.pending@[i]
                <= #[trigger] self.pending@[j]
        &&& self.parents@.len() == self.pending@.len()
        &&& forall|i: int|
            0 <= i < self.parents@.len() ==> known(self.log@, self.root@, #[trigger] self.parents@[i])
        &&& self.current is Some ==> known(self.log@, self.root@, self.parent@)
        &&& forall|p: N, c: N| #[trigger] self.seen@.contains((p, c)) ==> known(self.log@, self.root@, c)
        &&& parents_precede(self.log@, self.root@)
        &&& forall|i: int|
            0 <= i < self.log@.len() && #[trigger] self.log@[i] is Node ==> self.seen@.contains(
                (self.log@[i]->parent, self.log@[i]->node),
            )
        &&& expands(0, self.max_depth) ==> self.covered(self.root@)
        &&& forall|i: int|
            0 <= i < self.log@.len() && #[trigger] self.log@[i] is Node && expands(
                self.log@[i]->depth,
                self.max_depth,
            ) ==> self.covered(self.log@[i]->node)
        &&& self.current matches Some(c) ==> {
            &&& c == self.level@
            &&& c >= 1
            &&& (self.max_depth matches Some(m) ==> c <= m)
        }
    }

    /// Starts a traversal from `root`.
    ///
    /// The children of the root are requested at depth one, unless
    /// `max_depth` is zero: then nothing is ever emitted.
    pub fn new(root: N, max_depth: Option<usize>, allow_circles: bool) -> (r: Self)
        requires
            obeys_key_model::<N>(),
        ensures
            r.wf(),
            r.current() is None,
            r.pending() == root_expansion(max_depth),
            r.max_depth() == max_depth,
            r.allows_circles() == allow_circles,
            r.root() == root,
            r.visited() == (if allow_circles { Set::empty() } else { set![root] }),
            r.log() == Seq::<Emission<N>>::empty(),
            r.parents() == (if expands(0, max_depth) { seq![root] } else { Seq::empty() }),
            r.seen() == Set::<(N, N)>::empty(),
            r.drained() == Set::<N>::empty(),
    {
        let ghost g = root;
        let mut pending: VecDeque<usize> = VecDeque::new();
        if expands_at(0, max_depth) {
            pending.push_back(1);
        }
        let mut visited: HashSet<N> = HashSet::new();
        if !allow_circles {
            visited.insert(root);
        }
        let r = Bfs {
            current: None,
            pending,
            max_depth,
            allow_circles,
            visited,
            root: Ghost(g),
            level: Ghost(1),
            log: Ghost(Seq::empty()),
            parents: Ghost(if expands(0, max_depth) { seq![g] } else { Seq::empty() }),
            parent: Ghost(g),
            seen: Ghost(Set::empty()),
            drained: Ghost(Set::empty()),
        };
        proof {
            assert(r.pending@ =~= root_expansion(max_depth));
            if expands(0, max_depth) {
                assert(r.parents@[0] == g);
            }
            assert(emitted_nodes(r.log@) =~= Set::<N>::empty());
            assert(r.visited@ =~= (if allow_circles { Set::empty() } else { set![g] }));
            if !allow_circles {
                assert(set![g] =~= Set::<N>::empty().insert(g));
            }
        }
        r
    }

    /// What the driver does next: drain the current child stream, take the
    /// next pending expansion, or stop.
    pub fn next(&self) -> (r: Step)
        ensures
            r == (if self.current() is Some {
                Step::Drain
            } else if self.pending().len() > 0 {
                Step::Expansion
            } else {
                Step::End
            }),
    {
        if self.current.is_some() {
            Step::Drain
        } else if self.pending.len() > 0 {
            Step::Expansion
        } else {
            Step::End
        }
    }

    /// The number of pending expansions.
    pub fn pending_len(&self) -> (r: usize)
        ensures
            r == self.pending().len(),
    {
        self.pending.len()
    }

    /// The current child stream produced `node`.
    ///
    /// A node that was visited before is skipped. Any other node is emitted
    /// at the depth of the current stream; its children are requested at the
    /// back of the queue unless that depth has reached the cutoff.
    pub fn accept(&mut self, node: N) -> (r: Visit)
        requires
            old(self).wf(),
            old(self).current() is Some,
        ensures
            final(self).wf(),
            final(self).current() == old(self).current(),
            final(self).max_depth() == old(self).max_depth(),
            final(self).allows_circles() == old(self).allows_circles(),
            final(self).root() == old(self).root(),
            final(self).parent() == old(self).parent(),
            final(self).drained() == old(self).drained(),
            final(self).seen() == old(self).seen().insert((old(self).parent(), node)),
            ({
                let d = old(self).current()->0;
                if !old(self).allows_circles() && old(self).visited().contains(node) {
                    &&& r == Visit::Skip
                    &&& final(self).visited() == old(self).visited()
                    &&& final(self).pending() == old(self).pending()
                    &&& final(self).parents() == old(self).parents()
                    &&& final(self).log() == old(self).log()
                } else {
                    &&& final(self).visited() == (if old(self).allows_circles() {
                        old(self).visited()
                    } else {
                        old(self).visited().insert(node)
                    })
                    &&& final(self).log() == old(self).log().push(
                        Emission::Node { node, depth: d, parent: old(self).parent() },
                    )
                    &&& if expands(d, old(self).max_depth()) {
                        &&& r == Visit::Expand((d + 1) as usize)
                        &&& final(self).pending() == old(self).pending().push((d + 1) as usize)
                        &&& final(self).parents() == old(self).parents().push(node)
                    } else {
                        &&& r == Visit::Emit
                        &&& final(self).pending() == old(self).pending()
                        &&& final(self).parents() == old(self).parents()
                    }
                }
            }),
    {
        let d = match self.current {
            Some(d) => d,
            None => 0,
        };
        let ghost old_log = self.log@;
        let ghost g = node;
        let ghost pair = (self.parent@, g);
        proof {
            assert forall|i: int| 0 <= i < old_log.len() && #[trigger] old_log[i] is Node
                implies self.seen@.insert(pair).contains((old_log[i]->parent, old_log[i]->node)) by {}
        }
        if !self.allow_circles && self.visited.contains(&node) {
            self.seen = Ghost(self.seen@.insert(pair));
            return Visit::Skip;
        }
        let ghost e = Emission::Node { node: g, depth: d, parent: self.parent@ };
        proof {
            lemma_emitted_push(old_log, e);
        }
        if !self.allow_circles {
            self.visited.insert(node);
        }
        self.log = Ghost(self.log@.push(e));
        self.seen = Ghost(self.seen@.insert(pair));
        proof {
            let l = self.log@;
            let root = self.root@;
            assert(l[old_log.len() as int] == e);
            assert forall|i: int| 0 <= i < old_log.len() implies l[i] == old_log[i] by {}
            assert forall|n: N| known(old_log, root, n) implies known(l, root, n) by {}
            if !self.allow_circles {
                assert(self.visited@ =~= emitted_nodes(l).insert(root));
                assert forall|i: int, j: int|
                    0 <= i < j < l.len() && #[trigger] l[i] is Node && #[trigger] l[j] is Node
                    implies l[i]->node != l[j]->node by {
                    if j == old_log.len() {
                        assert(old_log[i] is Node);
                        assert(emitted_nodes(old_log).contains(old_log[i]->node));
                    }
                }
            }
            assert forall|i: int| 0 <= i < l.len() && #[trigger] l[i] is Node implies l[i]->parent
                == root || exists|j: int|
                0 <= j < i && #[trigger] l[j] is Node && l[j]->node == l[i]->parent by {
                if i < old_log.len() {
                    assert(old_log[i] is Node);
                    if l[i]->parent != root {
                        let j = choose|j: int|
                            0 <= j < i && #[trigger] old_log[j] is Node && old_log[j]->node
                                == old_log[i]->parent;
                        assert(l[j] == old_log[j]);
                    }
                } else if self.parent@ != root {
                    let j = choose|j: int|
                        0 <= j < old_log.len() && #[trigger] old_log[j] is Node && old_log[j]->node
                            == self.parent@;
                    assert(l[j] == old_log[j]);
                }
            }
            assert(parents_precede(l, root));
            assert(depths_within(l, self.max_depth));
            assert(depths_non_decreasing(l));
        }
        if expands_at(d, self.max_depth) {
            let ghost old_pending = self.pending@;
            let ghost old_parents = self.parents@;
            self.pending.push_back(d + 1);
            self.parents = Ghost(self.parents@.push(g));
            proof {
                assert forall|i: int| 0 <= i < old_pending.len() implies self.pending@[i]
                    == old_pending[i] by {}
                assert(self.pending@[old_pending.len() as int] == d + 1);
                assert forall|i: int| 0 <= i < old_parents.len() implies self.parents@[i]
                    == old_parents[i] by {}
                assert(self.parents@[old_parents.len() as int] == g);
                assert forall|n: N| old_parents.contains(n) implies self.parents@.contains(n) by {
                    let k = choose|k: int| 0 <= k < old_parents.len() && old_parents[k] == n;
                    assert(self.parents@[k] == n);
                }
            }
            Visit::Expand(d + 1)
        } else {
            Visit::Emit
        }
    }

    /// The current child stream produced an error, which is passed on.
    /// The traversal goes on with the same stream.
    pub fn record_error(&mut self)
        requires
            old(self).wf(),
            old(self).current() is Some,
        ensures
            final(self).wf(),
            final(self).current() == old(self).current(),
            final(self).pending() == old(self).pending(),
            final(self).max_depth() == old(self).max_depth(),
            final(self).allows_circles() == old(self).allows_circles(),
            final(self).visited() == old(self).visited(),
            final(self).root() == old(self).root(),
            final(self).log() == old(self).log().push(Emission::Error),
            final(self).parents() == old(self).parents(),
            final(self).parent() == old(self).parent(),
            final(self).seen() == old(self).seen(),
            final(self).drained() == old(self).drained(),
    {
        let ghost old_log = self.log@;
        proof {
            lemma_emitted_push(old_log, Emission::<N>::Error);
        }
        self.log = Ghost(self.log@.push(Emission::Error));
        proof {
            let l = self.log@;
            assert forall|i: int| 0 <= i < old_log.len() implies l[i] == old_log[i] by {}
        }
    }

    /// The current child stream has ended.
    pub fn finish_stream(&mut self)
        requires
            old(self).wf(),
            old(self).current() is Some,
        ensures
            final(self).wf(),
            final(self).current() is None,
            final(self).pending() == old(self).pending(),
            final(self).max_depth() == old(self).max_depth(),
            final(self).allows_circles() == old(self).allows_circles(),
            final(self).visited() == old(self).visited(),
            final(self).root() == old(self).root(),
            final(self).log() == old(self).log(),
            final(self).parents() == old(self).parents(),
            final(self).seen() == old(self).seen(),
            final(self).drained() == old(self).drained().insert(old(self).parent()),
    {
        self.current = None;
        self.drained = Ghost(self.drained@.insert(self.parent@));
    }

    /// The pending expansion at the front of the queue has completed; its
    /// child stream (or a stream of its one error) becomes the current
    /// stream. Returns the depth of that stream's items.
    pub fn take_expansion(&mut self) -> (r: usize)
        requires
            old(self).wf(),
            old(self).current() is None,
            old(self).pending().len() > 0,
        ensures
            final(self).wf(),
            r == old(self).pending()[0],
            final(self).current() == Some(r),
            final(self).pending() == old(self).pending().drop_first(),
            final(self).max_depth() == old(self).max_depth(),
            final(self).allows_circles() == old(self).allows_circles(),
            final(self).visited() == old(self).visited(),
            final(self).root() == old(self).root(),
            final(self).log() == old(self).log(),
            final(self).parent() == old(self).parents()[0],
            final(self).parents() == old(self).parents().drop_first(),
            final(self).seen() == old(self).seen(),
            final(self).drained() == old(self).drained(),
    {
        let ghost old_pending = self.pending@;
        let ghost old_parents = self.parents@;
        let d = match self.pending.pop_front() {
            Some(d) => d,
            None => 0,
        };
        self.current = Some(d);
        self.level = Ghost(d as nat);
        self.parent = Ghost(old_parents[0]);
        self.parents = Ghost(old_parents.drop_first());
        proof {
            assert forall|n: N| old_parents.contains(n) && n != old_parents[0] implies self.parents@.contains(n) by {
                let k = choose|k: int| 0 <= k < old_parents.len() && old_parents[k] == n;
                assert(self.parents@[k - 1] == n);
            }
            assert forall|i: int| 0 <= i < self.parents@.len() implies self.parents@[i] == old_parents[i + 1] by {}
            assert(self.pending@ =~= old_pending.drop_first());
            assert forall|i: int| 0 <= i < self.pending@.len() implies self.pending@[i]
                == old_pending[i + 1] by {}
            assert forall|i: int| 0 <= i < self.pending@.len() implies self.pending@[i] >= d by {
                assert(old_pending[0] <= old_pending[i + 1]);
            }
        }
        d
    }

    /// With cycle avoidance on, no node is emitted twice, and the root is
    /// never emitted.
    pub proof fn lemma_no_reemission(&self)
        requires
            self.wf(),
            !self.allows_circles(),
        ensures
            nodes_distinct(self.log()),
            !emitted_nodes(self.log()).contains(self.root()),
    {
    }

    /// No emitted node lies deeper than `max_depth`, nor is any expansion
    /// pending that would produce nodes deeper than that.
    pub proof fn lemma_depth_cutoff(&self)
        requires
            self.wf(),
        ensures
            depths_within(self.log(), self.max_depth()),
            forall|i: int|
                0 <= i < self.pending().len() ==> 1 <= #[trigger] self.pending()[i] && (
                self.max_depth() matches Some(m) ==> self.pending()[i] <= m),
    {
    }

    /// Under breadth-first order the depths of the emitted nodes never
    /// decrease.
    pub proof fn lemma_depths_non_decreasing(&self)
        requires
            self.wf(),
        ensures
            depths_non_decreasing(self.log()),
    {
    }

    /// Once a traversal without circles and without a depth bound has ended,
    /// the emitted nodes are exactly those reachable from the root through
    /// the children that the streams produced, each emitted once: every
    /// emitted node came from the stream of the root or of a node emitted
    /// before it; the streams of the root and of every emitted node were
    /// drained to their end; and every child they produced is the root or an
    /// emitted node.
    pub proof fn lemma_complete(&self)
        requires
            self.wf(),
            !self.allows_circles(),
            self.max_depth() is None,
            self.current() is None,
            self.pending().len() == 0,
            forall|i: int|
                0 <= i < self.log().len() && #[trigger] self.log()[i] is Node ==> self.log()[i]->depth
                    < usize::MAX,
        ensures
            nodes_distinct(self.log()),
            parents_precede(self.log(), self.root()),
            self.drained().contains(self.root()),
            forall|i: int|
                0 <= i < self.log().len() && #[trigger] self.log()[i] is Node ==> self.drained().contains(
                    self.log()[i]->node,
                ),
            forall|p: N, c: N| #[trigger]
                self.seen().contains((p, c)) ==> known(self.log(), self.root(), c),
    {
        assert(self.parents@ =~= Seq::<N>::empty());
    }
}

} // verus!
