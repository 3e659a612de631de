use par_dfs::{Bfs, Dfs, Step, Visit};
use std::cell::Cell;
use std::collections::{HashSet, VecDeque};
use std::hash::{Hash, Hasher};

type Item<N> = Result<(N, usize), String>;
type Children<N> = Result<Vec<Result<N, String>>, String>;

fn to_stream<N>(c: Children<N>) -> VecDeque<Result<N, String>> {
    match c {
        Ok(items) => items.into_iter().collect(),
        Err(e) => vec![Err(e)].into_iter().collect(),
    }
}

/// Runs a breadth-first traversal to its end, every expansion completing as
/// soon as it is polled.
fn run_bfs<N, F>(root: N, max_depth: Option<usize>, allow_circles: bool, children: F) -> Vec<Item<N>>
where
    N: Clone + Eq + Hash,
    F: Fn(&N, usize) -> Children<N>,
{
    let mut engine = Bfs::new(root.clone(), max_depth, allow_circles);
    let mut queue: VecDeque<(N, usize)> = VecDeque::new();
    if engine.pending_len() == 1 {
        queue.push_back((root, 1));
    }
    let mut current: Option<(VecDeque<Result<N, String>>, usize)> = None;
    let mut out = Vec::new();
    loop {
        match engine.next() {
            Step::Drain => {
                let (stream, depth) = current.as_mut().unwrap();
                let depth = *depth;
                match stream.pop_front() {
                    Some(Ok(node)) => match engine.accept(node.clone()) {
                        Visit::Skip => {}
                        Visit::Emit => out.push(Ok((node, depth))),
                        Visit::Expand(d) => {
                            assert_eq!(d, depth + 1);
                            queue.push_back((node.clone(), d));
                            out.push(Ok((node, depth)));
                        }
                    },
                    Some(Err(e)) => {
                        engine.record_error();
                        out.push(Err(e));
                    }
                    None => {
                        engine.finish_stream();
                        current = None;
                    }
                }
            }
            Step::Expansion => {
                let (node, depth) = queue.pop_front().unwrap();
                assert_eq!(engine.take_expansion(), depth);
                current = Some((to_stream(children(&node, depth)), depth));
            }
            Step::End => break,
        }
    }
    assert!(queue.is_empty());
    out
}

/// Runs a depth-first traversal to its end, every expansion completing as
/// soon as it is polled.
fn run_dfs<N, F>(root: N, max_depth: Option<usize>, allow_circles: bool, children: F) -> Vec<Item<N>>
where
    N: Clone + Eq + Hash,
    F: Fn(&N, usize) -> Children<N>,
{
    let mut engine = Dfs::new(root.clone(), max_depth, allow_circles);
    let mut queue: VecDeque<(N, usize)> = VecDeque::new();
    if engine.pending_len() == 1 {
        queue.push_front((root, 1));
    }
    let mut stack: Vec<(VecDeque<Result<N, String>>, usize)> = Vec::new();
    let mut out = Vec::new();
    loop {
        match engine.next() {
            Step::Drain => {
                let (stream, depth) = stack.last_mut().unwrap();
                let depth = *depth;
                match stream.pop_front() {
                    Some(Ok(node)) => match engine.accept(node.clone()) {
                        Visit::Skip => {}
                        Visit::Emit => out.push(Ok((node, depth))),
                        Visit::Expand(d) => {
                            assert_eq!(d, depth + 1);
                            queue.push_front((node.clone(), d));
                            out.push(Ok((node, depth)));
                        }
                    },
                    Some(Err(e)) => {
                        engine.record_error();
                        out.push(Err(e));
                    }
                    None => {
                        engine.finish_stream();
                        stack.pop();
                    }
                }
            }
            Step::Expansion => {
                let (node, depth) = queue.pop_front().unwrap();
                assert_eq!(engine.take_expansion(), depth);
                stack.push((to_stream(children(&node, depth)), depth));
            }
            Step::End => break,
        }
    }
    assert!(queue.is_empty());
    assert!(stack.is_empty());
    out
}

/// Every integer `n` has the two children `2n+1` and `2n+2`.
fn binary(n: &u64, _depth: usize) -> Children<u64> {
    Ok(vec![Ok(2 * n + 1), Ok(2 * n + 2)])
}

/// A node of the binary tree whose identity is its level: two nodes of one
/// level count as the same node.
#[derive(Clone, Debug)]
struct Level {
    value: u64,
    depth: usize,
}

impl PartialEq for Level {
    fn eq(&self, other: &Level) -> bool {
        self.depth == other.depth
    }
}

impl Eq for Level {}

impl Hash for Level {
    fn hash<H: Hasher>(&self, state: &mut H) {
        self.depth.hash(state);
    }
}

fn level_children(n: &Level, depth: usize) -> Children<Level> {
    Ok(vec![
        Ok(Level { value: 2 * n.value + 1, depth }),
        Ok(Level { value: 2 * n.value + 2, depth }),
    ])
}

fn level_root() -> Level {
    Level { value: 0, depth: 0 }
}

fn depths<N>(out: &[Item<N>]) -> Vec<usize> {
    out.iter().filter_map(|i| i.as_ref().ok().map(|(_, d)| *d)).collect()
}

fn nodes<N: Clone>(out: &[Item<N>]) -> Vec<N> {
    out.iter().filter_map(|i| i.as_ref().ok().map(|(n, _)| n.clone())).collect()
}

#[test]
fn bfs_binary_tree_with_circles() {
    let out = run_bfs(0u64, Some(3), true, binary);
    assert_eq!(depths(&out), vec![1, 1, 2, 2, 2, 2, 3, 3, 3, 3, 3, 3, 3, 3]);
    assert_eq!(nodes(&out), vec![1, 2, 3, 4, 5, 6, 7, 8, 9, 10, 11, 12, 13, 14]);
}

#[test]
fn bfs_level_nodes_without_circles() {
    let out = run_bfs(level_root(), Some(3), false, level_children);
    assert_eq!(depths(&out), vec![1, 2, 3]);
    let values: Vec<u64> = nodes(&out).iter().map(|n| n.value).collect();
    assert_eq!(values, vec![1, 3, 7]);
}

#[test]
fn dfs_binary_tree_with_circles() {
    let out = run_dfs(0u64, Some(3), true, binary);
    assert_eq!(depths(&out), vec![1, 2, 3, 3, 2, 3, 3, 1, 2, 3, 3, 2, 3, 3]);
    assert_eq!(nodes(&out), vec![1, 3, 7, 8, 4, 9, 10, 2, 5, 11, 12, 6, 13, 14]);
}

#[test]
fn dfs_level_nodes_without_circles() {
    let out = run_dfs(level_root(), Some(3), false, level_children);
    assert_eq!(depths(&out), vec![1, 2, 3]);
    let values: Vec<u64> = nodes(&out).iter().map(|n| n.value).collect();
    assert_eq!(values, vec![1, 3, 7]);
}

/// Expansion fails for every node `n` with `n % 3 == 2`.
fn failing_third(n: &u64, _depth: usize) -> Children<u64> {
    if n % 3 == 2 {
        Err(format!("E{}", n))
    } else {
        Ok(vec![Ok(2 * n + 1), Ok(2 * n + 2)])
    }
}

#[test]
fn bfs_expansion_errors_pass_through() {
    let out = run_bfs(0u64, Some(3), true, failing_third);
    let expected: Vec<Item<u64>> = vec![
        Ok((1, 1)),
        Ok((2, 1)),
        Ok((3, 2)),
        Ok((4, 2)),
        Err("E2".to_string()),
        Ok((7, 3)),
        Ok((8, 3)),
        Ok((9, 3)),
        Ok((10, 3)),
    ];
    assert_eq!(out, expected);
}

#[test]
fn dfs_expansion_errors_pass_through() {
    let out = run_dfs(0u64, Some(3), true, failing_third);
    let expected: Vec<Item<u64>> = vec![
        Ok((1, 1)),
        Ok((3, 2)),
        Ok((7, 3)),
        Ok((8, 3)),
        Ok((4, 2)),
        Ok((9, 3)),
        Ok((10, 3)),
        Ok((2, 1)),
        Err("E2".to_string()),
    ];
    assert_eq!(out, expected);
}

/// The stream of each node yields an error between its two children.
fn failing_item(n: &u64, _depth: usize) -> Children<u64> {
    Ok(vec![Ok(2 * n + 1), Err(format!("I{}", n)), Ok(2 * n + 2)])
}

#[test]
fn bfs_item_errors_keep_stream_going() {
    let out = run_bfs(0u64, Some(2), false, failing_item);
    let expected: Vec<Item<u64>> = vec![
        Ok((1, 1)),
        Err("I0".to_string()),
        Ok((2, 1)),
        Ok((3, 2)),
        Err("I1".to_string()),
        Ok((4, 2)),
        Ok((5, 2)),
        Err("I2".to_string()),
        Ok((6, 2)),
    ];
    assert_eq!(out, expected);
}

#[test]
fn dfs_item_errors_keep_stream_going() {
    let out = run_dfs(0u64, Some(2), false, failing_item);
    let expected: Vec<Item<u64>> = vec![
        Ok((1, 1)),
        Ok((3, 2)),
        Err("I1".to_string()),
        Ok((4, 2)),
        Err("I0".to_string()),
        Ok((2, 1)),
        Ok((5, 2)),
        Err("I2".to_string()),
        Ok((6, 2)),
    ];
    assert_eq!(out, expected);
}

#[test]
fn max_depth_zero_emits_nothing() {
    let calls = Cell::new(0u32);
    let counting = |n: &u64, d: usize| {
        calls.set(calls.get() + 1);
        binary(n, d)
    };
    assert!(run_bfs(0u64, Some(0), true, &counting).is_empty());
    assert!(run_bfs(0u64, Some(0), false, &counting).is_empty());
    assert!(run_dfs(0u64, Some(0), true, &counting).is_empty());
    assert!(run_dfs(0u64, Some(0), false, &counting).is_empty());
    assert_eq!(calls.get(), 0);
}

#[test]
fn engines_end_at_once_for_max_depth_zero() {
    let b = Bfs::new(5u64, Some(0), false);
    assert_eq!(b.pending_len(), 0);
    assert_eq!(b.next(), Step::End);
    let d = Dfs::new(5u64, Some(0), true);
    assert_eq!(d.pending_len(), 0);
    assert_eq!(d.next(), Step::End);
}

#[test]
fn engines_request_the_root_children_first() {
    let b = Bfs::new(5u64, None, false);
    assert_eq!(b.pending_len(), 1);
    assert_eq!(b.next(), Step::Expansion);
    let d = Dfs::new(5u64, Some(1), true);
    assert_eq!(d.pending_len(), 1);
    assert_eq!(d.next(), Step::Expansion);
}

#[test]
fn root_is_never_emitted_without_circles() {
    let mut b = Bfs::new(7u64, None, false);
    assert_eq!(b.take_expansion(), 1);
    assert_eq!(b.accept(7), Visit::Skip);
    assert_eq!(b.accept(8), Visit::Expand(2));
    assert_eq!(b.accept(8), Visit::Skip);
    assert_eq!(b.pending_len(), 1);
    let mut d = Dfs::new(7u64, None, false);
    assert_eq!(d.take_expansion(), 1);
    assert_eq!(d.accept(7), Visit::Skip);
    assert_eq!(d.accept(8), Visit::Expand(2));
    assert_eq!(d.next(), Step::Expansion);
}

#[test]
fn node_at_max_depth_is_emitted_not_expanded() {
    let mut b = Bfs::new(0u64, Some(1), true);
    assert_eq!(b.take_expansion(), 1);
    assert_eq!(b.accept(1), Visit::Emit);
    assert_eq!(b.accept(1), Visit::Emit);
    assert_eq!(b.pending_len(), 0);
    b.finish_stream();
    assert_eq!(b.next(), Step::End);
    let mut d = Dfs::new(0u64, Some(2), true);
    assert_eq!(d.take_expansion(), 1);
    assert_eq!(d.accept(1), Visit::Expand(2));
    assert_eq!(d.take_expansion(), 2);
    assert_eq!(d.accept(3), Visit::Emit);
    assert_eq!(d.next(), Step::Drain);
}

#[test]
fn dfs_pops_exhausted_streams_in_one_go() {
    let mut d = Dfs::new(0u64, None, true);
    d.take_expansion();
    d.accept(1);
    assert_eq!(d.take_expansion(), 2);
    d.finish_stream();
    assert_eq!(d.next(), Step::Drain);
    d.finish_stream();
    assert_eq!(d.next(), Step::End);
}

/// A small cyclic graph: 0 -> 1, 2; 1 -> 2, 3; 2 -> 0, 3; 3 -> 1.
fn cyclic(n: &u64, _depth: usize) -> Children<u64> {
    let c = match n {
        0 => vec![1, 2],
        1 => vec![2, 3],
        2 => vec![0, 3],
        _ => vec![1],
    };
    Ok(c.into_iter().map(Ok).collect())
}

#[test]
fn cycles_are_cut_without_circles() {
    let b = nodes(&run_bfs(0u64, None, false, cyclic));
    assert_eq!(b, vec![1, 2, 3]);
    let d = nodes(&run_dfs(0u64, None, false, cyclic));
    assert_eq!(d, vec![1, 2, 3]);
}

#[test]
fn reachable_nodes_emitted_once_each() {
    // Every node n < 40 has children 2n+1 and n+1 (a graph with shared nodes).
    let shared = |n: &u64, _d: usize| -> Children<u64> {
        if *n >= 40 {
            Ok(vec![])
        } else {
            Ok(vec![Ok(2 * n + 1), Ok(n + 1)])
        }
    };
    for out in [run_bfs(0u64, None, false, shared), run_dfs(0u64, None, false, shared)] {
        let emitted = nodes(&out);
        let distinct: HashSet<u64> = emitted.iter().copied().collect();
        assert_eq!(distinct.len(), emitted.len());
        // The reachable set: 1..=40 by n+1 steps, and 2n+1 for n < 40.
        let mut expected: HashSet<u64> = (1..=40).collect();
        expected.extend((0..40).map(|n| 2 * n + 1));
        assert_eq!(distinct, expected);
    }
}

#[test]
fn bfs_depths_never_decrease() {
    let out = run_bfs(0u64, Some(5), true, binary);
    let ds = depths(&out);
    assert_eq!(ds.len(), 62);
    assert!(ds.windows(2).all(|w| w[0] <= w[1]));
}

#[test]
fn dfs_never_skips_a_level_going_down() {
    let out = run_dfs(0u64, Some(5), true, binary);
    let ds = depths(&out);
    assert_eq!(ds.len(), 62);
    assert_eq!(ds[0], 1);
    assert!(ds.windows(2).all(|w| w[1] <= w[0] + 1));
}

#[test]
fn no_node_deeper_than_max_depth() {
    for max in 1..5usize {
        for out in [run_bfs(0u64, Some(max), true, binary), run_dfs(0u64, Some(max), true, binary)] {
            let ds = depths(&out);
            assert!(ds.iter().all(|d| *d >= 1 && *d <= max));
            assert_eq!(ds.iter().filter(|d| **d == max).count(), 1 << max);
        }
    }
}
