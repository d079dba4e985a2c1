use oxidd_rules::ldd::apply::{apply_union, make_node};
use oxidd_rules::ldd::arcs::{find_arc, search_arc};
use oxidd_rules::ldd::firing::{
    SaturationEvent, NOT_IN_RELATION, READ_OF_PAIR, READ_ONLY, WRITE_OF_PAIR, WRITE_ONLY,
};
use oxidd_rules::ldd::manager::{LDDManager, LDDTerminal, Node};
use oxidd_rules::ldd::saturate::saturate;
use oxidd_rules::ldd::semantics::{LDDEdge, LDDNode};
use oxidd_rules::util::OutOfMemory;
use std::collections::BTreeSet;

type Vector = Vec<u32>;

fn empty(m: &LDDManager) -> LDDEdge {
    m.get_terminal(LDDTerminal::Empty)
}

fn unit(m: &LDDManager) -> LDDEdge {
    m.get_terminal(LDDTerminal::True)
}

fn singleton(m: &mut LDDManager, v: &[u32]) -> LDDEdge {
    let mut e = unit(m);
    for &x in v.iter().rev() {
        let none = empty(m);
        e = make_node(m, x, e, none).unwrap();
    }
    e
}

fn set_of(m: &mut LDDManager, vectors: &[Vector]) -> LDDEdge {
    let mut e = empty(m);
    for v in vectors {
        let s = singleton(m, v);
        e = apply_union(m, e, s).unwrap();
    }
    e
}

fn collect(m: &LDDManager, e: LDDEdge, prefix: &mut Vector, out: &mut Vec<Vector>) {
    match m.get_node(e) {
        Node::Terminal(LDDTerminal::Empty) => {}
        Node::Terminal(LDDTerminal::True) => out.push(prefix.clone()),
        Node::Inner(n) => {
            prefix.push(n.value);
            collect(m, n.down, prefix, out);
            prefix.pop();
            collect(m, n.right, prefix, out);
        }
    }
}

fn vectors(m: &LDDManager, e: LDDEdge) -> Vec<Vector> {
    let mut out = Vec::new();
    collect(m, e, &mut Vec::new(), &mut out);
    out
}

fn meta(m: &mut LDDManager, codes: &[u32]) -> LDDEdge {
    singleton(m, codes)
}

/// All successors of `x` under one transition.
fn fire(codes: &[u32], r: &[u32], x: &[u32]) -> Option<Vector> {
    let mut y = Vec::new();
    let mut pos = 0;
    let mut rest = r;
    let mut k = 0;
    while k < codes.len() {
        if pos >= x.len() {
            return None;
        }
        match codes[k] {
            NOT_IN_RELATION => y.push(x[pos]),
            READ_ONLY => {
                if *rest.first()? != x[pos] {
                    return None;
                }
                y.push(x[pos]);
                rest = &rest[1..];
            }
            WRITE_ONLY => {
                y.push(*rest.first()?);
                rest = &rest[1..];
            }
            READ_OF_PAIR => {
                assert_eq!(codes[k + 1], WRITE_OF_PAIR);
                k += 1;
                if rest.len() < 2 || rest[0] != x[pos] {
                    return None;
                }
                y.push(rest[1]);
                rest = &rest[2..];
            }
            _ => unreachable!(),
        }
        pos += 1;
        k += 1;
    }
    y.extend_from_slice(&x[pos..]);
    Some(y)
}

struct Plain {
    top: usize,
    codes: Vector,
    relation: Vec<Vector>,
}

fn explore(start: &[Vector], p: usize, events: &[Plain]) -> Vec<Vector> {
    let mut all: BTreeSet<Vector> = start.iter().cloned().collect();
    let mut todo: Vec<Vector> = start.to_vec();
    while let Some(x) = todo.pop() {
        for e in events {
            if e.top < p || e.top - p > x.len() {
                continue;
            }
            let k = e.top - p;
            for r in &e.relation {
                if let Some(tail) = fire(&e.codes, r, &x[k..]) {
                    let mut y = x[..k].to_vec();
                    y.extend(tail);
                    if all.insert(y.clone()) {
                        todo.push(y);
                    }
                }
            }
        }
    }
    all.into_iter().collect()
}

fn event(m: &mut LDDManager, e: &Plain) -> SaturationEvent {
    SaturationEvent {
        top: e.top as u32,
        meta_at_top: meta(m, &e.codes),
        relation: set_of(m, &e.relation),
    }
}

fn manager() -> LDDManager {
    LDDManager::new(100000, 256)
}

#[test]
fn find_arc_finds_values() {
    let arcs = [(1u32, 'a'), (4, 'b'), (7, 'c'), (9, 'd')];
    assert_eq!(find_arc(&arcs, &1), Some(0));
    assert_eq!(find_arc(&arcs, &4), Some(1));
    assert_eq!(find_arc(&arcs, &9), Some(3));
    assert_eq!(find_arc(&arcs, &0), None);
    assert_eq!(find_arc(&arcs, &5), None);
    assert_eq!(find_arc(&arcs, &10), None);
    assert_eq!(find_arc::<u32, char>(&[], &1), None);
}

#[test]
fn find_arc_with_repeated_values() {
    let arcs = [(1u32, 'a'), (4, 'b'), (4, 'c'), (4, 'd'), (9, 'e')];
    let pos = find_arc(&arcs, &4).unwrap();
    assert_eq!(arcs[pos].0, 4);
    assert_eq!(find_arc(&arcs, &1), Some(0));
    assert_eq!(find_arc(&arcs, &9), Some(4));
    assert_eq!(find_arc(&arcs, &5), None);
    assert_eq!(search_arc(&arcs, &5), Err(4));
}

#[test]
fn search_arc_gives_insert_position() {
    let arcs = [(1u32, 'a'), (4, 'b'), (7, 'c')];
    assert_eq!(search_arc(&arcs, &7), Ok(2));
    assert_eq!(search_arc(&arcs, &0), Err(0));
    assert_eq!(search_arc(&arcs, &5), Err(2));
    assert_eq!(search_arc(&arcs, &8), Err(3));
}

#[test]
fn terminals_are_distinct() {
    let m = manager();
    assert_ne!(empty(&m), unit(&m));
    assert_eq!(vectors(&m, empty(&m)), Vec::<Vector>::new());
    assert_eq!(vectors(&m, unit(&m)), vec![Vec::<u32>::new()]);
    assert_eq!(m.num_inner_nodes(), 0);
}

#[test]
fn make_node_without_continuations_is_right() {
    let mut m = manager();
    let right = singleton(&mut m, &[3, 1]);
    let none = empty(&m);
    assert_eq!(make_node(&mut m, 2, none, right), Ok(right));
}

#[test]
fn make_node_is_hash_consed() {
    let mut m = manager();
    let a = singleton(&mut m, &[1, 2, 3]);
    let n = m.num_inner_nodes();
    let b = singleton(&mut m, &[1, 2, 3]);
    assert_eq!(a, b);
    assert_eq!(m.num_inner_nodes(), n);
}

#[test]
fn full_store_gives_out_of_memory() {
    let mut m = LDDManager::new(1, 8);
    let u = unit(&m);
    let none = empty(&m);
    let a = make_node(&mut m, 1, u, none).unwrap();
    assert_eq!(make_node(&mut m, 2, u, none), Err(OutOfMemory));
    assert_eq!(make_node(&mut m, 1, u, none), Ok(a));
    assert_eq!(
        m.get_or_insert(LDDNode { value: 0, down: u, right: a }),
        Err(OutOfMemory)
    );
    assert_eq!(m.num_inner_nodes(), 1);
}

#[test]
fn union_of_sets() {
    let mut m = manager();
    let a = set_of(&mut m, &[vec![1, 2], vec![3, 4], vec![5, 0]]);
    let b = set_of(&mut m, &[vec![0, 9], vec![3, 1], vec![5, 0]]);
    let c = apply_union(&mut m, a, b).unwrap();
    assert_eq!(
        vectors(&m, c),
        vec![vec![0, 9], vec![1, 2], vec![3, 1], vec![3, 4], vec![5, 0]]
    );
    assert_eq!(apply_union(&mut m, b, a), Ok(c));
    assert_eq!(apply_union(&mut m, c, a), Ok(c));
    let none = empty(&m);
    assert_eq!(apply_union(&mut m, none, a), Ok(a));
    assert_eq!(apply_union(&mut m, a, none), Ok(a));
}

#[test]
fn same_set_same_edge() {
    let mut m = manager();
    let a = set_of(&mut m, &[vec![1, 1], vec![2, 2], vec![1, 3]]);
    let b = set_of(&mut m, &[vec![1, 3], vec![1, 1], vec![2, 2]]);
    assert_eq!(a, b);
    let c = set_of(&mut m, &[vec![1, 3], vec![2, 2]]);
    assert_ne!(a, c);
}

#[test]
fn union_out_of_memory() {
    let mut m = LDDManager::new(2, 8);
    let a = singleton(&mut m, &[1]);
    let b = singleton(&mut m, &[2]);
    assert_eq!(apply_union(&mut m, a, b), Err(OutOfMemory));
    assert_eq!(vectors(&m, a), vec![vec![1]]);
}

#[test]
fn full_store_still_finds_unions() {
    let mut m = LDDManager::new(3, 1);
    let a = singleton(&mut m, &[1]);
    let b = singleton(&mut m, &[2]);
    let ab = apply_union(&mut m, a, b).unwrap();
    assert_eq!(m.num_inner_nodes(), 3);
    assert_eq!(apply_union(&mut m, b, a), Ok(ab));
    assert_eq!(apply_union(&mut m, ab, b), Ok(ab));
}

#[test]
fn saturate_read_write_pair() {
    let mut m = manager();
    // A counter that goes from 0 to 1 to 2 to 3.
    let e = Plain {
        top: 0,
        codes: vec![READ_OF_PAIR, WRITE_OF_PAIR],
        relation: vec![vec![0, 1], vec![1, 2], vec![2, 3]],
    };
    let ev = [event(&mut m, &e)];
    let q = set_of(&mut m, &[vec![1]]);
    let r = saturate(&mut m, q, 0, &ev, 0).unwrap();
    assert_eq!(vectors(&m, r), vec![vec![1], vec![2], vec![3]]);
    let q = set_of(&mut m, &[vec![3]]);
    assert_eq!(saturate(&mut m, q, 0, &ev, 0), Ok(q));
}

#[test]
fn saturate_read_only() {
    let mut m = manager();
    // If the first component is 5, the second one is set to 7.
    let e = Plain { top: 0, codes: vec![READ_ONLY, WRITE_ONLY], relation: vec![vec![5, 7]] };
    let ev = [event(&mut m, &e)];
    let q = set_of(&mut m, &[vec![5, 1], vec![4, 2]]);
    let r = saturate(&mut m, q, 0, &ev, 0).unwrap();
    assert_eq!(vectors(&m, r), vec![vec![4, 2], vec![5, 1], vec![5, 7]]);
}

#[test]
fn saturate_write_only() {
    let mut m = manager();
    let e = Plain { top: 1, codes: vec![WRITE_ONLY], relation: vec![vec![0], vec![9]] };
    let ev = [event(&mut m, &e)];
    let q = set_of(&mut m, &[vec![1, 4, 2]]);
    let r = saturate(&mut m, q, 0, &ev, 0).unwrap();
    assert_eq!(vectors(&m, r), vec![vec![1, 0, 2], vec![1, 4, 2], vec![1, 9, 2]]);
}

#[test]
fn saturate_skips_positions() {
    let mut m = manager();
    // Swaps 0 and 1 between the first and the third component.
    let e = Plain {
        top: 0,
        codes: vec![
            READ_OF_PAIR,
            WRITE_OF_PAIR,
            NOT_IN_RELATION,
            READ_OF_PAIR,
            WRITE_OF_PAIR,
        ],
        relation: vec![vec![0, 1, 1, 0], vec![1, 0, 0, 1]],
    };
    let ev = [event(&mut m, &e)];
    let q = set_of(&mut m, &[vec![0, 8, 1], vec![1, 3, 1]]);
    let r = saturate(&mut m, q, 0, &ev, 0).unwrap();
    assert_eq!(vectors(&m, r), vec![vec![0, 8, 1], vec![1, 3, 1], vec![1, 8, 0]]);
}

#[test]
fn saturate_ignores_events_above() {
    let mut m = manager();
    let e = Plain { top: 0, codes: vec![WRITE_ONLY], relation: vec![vec![9]] };
    let ev = [event(&mut m, &e)];
    let q = set_of(&mut m, &[vec![1, 2]]);
    assert_eq!(saturate(&mut m, q, 1, &ev, 0), Ok(q));
    let r = saturate(&mut m, q, 0, &ev, 0).unwrap();
    assert_eq!(vectors(&m, r), vec![vec![1, 2], vec![9, 2]]);
}

#[test]
fn saturate_below_the_vectors_does_nothing() {
    let mut m = manager();
    let e = Plain { top: 4, codes: vec![WRITE_ONLY], relation: vec![vec![9]] };
    let ev = [event(&mut m, &e)];
    let q = set_of(&mut m, &[vec![1, 2]]);
    assert_eq!(saturate(&mut m, q, 0, &ev, 0), Ok(q));
}

#[test]
fn saturate_terminals() {
    let mut m = manager();
    let e = Plain { top: 0, codes: vec![WRITE_ONLY], relation: vec![vec![9]] };
    let ev = [event(&mut m, &e)];
    let none = empty(&m);
    let one = unit(&m);
    assert_eq!(saturate(&mut m, none, 0, &ev, 0), Ok(none));
    assert_eq!(saturate(&mut m, one, 0, &ev, 0), Ok(one));
}

#[test]
fn full_store_saturates_terminals() {
    let mut m = LDDManager::new(1, 1);
    let e = Plain { top: 0, codes: vec![WRITE_ONLY], relation: vec![vec![WRITE_ONLY]] };
    let ev = [event(&mut m, &e)];
    assert_eq!(m.num_inner_nodes(), 1);
    let none = empty(&m);
    let one = unit(&m);
    assert_eq!(saturate(&mut m, none, 0, &ev, 0), Ok(none));
    assert_eq!(saturate(&mut m, one, 0, &ev, 0), Ok(one));
}

#[test]
fn full_store_saturates_below_all_events() {
    let mut m = LDDManager::new(40, 4);
    let q = set_of(&mut m, &[vec![1, 2, 3], vec![1, 2, 5], vec![4, 2, 3]]);
    let e = event(
        &mut m,
        &Plain {
            top: 1,
            codes: vec![READ_OF_PAIR, WRITE_OF_PAIR],
            relation: vec![vec![2, 3], vec![1, 7]],
        },
    );
    let mut v = 100;
    loop {
        let (down, right) = (unit(&m), empty(&m));
        if make_node(&mut m, v, down, right).is_err() {
            break;
        }
        v += 1;
    }
    assert_eq!(m.num_inner_nodes(), 40);
    // The event would change the vectors if they started above.
    assert_eq!(saturate(&mut m, q, 0, &[e], 0), Err(OutOfMemory));
    assert_eq!(saturate(&mut m, q, 2, &[e], 0), Ok(q));
    assert_eq!(saturate(&mut m, q, 2, &[e], 0), Ok(q));
    assert_eq!(m.num_inner_nodes(), 40);
}

#[test]
fn full_store_fires_what_matches_nothing() {
    let mut m = LDDManager::new(40, 4);
    let q = set_of(&mut m, &[vec![1, 2, 3], vec![1, 2, 5], vec![4, 2, 3]]);
    let mut events = Vec::new();
    for (top, codes, relation) in [
        (0, vec![READ_ONLY, READ_OF_PAIR, WRITE_OF_PAIR], vec![vec![2, 2, 3]]),
        (0, vec![READ_OF_PAIR, WRITE_OF_PAIR], vec![vec![2, 1], vec![3, 9]]),
        (0, vec![WRITE_ONLY, NOT_IN_RELATION, READ_ONLY], vec![vec![8, 4]]),
        (1, vec![READ_OF_PAIR, WRITE_OF_PAIR, NOT_IN_RELATION, READ_ONLY], vec![vec![2, 1, 3]]),
    ] {
        events.push(event(&mut m, &Plain { top, codes, relation }));
    }
    let mut v = 100;
    loop {
        let (down, right) = (unit(&m), empty(&m));
        if make_node(&mut m, v, down, right).is_err() {
            break;
        }
        v += 1;
    }
    assert_eq!(saturate(&mut m, q, 0, &events, 0), Ok(q));
    assert_eq!(m.num_inner_nodes(), 40);
}

#[test]
fn saturate_ignores_the_meta_of_events_above() {
    let mut m = manager();
    let q = set_of(&mut m, &[vec![1, 2], vec![3, 2]]);
    let good = event(
        &mut m,
        &Plain { top: 1, codes: vec![READ_OF_PAIR, WRITE_OF_PAIR], relation: vec![vec![1, 5]] },
    );
    let bad = SaturationEvent { top: 0, meta_at_top: unit(&m), relation: q };
    let r = saturate(&mut m, q, 1, &[bad, good], 0).unwrap();
    assert_eq!(vectors(&m, r), vec![vec![1, 2], vec![3, 2], vec![5, 2]]);
    // A terminal is saturated whatever the number of the events identifies.
    let one = unit(&m);
    assert_eq!(saturate(&mut m, one, 0, &[bad], 0), Ok(one));
}

#[test]
fn saturated_set_is_its_own_saturation() {
    let mut m = manager();
    let q = set_of(&mut m, &[vec![0, 0]]);
    let mut events = Vec::new();
    for top in 0..2 {
        let relation = (0..3).map(|i| vec![i, i + 1]).collect();
        let codes = vec![READ_OF_PAIR, WRITE_OF_PAIR];
        events.push(event(&mut m, &Plain { top, codes, relation }));
    }
    let r = saturate(&mut m, q, 0, &events, 0).unwrap();
    assert_eq!(vectors(&m, r).len(), 16);
    let nodes = m.num_inner_nodes();
    assert_eq!(saturate(&mut m, q, 0, &events, 0), Ok(r));
    assert_eq!(saturate(&mut m, r, 0, &events, 0), Ok(r));
    assert_eq!(m.num_inner_nodes(), nodes);
}

#[test]
fn saturate_without_events() {
    let mut m = manager();
    let q = set_of(&mut m, &[vec![1, 2], vec![3, 4]]);
    assert_eq!(saturate(&mut m, q, 0, &[], 0), Ok(q));
}

#[test]
fn saturate_at_different_positions_with_one_epoch() {
    let mut m = manager();
    let e = Plain {
        top: 1,
        codes: vec![READ_OF_PAIR, WRITE_OF_PAIR],
        relation: vec![vec![5, 6]],
    };
    let ev = [event(&mut m, &e)];
    let short = set_of(&mut m, &[vec![5]]);
    assert_eq!(saturate(&mut m, short, 0, &ev, 3), Ok(short));
    let long = set_of(&mut m, &[vec![3, 5]]);
    let r = saturate(&mut m, long, 0, &ev, 3).unwrap();
    assert_eq!(vectors(&m, r), vec![vec![3, 5], vec![3, 6]]);
}

#[test]
fn saturate_with_different_epochs() {
    let mut m = manager();
    let up = Plain { top: 0, codes: vec![READ_OF_PAIR, WRITE_OF_PAIR], relation: vec![vec![0, 1]] };
    let down = Plain { top: 0, codes: vec![READ_OF_PAIR, WRITE_OF_PAIR], relation: vec![vec![0, 2]] };
    let up = [event(&mut m, &up)];
    let down = [event(&mut m, &down)];
    let q = set_of(&mut m, &[vec![0]]);
    let a = saturate(&mut m, q, 0, &up, 1).unwrap();
    let b = saturate(&mut m, q, 0, &down, 2).unwrap();
    assert_eq!(vectors(&m, a), vec![vec![0], vec![1]]);
    assert_eq!(vectors(&m, b), vec![vec![0], vec![2]]);
}

#[test]
fn saturate_is_idempotent_and_distributes() {
    let mut m = manager();
    let e = Plain {
        top: 0,
        codes: vec![READ_OF_PAIR, WRITE_OF_PAIR, READ_ONLY],
        relation: vec![vec![0, 1, 7], vec![1, 2, 7], vec![2, 0, 8]],
    };
    let ev = [event(&mut m, &e)];
    let a = set_of(&mut m, &[vec![0, 7], vec![2, 8]]);
    let b = set_of(&mut m, &[vec![1, 7], vec![4, 4]]);
    let ra = saturate(&mut m, a, 0, &ev, 0).unwrap();
    assert_eq!(saturate(&mut m, ra, 0, &ev, 0), Ok(ra));
    let rb = saturate(&mut m, b, 0, &ev, 0).unwrap();
    let ab = apply_union(&mut m, a, b).unwrap();
    let rab = saturate(&mut m, ab, 0, &ev, 0).unwrap();
    assert_eq!(apply_union(&mut m, ra, rb), Ok(rab));
}

#[test]
fn saturate_out_of_memory_keeps_sets() {
    let e = Plain {
        top: 0,
        codes: vec![WRITE_ONLY],
        relation: vec![vec![0], vec![1], vec![2], vec![3], vec![4]],
    };
    // Leave room for a single node after the operands are built.
    let mut m = manager();
    event(&mut m, &e);
    set_of(&mut m, &[vec![7, 7]]);
    let n = m.num_inner_nodes();
    let mut m = LDDManager::new(n as u32 + 1, 16);
    let ev = [event(&mut m, &e)];
    let q = set_of(&mut m, &[vec![7, 7]]);
    assert_eq!(saturate(&mut m, q, 0, &ev, 0), Err(OutOfMemory));
    assert_eq!(m.num_inner_nodes(), n + 1);
    assert_eq!(vectors(&m, q), vec![vec![7, 7]]);
    assert_eq!(saturate(&mut m, q, 1, &ev, 0), Ok(q));
}

struct Random(u64);

impl Random {
    fn below(&mut self, n: u32) -> u32 {
        self.0 = self.0.wrapping_mul(6364136223846793005).wrapping_add(1442695040888963407);
        ((self.0 >> 33) as u32) % n
    }
}

fn random_event(rng: &mut Random, k: usize, values: u32) -> Plain {
    let top = rng.below(k as u32) as usize;
    let len = 1 + rng.below((k - top) as u32) as usize;
    let mut codes = Vec::new();
    let mut width = 0;
    for i in 0..len {
        match rng.below(4) {
            0 if i > 0 => codes.push(NOT_IN_RELATION),
            1 => {
                codes.push(WRITE_ONLY);
                width += 1;
            }
            2 => {
                codes.push(READ_OF_PAIR);
                codes.push(WRITE_OF_PAIR);
                width += 2;
            }
            _ => {
                codes.push(READ_ONLY);
                width += 1;
            }
        }
    }
    let mut relation = Vec::new();
    for _ in 0..1 + rng.below(4) {
        relation.push((0..width).map(|_| rng.below(values)).collect());
    }
    Plain { top, codes, relation }
}

#[test]
fn saturate_agrees_with_explicit_search() {
    let mut rng = Random(42);
    for round in 0..150 {
        // A tiny cache makes entries collide, a larger one makes them survive.
        let mut m = LDDManager::new(200000, if round % 2 == 0 { 4 } else { 4096 });
        let k = 1 + rng.below(4) as usize;
        let values = 3;
        let mut plain = Vec::new();
        for _ in 0..1 + rng.below(4) {
            plain.push(random_event(&mut rng, k, values));
        }
        let mut events = Vec::new();
        for e in &plain {
            events.push(event(&mut m, e));
        }
        for _ in 0..3 {
            let mut start: Vec<Vector> = Vec::new();
            for _ in 0..1 + rng.below(3) {
                start.push((0..k).map(|_| rng.below(values)).collect());
            }
            let q = set_of(&mut m, &start);
            let r = saturate(&mut m, q, 0, &events, round).unwrap();
            assert_eq!(vectors(&m, r), explore(&start, 0, &plain));
        }
    }
}
