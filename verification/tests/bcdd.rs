use oxidd_rules::complement_edge::apply_rec_mt::BCDDFunctionMT;
use oxidd_rules::complement_edge::edge::{Edge, EdgeTag};
use oxidd_rules::complement_edge::manager::Manager;
use oxidd_rules::complement_edge::substitution::Substitution;
use oxidd_rules::complement_edge::valuation::SatCountCache;
use oxidd_rules::util::OutOfMemory;

type F = BCDDFunctionMT<Edge>;

const VARS: u32 = 4;

/// A manager with `VARS` variables.
fn setup(cache_size: usize, threads: u32) -> (Manager, Vec<Edge>) {
    let mut m = Manager::new(100000, cache_size, threads);
    let mut vars = Vec::new();
    for _ in 0..VARS {
        vars.push(F::new_var(&mut m).unwrap().into_inner());
    }
    (m, vars)
}

fn args(vars: &[Edge], env: u32) -> Vec<(Edge, bool)> {
    vars.iter().enumerate().map(|(i, v)| (*v, env >> i & 1 == 1)).collect()
}

/// The truth table: one bit for each assignment.
fn table(m: &Manager, vars: &[Edge], f: Edge) -> u32 {
    let mut t = 0;
    for env in 0..1 << VARS {
        if F::eval_edge(m, &f, &args(vars, env)) {
            t |= 1 << env;
        }
    }
    t
}

/// The function with the given truth table.
fn function(m: &mut Manager, vars: &[Edge], t: u32) -> Edge {
    build(m, vars, t, VARS)
}

fn build(m: &mut Manager, vars: &[Edge], t: u32, n: u32) -> Edge {
    if n == 0 {
        return if t & 1 == 1 { F::t_edge(m) } else { F::f_edge(m) };
    }
    let half = 1 << (n - 1);
    let low = build(m, vars, t & ((1u64 << half) - 1) as u32, n - 1);
    let high = build(m, vars, t >> half, n - 1);
    F::ite_edge(m, &vars[n as usize - 1], &high, &low).unwrap()
}

fn mask() -> u32 {
    ((1u64 << (1 << VARS)) - 1) as u32
}

struct Random(u64);

impl Random {
    fn next(&mut self) -> u32 {
        self.0 = self.0.wrapping_mul(6364136223846793005).wrapping_add(1442695040888963407);
        (self.0 >> 33) as u32
    }
    fn table(&mut self) -> u32 {
        self.next() & mask()
    }
}

/// Truth table of the cofactor with the variable `v` fixed.
fn cofactor(t: u32, v: u32, value: bool) -> u32 {
    let mut r = 0;
    for env in 0..1u32 << VARS {
        let fixed = if value { env | 1 << v } else { env & !(1 << v) };
        r |= (t >> fixed & 1) << env;
    }
    r
}

fn conjunction(m: &mut Manager, literals: &[Edge]) -> Edge {
    let mut r = F::t_edge(m);
    for l in literals {
        r = F::and_edge(m, &r, l).unwrap();
    }
    r
}

#[test]
fn and_of_two_variables() {
    let mut m = Manager::new(1000, 100, 4);
    let x = F::new_var(&mut m).unwrap().into_inner();
    let y = F::new_var(&mut m).unwrap().into_inner();
    let a = F::and_edge(&mut m, &x, &y).unwrap();
    let b = F::and_edge(&mut m, &y, &x).unwrap();
    assert_eq!(a, b);
}

#[test]
fn from_and_into_inner() {
    let e = Edge { node: 3, tag: EdgeTag::Complemented };
    assert_eq!(F::from(e).into_inner(), e);
    let w = F::from(e);
    assert_eq!(F::from(w.clone().into_inner()), w);
    assert_eq!(BCDDFunctionMT::from(17u8).into_inner(), 17);
}

#[test]
fn init_depth_by_threads() {
    assert_eq!(F::init_depth(&Manager::new(1, 1, 0)), 0);
    assert_eq!(F::init_depth(&Manager::new(1, 1, 1)), 0);
    assert_eq!(F::init_depth(&Manager::new(1, 1, 2)), 13);
    assert_eq!(F::init_depth(&Manager::new(1, 1, 3)), 13);
    assert_eq!(F::init_depth(&Manager::new(1, 1, 4)), 14);
    assert_eq!(F::init_depth(&Manager::new(1, 1, u32::MAX)), 43);
}

#[test]
fn constants() {
    let (m, vars) = setup(16, 1);
    assert_eq!(table(&m, &vars, F::t_edge(&m)), mask());
    assert_eq!(table(&m, &vars, F::f_edge(&m)), 0);
    assert_eq!(F::not_edge(&m, &F::t_edge(&m)), Ok(F::f_edge(&m)));
}

#[test]
fn variables_are_added_below() {
    let (m, vars) = setup(16, 1);
    assert_eq!(m.num_levels(), VARS);
    assert_eq!(m.num_inner_nodes(), VARS as usize);
    assert_eq!(table(&m, &vars, vars[0]), 0xaaaa);
    assert_eq!(table(&m, &vars, vars[3]), 0xff00);
}

#[test]
fn new_var_out_of_memory() {
    let mut m = Manager::new(1, 4, 1);
    assert!(F::new_var(&mut m).is_ok());
    assert_eq!(F::new_var(&mut m).err(), Some(OutOfMemory));
    assert_eq!(m.num_levels(), 1);
    assert_eq!(m.num_inner_nodes(), 1);
}

#[test]
fn negation_needs_no_node() {
    let (m, vars) = setup(16, 1);
    let n = m.num_inner_nodes();
    let a = F::not_edge(&m, &vars[1]).unwrap();
    assert_eq!(F::not_edge_owned(&m, vars[1]), Ok(a));
    assert_ne!(a, vars[1]);
    assert_eq!(F::not_edge(&m, &a), Ok(vars[1]));
    assert_eq!(m.num_inner_nodes(), n);
    assert_eq!(table(&m, &vars, a), !0xcccc & mask());
}

#[test]
fn binary_operators_agree_with_tables() {
    let mut rng = Random(1);
    for round in 0..40 {
        let (mut m, vars) = setup(if round % 2 == 0 { 1 } else { 1024 }, round % 3);
        for _ in 0..10 {
            let (s, t) = (rng.table(), rng.table());
            let f = function(&mut m, &vars, s);
            let g = function(&mut m, &vars, t);
            assert_eq!(table(&m, &vars, f), s);
            let r = F::and_edge(&mut m, &f, &g).unwrap();
            assert_eq!(table(&m, &vars, r), s & t);
            let r = F::or_edge(&mut m, &f, &g).unwrap();
            assert_eq!(table(&m, &vars, r), s | t);
            let r = F::nand_edge(&mut m, &f, &g).unwrap();
            assert_eq!(table(&m, &vars, r), !(s & t) & mask());
            let r = F::nor_edge(&mut m, &f, &g).unwrap();
            assert_eq!(table(&m, &vars, r), !(s | t) & mask());
            let r = F::xor_edge(&mut m, &f, &g).unwrap();
            assert_eq!(table(&m, &vars, r), s ^ t);
            let r = F::equiv_edge(&mut m, &f, &g).unwrap();
            assert_eq!(table(&m, &vars, r), !(s ^ t) & mask());
            let r = F::imp_edge(&mut m, &f, &g).unwrap();
            assert_eq!(table(&m, &vars, r), (!s | t) & mask());
            let r = F::imp_strict_edge(&mut m, &f, &g).unwrap();
            assert_eq!(table(&m, &vars, r), !s & t & mask());
        }
    }
}

/// Whether fixing the variables above some level turns `whole` into `part` or its negation.
fn is_part(part: u32, whole: u32) -> bool {
    (0..=VARS).any(|k| {
        (0..1u32 << k).any(|fixed| {
            let mut left = 0;
            for env in 0..1u32 << VARS {
                let x = (env >> k << k) | fixed;
                left |= (whole >> x & 1) << env;
            }
            part == left || part == !left & mask()
        })
    })
}

#[test]
fn operators_add_parts_of_their_result() {
    let mut rng = Random(11);
    for threads in [1, 2] {
        for _ in 0..30 {
            let (mut m, vars) = setup(64, threads);
            let (s, t, u) = (rng.table(), rng.table(), rng.table());
            let f = function(&mut m, &vars, s);
            let g = function(&mut m, &vars, t);
            let h = function(&mut m, &vars, u);
            let negative = F::not_edge(&m, &vars[3]).unwrap();
            let cube = conjunction(&mut m, &[vars[1], negative]);
            let mut first = m.num_inner_nodes() as u32;
            for k in 0..5 {
                let r = match k {
                    0 => F::and_edge(&mut m, &f, &g),
                    1 => F::nand_edge(&mut m, &g, &h),
                    2 => F::xor_edge(&mut m, &f, &h),
                    3 => F::ite_edge(&mut m, &f, &g, &h),
                    _ => F::restrict_edge(&mut m, &f, &cube),
                }
                .unwrap();
                let whole = table(&m, &vars, r);
                let last = m.num_inner_nodes() as u32;
                for node in first + 1..=last {
                    let e = Edge { node, tag: EdgeTag::Regular };
                    assert!(is_part(table(&m, &vars, e), whole));
                }
                first = last;
            }
        }
    }
}

#[test]
fn ite_agrees_with_tables() {
    let mut rng = Random(2);
    for round in 0..40 {
        let (mut m, vars) = setup(if round % 2 == 0 { 1 } else { 1024 }, round % 3);
        for _ in 0..10 {
            let (s, t, u) = (rng.table(), rng.table(), rng.table());
            let f = function(&mut m, &vars, s);
            let g = function(&mut m, &vars, t);
            let h = function(&mut m, &vars, u);
            let r = F::ite_edge(&mut m, &f, &g, &h).unwrap();
            assert_eq!(table(&m, &vars, r), (s & t) | (!s & u));
        }
    }
}

#[test]
fn same_function_same_edge() {
    let mut rng = Random(3);
    let (mut m, vars) = setup(8, 2);
    for _ in 0..50 {
        let (s, t) = (rng.table(), rng.table());
        let f = function(&mut m, &vars, s);
        let g = function(&mut m, &vars, t);
        let a = F::and_edge(&mut m, &f, &g).unwrap();
        assert_eq!(function(&mut m, &vars, s & t), a);
        let nf = F::not_edge(&m, &f).unwrap();
        let ng = F::not_edge(&m, &g).unwrap();
        let o = F::or_edge(&mut m, &nf, &ng).unwrap();
        assert_eq!(F::not_edge(&m, &o), Ok(a));
        assert_eq!(f == g, s == t);
    }
}

#[test]
fn unsatisfiable_is_false() {
    let (mut m, vars) = setup(8, 1);
    let n = F::not_edge(&m, &vars[2]).unwrap();
    assert_eq!(F::and_edge(&mut m, &vars[2], &n), Ok(F::f_edge(&m)));
    assert_eq!(F::or_edge(&mut m, &vars[2], &n), Ok(F::t_edge(&m)));
    assert_eq!(F::xor_edge(&mut m, &vars[2], &vars[2]), Ok(F::f_edge(&m)));
    assert_eq!(F::equiv_edge(&mut m, &vars[2], &n), Ok(F::f_edge(&m)));
}

#[test]
fn operators_out_of_memory() {
    let mut m = Manager::new(2, 4, 2);
    let x = F::new_var(&mut m).unwrap().into_inner();
    let y = F::new_var(&mut m).unwrap().into_inner();
    assert_eq!(F::and_edge(&mut m, &x, &y), Err(OutOfMemory));
    assert_eq!(F::xor_edge(&mut m, &x, &y), Err(OutOfMemory));
    assert_eq!(F::ite_edge(&mut m, &x, &y, &x), Err(OutOfMemory));
    assert_eq!(F::and_edge(&mut m, &x, &x), Ok(x));
    assert!(F::eval_edge(&m, &x, &[(x, true)]));
}

#[test]
fn full_store_still_finds_results() {
    // Room for the variables, their conjunction and nothing else; a cache that holds one entry.
    let mut m = Manager::new(3, 1, 2);
    let x = F::new_var(&mut m).unwrap().into_inner();
    let y = F::new_var(&mut m).unwrap().into_inner();
    let a = F::and_edge(&mut m, &x, &y).unwrap();
    assert_eq!(F::xor_edge(&mut m, &x, &y), Err(OutOfMemory));
    assert_eq!(F::and_edge(&mut m, &y, &x), Ok(a));
    let nx = F::not_edge(&m, &x).unwrap();
    let ny = F::not_edge(&m, &y).unwrap();
    let f = F::f_edge(&m);
    assert_eq!(F::nor_edge(&mut m, &nx, &ny), Ok(a));
    assert_eq!(F::ite_edge(&mut m, &x, &y, &f), Ok(a));
    assert_eq!(F::restrict_edge(&mut m, &a, &x), Ok(y));
    assert_eq!(m.num_inner_nodes(), 3);
}

#[test]
fn full_store_does_trivial_quantification() {
    for threads in [1, 2] {
        let mut m = Manager::new(2, 1, threads);
        let x = F::new_var(&mut m).unwrap().into_inner();
        let y = F::new_var(&mut m).unwrap().into_inner();
        let (t, f) = (F::t_edge(&m), F::f_edge(&m));
        // The variable is above the function.
        assert_eq!(F::unique_edge(&mut m, &y, &x), Ok(f));
        assert_eq!(F::exist_edge(&mut m, &y, &x), Ok(y));
        assert_eq!(F::forall_edge(&mut m, &y, &x), Ok(y));
        // Nothing is quantified.
        assert_eq!(F::unique_edge(&mut m, &y, &t), Ok(y));
        assert_eq!(F::exist_edge(&mut m, &y, &t), Ok(y));
        // The function is constant.
        assert_eq!(F::unique_edge(&mut m, &t, &y), Ok(f));
        assert_eq!(F::exist_edge(&mut m, &f, &y), Ok(f));
        assert_eq!(F::forall_edge(&mut m, &t, &y), Ok(t));
        // The results have edges.
        assert_eq!(F::exist_edge(&mut m, &y, &y), Ok(t));
        assert_eq!(F::unique_edge(&mut m, &y, &y), Ok(t));
        assert_eq!(F::exist_edge(&mut m, &x, &y), Ok(x));
        assert_eq!(m.num_inner_nodes(), 2);
    }
}

#[test]
fn quantification_out_of_memory() {
    let mut m = Manager::new(5, 4, 1);
    let x = F::new_var(&mut m).unwrap().into_inner();
    let y = F::new_var(&mut m).unwrap().into_inner();
    let z = F::new_var(&mut m).unwrap().into_inner();
    let yz = F::and_edge(&mut m, &y, &z).unwrap();
    let f = F::and_edge(&mut m, &x, &yz).unwrap();
    assert_eq!(m.num_inner_nodes(), 5);
    // There is no edge for the conjunction of the first and the third variable.
    assert_eq!(F::exist_edge(&mut m, &f, &y), Err(OutOfMemory));
    assert_eq!(F::unique_edge(&mut m, &f, &y), Err(OutOfMemory));
    assert_eq!(F::exist_edge(&mut m, &f, &x), Ok(yz));
    let bottom = F::f_edge(&m);
    assert_eq!(F::forall_edge(&mut m, &f, &y), Ok(bottom));
}

#[test]
fn full_store_does_trivial_substitution() {
    for threads in [1, 2] {
        let mut m = Manager::new(3, 1, threads);
        let x = F::new_var(&mut m).unwrap().into_inner();
        let y = F::new_var(&mut m).unwrap().into_inner();
        let z = F::new_var(&mut m).unwrap().into_inner();
        let t = F::t_edge(&m);
        // The replaced variable is above the function; the first variable stands for itself.
        let s = Substitution { id: 0, pairs: vec![(y, x)] };
        assert_eq!(F::substitute_edge(&mut m, &z, &s), Ok(z));
        assert_eq!(F::substitute_edge(&mut m, &t, &s), Ok(t));
        assert_eq!(F::substitute_edge(&mut m, &x, &s), Ok(x));
        assert_eq!(F::substitute_edge(&mut m, &y, &s), Ok(x));
        let s = Substitution { id: 1, pairs: vec![] };
        assert_eq!(F::substitute_edge(&mut m, &y, &s), Ok(y));
        assert_eq!(m.num_inner_nodes(), 3);
    }
}

#[test]
fn constants_are_restricted_by_anything() {
    for threads in [1, 2] {
        let (mut m, vars) = setup(64, threads);
        let (t, f) = (F::t_edge(&m), F::f_edge(&m));
        // Neither a conjunction of literals nor constant.
        let g = F::xor_edge(&mut m, &vars[0], &vars[1]).unwrap();
        let nodes = m.num_inner_nodes();
        assert_eq!(F::restrict_edge(&mut m, &t, &g), Ok(t));
        assert_eq!(F::restrict_edge(&mut m, &f, &g), Ok(f));
        assert_eq!(F::restrict_edge(&mut m, &g, &t), Ok(g));
        assert_eq!(F::restrict_edge(&mut m, &g, &f), Ok(g));
        assert_eq!(m.num_inner_nodes(), nodes);
    }
}

#[test]
fn substitution_below_needs_no_number() {
    for threads in [1, 2] {
        let (mut m, vars) = setup(64, threads);
        let s = Substitution { id: 7, pairs: vec![(vars[0], vars[2])] };
        assert_eq!(F::substitute_edge(&mut m, &vars[0], &s), Ok(vars[2]));
        // The number stands for another substitution, but it is not looked up.
        let other = Substitution { id: 7, pairs: vec![(vars[1], vars[3])] };
        let t = F::t_edge(&m);
        assert_eq!(F::substitute_edge(&mut m, &t, &other), Ok(t));
        assert_eq!(F::substitute_edge(&mut m, &vars[2], &other), Ok(vars[2]));
        assert_eq!(F::substitute_edge(&mut m, &vars[0], &s), Ok(vars[2]));
    }
}

#[test]
fn substitution_out_of_memory() {
    let mut m = Manager::new(4, 4, 1);
    let x = F::new_var(&mut m).unwrap().into_inner();
    let y = F::new_var(&mut m).unwrap().into_inner();
    let z = F::new_var(&mut m).unwrap().into_inner();
    let f = F::and_edge(&mut m, &x, &y).unwrap();
    let s = Substitution { id: 0, pairs: vec![(y, z)] };
    assert_eq!(F::substitute_edge(&mut m, &f, &s), Err(OutOfMemory));
    assert_eq!(m.num_inner_nodes(), 4);
}

#[test]
fn quantifiers_agree_with_tables() {
    let mut rng = Random(4);
    for round in 0..40 {
        let (mut m, vars) = setup(if round % 2 == 0 { 1 } else { 1024 }, round % 3);
        for _ in 0..10 {
            let s = rng.table();
            let f = function(&mut m, &vars, s);
            let which = rng.next() % (1 << VARS);
            let chosen: Vec<Edge> =
                (0..VARS as usize).filter(|i| which >> i & 1 == 1).map(|i| vars[i]).collect();
            let set = conjunction(&mut m, &chosen);
            let (mut all, mut some, mut one) = (s, s, s);
            for v in 0..VARS {
                if which >> v & 1 == 1 {
                    all = cofactor(all, v, true) & cofactor(all, v, false);
                    some = cofactor(some, v, true) | cofactor(some, v, false);
                    one = cofactor(one, v, true) ^ cofactor(one, v, false);
                }
            }
            let r = F::forall_edge(&mut m, &f, &set).unwrap();
            assert_eq!(table(&m, &vars, r), all);
            let r = F::exist_edge(&mut m, &f, &set).unwrap();
            assert_eq!(table(&m, &vars, r), some);
            let r = F::unique_edge(&mut m, &f, &set).unwrap();
            assert_eq!(table(&m, &vars, r), one);
        }
    }
}

#[test]
fn unique_quantification_counts_modulo_two() {
    let (mut m, vars) = setup(64, 1);
    let set = F::and_edge(&mut m, &vars[0], &vars[1]).unwrap();
    let (t, f) = (F::t_edge(&m), F::f_edge(&m));
    // True for three, two and one of the four values of the variables.
    let or = F::or_edge(&mut m, &vars[0], &vars[1]).unwrap();
    let xor = F::xor_edge(&mut m, &vars[0], &vars[1]).unwrap();
    assert_eq!(F::unique_edge(&mut m, &or, &set), Ok(t));
    assert_eq!(F::unique_edge(&mut m, &xor, &set), Ok(f));
    assert_eq!(F::unique_edge(&mut m, &set, &set), Ok(t));
    let g = F::and_edge(&mut m, &or, &vars[3]).unwrap();
    assert_eq!(F::unique_edge(&mut m, &g, &set), Ok(vars[3]));
}

#[test]
fn quantifiers_are_dual() {
    let (mut m, vars) = setup(64, 2);
    let f = function(&mut m, &vars, 0x3b72);
    let set = conjunction(&mut m, &[vars[1], vars[2]]);
    let nf = F::not_edge(&m, &f).unwrap();
    let e = F::exist_edge(&mut m, &f, &set).unwrap();
    let a = F::forall_edge(&mut m, &nf, &set).unwrap();
    assert_eq!(F::not_edge(&m, &a), Ok(e));
}

#[test]
fn restrict_agrees_with_tables() {
    let mut rng = Random(5);
    for round in 0..40 {
        let (mut m, vars) = setup(if round % 2 == 0 { 1 } else { 1024 }, round % 3);
        for _ in 0..10 {
            let s = rng.table();
            let f = function(&mut m, &vars, s);
            let which = rng.next() % (1 << VARS);
            let signs = rng.next() % (1 << VARS);
            let mut literals = Vec::new();
            let mut expected = s;
            for v in 0..VARS {
                if which >> v & 1 == 1 {
                    let positive = signs >> v & 1 == 1;
                    let x = vars[v as usize];
                    literals.push(if positive { x } else { F::not_edge(&m, &x).unwrap() });
                    expected = cofactor(expected, v, positive);
                }
            }
            let cube = conjunction(&mut m, &literals);
            let r = F::restrict_edge(&mut m, &f, &cube).unwrap();
            assert_eq!(table(&m, &vars, r), expected);
            // Where the literals hold, the restricted function is the function.
            let c = table(&m, &vars, cube);
            assert_eq!(table(&m, &vars, r) & c, s & c);
        }
    }
}

#[test]
fn substitute_agrees_with_tables() {
    let mut rng = Random(6);
    for round in 0..40 {
        let (mut m, vars) = setup(if round % 2 == 0 { 1 } else { 1024 }, round % 3);
        for id in 0..10 {
            let s = rng.table();
            let f = function(&mut m, &vars, s);
            let which = rng.next() % (1 << VARS);
            let mut pairs = Vec::new();
            let mut tables: Vec<u32> = (0..VARS).map(|v| table(&m, &vars, vars[v as usize])).collect();
            for v in 0..VARS {
                if which >> v & 1 == 1 {
                    let t = rng.table();
                    pairs.push((vars[v as usize], function(&mut m, &vars, t)));
                    tables[v as usize] = t;
                }
            }
            let mut expected = 0;
            for env in 0..1u32 << VARS {
                let mut inner = 0;
                for v in 0..VARS {
                    inner |= (tables[v as usize] >> env & 1) << v;
                }
                expected |= (s >> inner & 1) << env;
            }
            let r = F::substitute_edge(&mut m, &f, &Substitution { id, pairs }).unwrap();
            assert_eq!(table(&m, &vars, r), expected);
        }
    }
}

#[test]
fn substitute_nothing_and_swap() {
    let (mut m, vars) = setup(64, 1);
    let f = function(&mut m, &vars, 0x1234);
    let nothing = Substitution { id: 0, pairs: vec![] };
    assert_eq!(F::substitute_edge(&mut m, &f, &nothing), Ok(f));
    // All functions are substituted at the same time.
    let nx = F::not_edge(&m, &vars[0]).unwrap();
    let g = F::and_edge(&mut m, &vars[0], &vars[1]).unwrap();
    let swap = Substitution { id: 1, pairs: vec![(vars[0], vars[1]), (vars[1], nx)] };
    let r = F::substitute_edge(&mut m, &g, &swap).unwrap();
    assert_eq!(F::and_edge(&mut m, &vars[1], &nx), Ok(r));
    assert_eq!(F::substitute_edge(&mut m, &vars[0], &swap), Ok(vars[1]));
    assert_eq!(F::substitute_edge(&mut m, &vars[3], &swap), Ok(vars[3]));
}

#[test]
fn eval_uses_last_value_and_false() {
    let (mut m, vars) = setup(16, 1);
    let f = F::imp_strict_edge(&mut m, &vars[0], &vars[1]).unwrap();
    assert!(!F::eval_edge(&m, &f, &[]));
    assert!(F::eval_edge(&m, &f, &[(vars[1], true)]));
    assert!(!F::eval_edge(&m, &f, &[(vars[1], true), (vars[0], true)]));
    assert!(F::eval_edge(&m, &f, &[(vars[0], true), (vars[1], true), (vars[0], false)]));
}

#[test]
fn pick_cube_implies_function() {
    let mut rng = Random(7);
    let (mut m, vars) = setup(64, 1);
    for _ in 0..100 {
        let s = rng.table();
        let f = function(&mut m, &vars, s);
        for choice in [false, true] {
            match F::pick_cube_edge(&m, &f, &[], |_: &Manager, _: &Edge| choice) {
                None => assert_eq!(s, 0),
                Some(cube) => {
                    assert_eq!(cube.len(), VARS as usize);
                    for env in 0..1u32 << VARS {
                        let agrees = (0..VARS as usize)
                            .all(|v| cube[v].is_none() || cube[v] == Some(env >> v & 1 == 1));
                        assert!(!agrees || s >> env & 1 == 1);
                    }
                }
            }
        }
    }
}

#[test]
fn pick_cube_by_choice_and_order() {
    let (mut m, vars) = setup(64, 1);
    let f = F::or_edge(&mut m, &vars[0], &vars[2]).unwrap();
    let yes = F::pick_cube_edge(&m, &f, &[], |_: &Manager, _: &Edge| true);
    assert_eq!(yes, Some(vec![Some(true), None, None, None]));
    let no = F::pick_cube_edge(&m, &f, &[], |_: &Manager, _: &Edge| false);
    assert_eq!(no, Some(vec![Some(false), None, Some(true), None]));
    let order = [vars[3], vars[2], vars[1], vars[0]];
    let turned = F::pick_cube_edge(&m, &f, &order, |_: &Manager, _: &Edge| false);
    assert_eq!(turned, Some(vec![None, Some(true), None, Some(false)]));
    assert_eq!(F::pick_cube_edge(&m, &F::f_edge(&m), &[], |_: &Manager, _: &Edge| true), None);
}

#[test]
fn pick_cube_by_choice_with_state() {
    let (mut m, vars) = setup(64, 1);
    let mut f = vars[0];
    for v in &vars[1..] {
        f = F::xor_edge(&mut m, &f, v).unwrap();
    }
    // Asked once for each variable but the last, whose value is determined.
    let mut asked = Vec::new();
    let cube = F::pick_cube_edge(&m, &f, &[], |_: &Manager, e: &Edge| {
        asked.push(*e);
        asked.len() % 2 == 1
    });
    assert_eq!(cube, Some(vec![Some(true), Some(false), Some(true), Some(true)]));
    assert_eq!(asked.len(), 3);
    assert_eq!(asked[0], f);
}

#[test]
fn sat_count_agrees_with_tables() {
    let mut rng = Random(8);
    let (mut m, vars) = setup(64, 1);
    let mut cache = SatCountCache::new(0);
    for _ in 0..100 {
        let s = rng.table();
        let f = function(&mut m, &vars, s);
        assert_eq!(F::sat_count_edge(&m, &f, VARS, &mut cache), s.count_ones() as u128);
    }
}

#[test]
fn sat_count_by_number_of_variables() {
    let (mut m, vars) = setup(64, 1);
    let f = F::and_edge(&mut m, &vars[1], &vars[3]).unwrap();
    let g = F::not_edge(&m, &f).unwrap();
    let mut cache = SatCountCache::new(2);
    assert_eq!(F::sat_count_edge(&m, &f, 2, &mut cache), 1);
    assert_eq!(F::sat_count_edge(&m, &g, 2, &mut cache), 3);
    assert_eq!(F::sat_count_edge(&m, &f, 4, &mut cache), 4);
    assert_eq!(F::sat_count_edge(&m, &g, 4, &mut cache), 12);
    assert_eq!(F::sat_count_edge(&m, &F::t_edge(&m), 127, &mut cache), 1 << 127);
    assert_eq!(F::sat_count_edge(&m, &f, 127, &mut cache), 1 << 125);
    assert_eq!(F::sat_count_edge(&m, &F::f_edge(&m), 0, &mut cache), 0);
}
