use std::cell::RefCell;
use std::rc::Rc;

use lamukoi::structures::Atom;
use lamukoi::structures::Def;
use lamukoi::structures::Expr;
use lamukoi::structures::Name;
use lamukoi::structures::Primop;
use lamukoi::structures::Program;
use lamukoi::structures::ScDef;
use lamukoi::structures::ScProgram;
use lamukoi::tree_reducer::Node;
use lamukoi::error::Error;

fn id(s: &str) -> Expr {
    Expr::Id(s.to_string())
}

fn num(n: i64) -> Expr {
    Expr::Prim(n)
}

fn app(a: Expr, b: Expr) -> Expr {
    Expr::App(Box::new(a), Box::new(b))
}

fn app3(a: Expr, b: Expr, c: Expr) -> Expr {
    app(app(a, b), c)
}

fn app4(a: Expr, b: Expr, c: Expr, d: Expr) -> Expr {
    app(app3(a, b, c), d)
}

fn lam(ps: &[&str], b: Expr) -> Expr {
    Expr::Lam(ps.iter().map(|p| p.to_string()).collect(), Box::new(b))
}

fn def(name: &str, ps: &[&str], body: Expr) -> Def {
    Def {
        name: name.to_string(),
        params: ps.iter().map(|p| p.to_string()).collect(),
        body: Some(body),
    }
}

fn prim_def(name: &str, ps: &[&str]) -> Def {
    Def { name: name.to_string(), params: ps.iter().map(|p| p.to_string()).collect(), body: None }
}

/// The bit-stream prelude: Church lists, Scott lists, Church numerals, and
/// the bit I/O combinators.
fn prelude() -> Vec<Def> {
    vec![
        prim_def("EQ", &["x", "y"]),
        prim_def("ADD", &["x", "y"]),
        prim_def("SUB", &["x", "y"]),
        def("True", &["t", "f"], id("t")),
        def("False", &["t", "f"], id("f")),
        def("SNil", &["nil", "cons"], id("nil")),
        def("SCons", &["x", "xs", "nil", "cons"], app3(id("cons"), id("x"), id("xs"))),
        def("cNil", &[], lam(&["c", "n"], id("n"))),
        def(
            "cCons",
            &[],
            lam(&["h", "t", "c", "n"], app3(id("c"), id("h"), app3(id("t"), id("c"), id("n")))),
        ),
        def("zero", &[], lam(&["f", "x"], id("x"))),
        def("succ", &[], lam(&["n", "f", "x"], app(id("f"), app3(id("n"), id("f"), id("x"))))),
        def(
            "int2cNat",
            &["i"],
            app(
                app4(id("EQ"), id("i"), num(0), id("zero")),
                app(id("succ"), app(id("int2cNat"), app3(id("SUB"), id("i"), num(1)))),
            ),
        ),
        def("cNat2Int", &["x"], app3(id("x"), app(id("ADD"), num(1)), num(0))),
        prim_def("READ", &[]),
        def("cBit1", &[], app3(id("cCons"), id("True"), id("READ"))),
        def("cBit0", &[], app3(id("cCons"), id("False"), id("READ"))),
        def("cList2sList", &["clist"], app3(id("clist"), id("SCons"), id("SNil"))),
        prim_def("SHOW", &["x"]),
        def(
            "sShow",
            &["stream"],
            app3(
                id("stream"),
                id("id"),
                lam(
                    &["item", "xs"],
                    app(app(id("SHOW"), app3(id("item"), num(1), num(0))), id("xs")),
                ),
            ),
        ),
        def("cShow", &["stream"], app(id("sShow"), app(id("cList2sList"), id("stream")))),
        def("id", &["x"], id("x")),
    ]
}

struct BitIn {
    data: Vec<u8>,
    pos: usize,
    bit: u8,
    forever: Option<u8>,
}

impl BitIn {
    fn next_bit(&mut self) -> Option<bool> {
        let byte = if let Some(b) = self.forever {
            b
        } else if self.pos < self.data.len() {
            self.data[self.pos]
        } else {
            return None;
        };
        let bit = (byte >> self.bit) & 1;
        self.bit += 1;
        if self.bit == 8 {
            self.bit = 0;
            self.pos += 1;
        }
        Some(bit == 1)
    }
}

struct BitOut {
    bytes: Vec<u8>,
    cur: u8,
    bit: u8,
}

impl BitOut {
    fn put_bit(&mut self, b: u8) {
        self.cur |= (b & 1) << self.bit;
        self.bit += 1;
        if self.bit == 8 {
            self.bytes.push(self.cur);
            self.cur = 0;
            self.bit = 0;
        }
    }
}

enum TestPrim {
    Eq,
    Add,
    Sub,
    Fail,
    Read { input: Rc<RefCell<BitIn>>, cbit1: usize, cbit0: usize, cnil: usize },
    Show { output: Rc<RefCell<BitOut>>, sshow: usize },
}

impl Primop for TestPrim {
    fn call(&mut self, args: &Vec<i64>, _num_defs: usize) -> Option<Atom> {
        match self {
            TestPrim::Eq => Some(Atom::Prim(if args[0] == args[1] { 1 } else { 0 })),
            TestPrim::Add => Some(Atom::Prim(args[0].wrapping_add(args[1]))),
            TestPrim::Sub => Some(Atom::Prim(args[0].wrapping_sub(args[1]))),
            TestPrim::Fail => None,
            TestPrim::Read { input, cbit1, cbit0, cnil } => {
                match input.borrow_mut().next_bit() {
                    Some(true) => Some(Atom::Sc(*cbit1)),
                    Some(false) => Some(Atom::Sc(*cbit0)),
                    None => Some(Atom::Sc(*cnil)),
                }
            },
            TestPrim::Show { output, sshow } => {
                output.borrow_mut().put_bit(args[0] as u8);
                Some(Atom::Sc(*sshow))
            },
        }
    }
}

fn compile(defs: Vec<Def>) -> ScProgram {
    Program { defs }
        .into_anon()
        .unwrap()
        .lambda_lift()
        .lambda_elim()
        .unwrap()
        .compress()
}

fn index_of(idx: &Vec<(String, usize)>, name: &str) -> usize {
    for (n, i) in idx {
        if n == name {
            return *i;
        }
    }
    panic!("no definition named {}", name);
}

#[test]
fn s1_church_arithmetic() {
    let defs = vec![
        def("succ", &["n", "f", "x"], app(id("f"), app3(id("n"), id("f"), id("x")))),
        def("two", &[], lam(&["f", "x"], app(id("f"), app(id("f"), id("x"))))),
        def("main", &[], app3(id("two"), id("succ"), id("two"))),
    ];
    let sc = compile(defs);
    let idx = sc.def_indexes();
    let main_i = index_of(&idx, "main");
    let succ_i = index_of(&idx, "succ");
    let two_i = index_of(&idx, "two");
    let primops: Vec<(String, TestPrim)> = vec![];
    let (mut prog, _) = sc.attach_prim(primops).unwrap();
    let mut node = Node::from_sc(main_i);
    let mut fuel: u64 = 1_000_000;
    prog.reduce_to_nf(&mut node, &mut fuel).unwrap();
    // two succ two normalizes to succ (succ two): the Church numeral four
    assert!(matches!(node.head, Atom::Sc(i) if i == succ_i));
    assert_eq!(node.stack.len(), 1);
    let child = &node.stack[0];
    assert!(matches!(child.head, Atom::Sc(i) if i == succ_i));
    assert_eq!(child.stack.len(), 1);
    let leaf = &child.stack[0];
    assert!(matches!(leaf.head, Atom::Sc(i) if i == two_i));
    assert_eq!(leaf.stack.len(), 0);
}

#[test]
fn s2_triangular_sum_via_rangesum() {
    let mut defs = vec![
        def("pair", &[], lam(&["x", "y", "f"], app3(id("f"), id("x"), id("y")))),
        def("snd", &[], lam(&["p"], app(id("p"), lam(&["x", "y"], id("y"))))),
        def(
            "update",
            &[],
            lam(
                &["p"],
                app(
                    id("p"),
                    lam(
                        &["x", "y", "f"],
                        app3(
                            id("f"),
                            app(id("succ"), id("x")),
                            app3(id("x"), id("succ"), id("y")),
                        ),
                    ),
                ),
            ),
        ),
        def(
            "rangesum",
            &[],
            lam(
                &["n"],
                app(
                    id("snd"),
                    app3(
                        id("n"),
                        id("update"),
                        app3(id("pair"), lam(&["x"], id("x")), lam(&["x", "y"], id("y"))),
                    ),
                ),
            ),
        ),
        def(
            "main",
            &[],
            app(
                id("cNat2Int"),
                app(
                    id("rangesum"),
                    app(id("succ"), app(id("succ"), app(id("succ"), id("zero")))),
                ),
            ),
        ),
    ];
    defs.extend(prelude());
    let sc = compile(defs);
    let idx = sc.def_indexes();
    let main_i = index_of(&idx, "main");
    let input = Rc::new(RefCell::new(BitIn { data: vec![], pos: 0, bit: 0, forever: None }));
    let output = Rc::new(RefCell::new(BitOut { bytes: vec![], cur: 0, bit: 0 }));
    let primops = make_primops(&idx, input, output);
    let (mut prog, _) = sc.attach_prim(primops).unwrap();
    let mut node = Node::from_sc(main_i);
    let mut fuel: u64 = 10_000_000;
    prog.reduce_to_nf(&mut node, &mut fuel).unwrap();
    // the seed `|x| x` is the Church numeral one, so three updates sum
    // 1 + 2 + 3
    assert!(matches!(node.head, Atom::Prim(6)));
    assert_eq!(node.stack.len(), 0);
}

#[test]
fn s2_rangesum_from_zero() {
    let mut defs = vec![
        def("pair", &[], lam(&["x", "y", "f"], app3(id("f"), id("x"), id("y")))),
        def("snd", &[], lam(&["p"], app(id("p"), lam(&["x", "y"], id("y"))))),
        def(
            "update",
            &[],
            lam(
                &["p"],
                app(
                    id("p"),
                    lam(
                        &["x", "y", "f"],
                        app3(
                            id("f"),
                            app(id("succ"), id("x")),
                            app3(id("x"), id("succ"), id("y")),
                        ),
                    ),
                ),
            ),
        ),
        def(
            "rangesum",
            &[],
            lam(
                &["n"],
                app(
                    id("snd"),
                    app3(
                        id("n"),
                        id("update"),
                        app3(id("pair"), id("zero"), lam(&["x", "y"], id("y"))),
                    ),
                ),
            ),
        ),
        def(
            "main",
            &[],
            app(
                id("cNat2Int"),
                app(
                    id("rangesum"),
                    app(id("succ"), app(id("succ"), app(id("succ"), id("zero")))),
                ),
            ),
        ),
    ];
    defs.extend(prelude());
    let sc = compile(defs);
    let idx = sc.def_indexes();
    let main_i = index_of(&idx, "main");
    let input = Rc::new(RefCell::new(BitIn { data: vec![], pos: 0, bit: 0, forever: None }));
    let output = Rc::new(RefCell::new(BitOut { bytes: vec![], cur: 0, bit: 0 }));
    let primops = make_primops(&idx, input, output);
    let (mut prog, _) = sc.attach_prim(primops).unwrap();
    let mut node = Node::from_sc(main_i);
    let mut fuel: u64 = 10_000_000;
    prog.reduce_to_nf(&mut node, &mut fuel).unwrap();
    // seeded with zero, three updates sum 0 + 1 + 2
    assert!(matches!(node.head, Atom::Prim(3)));
    assert_eq!(node.stack.len(), 0);
}

fn make_primops(
    idx: &Vec<(String, usize)>,
    input: Rc<RefCell<BitIn>>,
    output: Rc<RefCell<BitOut>>,
) -> Vec<(String, TestPrim)> {
    vec![
        ("EQ".to_string(), TestPrim::Eq),
        ("ADD".to_string(), TestPrim::Add),
        ("SUB".to_string(), TestPrim::Sub),
        (
            "READ".to_string(),
            TestPrim::Read {
                input,
                cbit1: index_of(idx, "cBit1"),
                cbit0: index_of(idx, "cBit0"),
                cnil: index_of(idx, "cNil"),
            },
        ),
        ("SHOW".to_string(), TestPrim::Show { output, sshow: index_of(idx, "sShow") }),
    ]
}

#[test]
fn s3_finite_bitstream_echo() {
    let mut defs = vec![def("echo", &[], app(id("cShow"), id("READ")))];
    defs.extend(prelude());
    let sc = compile(defs);
    let idx = sc.def_indexes();
    let echo_i = index_of(&idx, "echo");
    let input = Rc::new(RefCell::new(BitIn {
        data: b"hello".to_vec(),
        pos: 0,
        bit: 0,
        forever: None,
    }));
    let output = Rc::new(RefCell::new(BitOut { bytes: vec![], cur: 0, bit: 0 }));
    let primops = make_primops(&idx, input, output.clone());
    let (mut prog, _) = sc.attach_prim(primops).unwrap();
    let mut node = Node::from_sc(echo_i);
    let mut fuel: u64 = 10_000_000;
    prog.reduce_to_nf(&mut node, &mut fuel).unwrap();
    assert_eq!(output.borrow().bytes, b"hello".to_vec());
}

#[test]
fn s4_infinite_bitstream_echo() {
    let mut defs = vec![def("echo", &[], app(id("cShow"), id("READ")))];
    defs.extend(prelude());
    let sc = compile(defs);
    let idx = sc.def_indexes();
    let echo_i = index_of(&idx, "echo");
    let input = Rc::new(RefCell::new(BitIn { data: vec![], pos: 0, bit: 0, forever: Some(0x30) }));
    let output = Rc::new(RefCell::new(BitOut { bytes: vec![], cur: 0, bit: 0 }));
    let primops = make_primops(&idx, input, output.clone());
    let (mut prog, _) = sc.attach_prim(primops).unwrap();
    let mut node = Node::from_sc(echo_i);
    let mut fuel: u64 = 200_000;
    match prog.reduce_to_nf(&mut node, &mut fuel) {
        Err(Error::OutOfFuel) => {},
        other => panic!("an endless stream must exhaust the budget, got {:?}", other),
    }
    let bytes = &output.borrow().bytes;
    assert!(bytes.len() >= 8);
    for b in bytes.iter() {
        assert_eq!(*b, 0x30);
    }
}

#[test]
fn s5_primitive_strictness() {
    let mut defs = vec![
        def("f", &[], app3(id("ADD"), lam(&["x"], id("x")), num(1))),
        def("main", &[], id("f")),
    ];
    defs.extend(prelude());
    let sc = compile(defs);
    let idx = sc.def_indexes();
    let main_i = index_of(&idx, "main");
    let input = Rc::new(RefCell::new(BitIn { data: vec![], pos: 0, bit: 0, forever: None }));
    let output = Rc::new(RefCell::new(BitOut { bytes: vec![], cur: 0, bit: 0 }));
    let primops = make_primops(&idx, input, output);
    let (mut prog, _) = sc.attach_prim(primops).unwrap();
    let mut node = Node::from_sc(main_i);
    let mut fuel: u64 = 1_000_000;
    match prog.reduce_to_nf(&mut node, &mut fuel) {
        Err(Error::UnexpectedPrimApp { prim_name, .. }) => assert_eq!(prim_name, "ADD"),
        other => panic!("expected a strictness failure, got {:?}", other),
    }
    // the failed application is left in place: ADD still applied to the
    // stuck combinator and the untouched integer
    let add_i = index_of(&idx, "ADD");
    assert!(matches!(node.head, Atom::Sc(i) if i == add_i));
    assert_eq!(node.stack.len(), 2);
    assert!(matches!(node.stack[1].head, Atom::Prim(1)));
}

#[test]
fn unknown_primop_is_rejected() {
    let defs = vec![prim_def("MISSING", &["x"]), def("main", &[], num(1))];
    let sc = compile(defs);
    let primops: Vec<(String, TestPrim)> = vec![];
    match sc.attach_prim(primops) {
        Err(Error::UnknownPrimop { def_name }) => assert_eq!(def_name, "MISSING"),
        other => panic!("expected an unknown primitive, got {:?}", other.map(|_| ())),
    }
}

#[test]
fn unnamed_primop_is_rejected() {
    let sc = ScProgram {
        defs: vec![ScDef { name: Name::Unnamed(4), params: 1, body: None }],
    };
    let primops: Vec<(String, TestPrim)> = vec![];
    match sc.attach_prim(primops) {
        Err(Error::UnnamedPrimop { def_no }) => assert_eq!(def_no, 4),
        other => panic!("expected an unnamed primitive, got {:?}", other.map(|_| ())),
    }
}

#[test]
fn primop_failure_is_reported() {
    let defs = vec![prim_def("BAD", &["x"]), def("main", &[], app(id("BAD"), num(1)))];
    let sc = compile(defs);
    let idx = sc.def_indexes();
    let main_i = index_of(&idx, "main");
    let primops = vec![("BAD".to_string(), TestPrim::Fail)];
    let (mut prog, _) = sc.attach_prim(primops).unwrap();
    let mut node = Node::from_sc(main_i);
    let mut fuel: u64 = 1_000;
    match prog.reduce_to_nf(&mut node, &mut fuel) {
        Err(Error::PrimopFailure { def_name, .. }) => assert_eq!(def_name, "BAD"),
        other => panic!("expected a primitive failure, got {:?}", other),
    }
}

#[test]
fn fuel_exhaustion_is_reported() {
    let defs = vec![def("loop0", &[], id("loop0")), def("main", &[], id("loop0"))];
    let sc = compile(defs);
    let idx = sc.def_indexes();
    let main_i = index_of(&idx, "main");
    let primops: Vec<(String, TestPrim)> = vec![];
    let (mut prog, _) = sc.attach_prim(primops).unwrap();
    let mut node = Node::from_sc(main_i);
    let mut fuel: u64 = 1_000;
    match prog.reduce_to_nf(&mut node, &mut fuel) {
        Err(Error::OutOfFuel) => {},
        other => panic!("expected fuel exhaustion, got {:?}", other),
    }
}

#[test]
fn head_reduction_stops_at_whnf() {
    let defs = vec![
        def("konst", &["x", "y"], id("x")),
        def("main", &[], app3(id("konst"), num(5), num(6))),
    ];
    let sc = compile(defs);
    let idx = sc.def_indexes();
    let main_i = index_of(&idx, "main");
    let konst_i = index_of(&idx, "konst");
    let primops: Vec<(String, TestPrim)> = vec![];
    let (mut prog, _) = sc.attach_prim(primops).unwrap();
    // an under-applied supercombinator is already in weak head normal form
    let mut blocked = Node::from_sc(konst_i);
    let mut fuel: u64 = 1_000;
    assert_eq!(prog.reduce_head_once(&mut blocked, &mut fuel).unwrap(), false);
    assert_eq!(fuel, 1_000);
    // one step of main unfolds its body
    let mut node = Node::from_sc(main_i);
    assert_eq!(prog.reduce_head_once(&mut node, &mut fuel).unwrap(), true);
    prog.reduce_to_whnf(&mut node, &mut fuel).unwrap();
    assert!(matches!(node.head, Atom::Prim(5)));
    assert_eq!(node.stack.len(), 0);
}

#[test]
fn normal_forms_are_stable() {
    let defs = vec![
        def("konst", &["x", "y"], id("x")),
        def("main", &[], app3(id("konst"), num(5), num(6))),
    ];
    let sc = compile(defs);
    let idx = sc.def_indexes();
    let main_i = index_of(&idx, "main");
    let primops: Vec<(String, TestPrim)> = vec![];
    let (mut prog, _) = sc.attach_prim(primops).unwrap();
    let mut node = Node::from_sc(main_i);
    let mut fuel: u64 = 1_000;
    prog.reduce_to_nf(&mut node, &mut fuel).unwrap();
    // reducing a normal form again succeeds and costs nothing
    let spent = fuel;
    prog.reduce_to_nf(&mut node, &mut fuel).unwrap();
    assert_eq!(fuel, spent);
    assert!(matches!(node.head, Atom::Prim(5)));
}
