use lamukoi::structures::AnonExpr;
use lamukoi::structures::Def;
use lamukoi::structures::Expr;
use lamukoi::structures::Name;
use lamukoi::structures::Program;
use lamukoi::structures::ScDef;
use lamukoi::structures::ScExpr;
use lamukoi::structures::ScProgram;
use lamukoi::structures::AnonDef;
use lamukoi::structures::AnonProgram;
use lamukoi::syntax;
use lamukoi::error::Error;

fn id(s: &str) -> Expr {
    Expr::Id(s.to_string())
}

fn num(n: i64) -> Expr {
    Expr::Prim(n)
}

fn app(a: Expr, b: Expr) -> Expr {
    Expr::App(Box::new(a), Box::new(b))
}

fn app3(a: Expr, b: Expr, c: Expr) -> Expr {
    app(app(a, b), c)
}

fn lam(ps: &[&str], b: Expr) -> Expr {
    Expr::Lam(ps.iter().map(|p| p.to_string()).collect(), Box::new(b))
}

fn def(name: &str, ps: &[&str], body: Expr) -> Def {
    Def {
        name: name.to_string(),
        params: ps.iter().map(|p| p.to_string()).collect(),
        body: Some(body),
    }
}

fn prim_def(name: &str, ps: &[&str]) -> Def {
    Def { name: name.to_string(), params: ps.iter().map(|p| p.to_string()).collect(), body: None }
}

#[test]
fn structures_macro_compiles() {
    let _result = Program {
        defs: vec![
            prim_def("mul", &["x", "y"]),
            def("square", &["x"], app3(id("mul"), id("x"), id("x"))),
            def("square2", &[], lam(&["x"], app3(id("mul"), id("x"), id("x")))),
            def("main", &[], app(id("square"), app(id("square2"), num(3)))),
        ],
    };
}

fn sid(s: &str) -> syntax::Expr {
    syntax::Expr::Id(s.to_string())
}

fn sapp(a: syntax::Expr, b: syntax::Expr) -> syntax::Expr {
    syntax::Expr::App(Box::new(a), Box::new(b))
}

#[test]
fn syntax_macro_compiles() {
    let mul_x_x = sapp(sapp(sid("mul"), sid("x")), sid("x"));
    let mul_x_x2 = sapp(sapp(sid("mul"), sid("x")), sid("x"));
    let _result = syntax::Program {
        defs: vec![
            syntax::Def {
                name: "mul".to_string(),
                params: vec!["x".to_string(), "y".to_string()],
                body: None,
            },
            syntax::Def {
                name: "square".to_string(),
                params: vec!["x".to_string()],
                body: Some(mul_x_x),
            },
            syntax::Def {
                name: "square2".to_string(),
                params: vec![],
                body: Some(syntax::Expr::Lam(vec!["x".to_string()], Box::new(mul_x_x2))),
            },
            syntax::Def {
                name: "main".to_string(),
                params: vec![],
                body: Some(sapp(sid("square"), sapp(sid("square2"), syntax::Expr::Int(3)))),
            },
        ],
    };
}

#[test]
fn variable_resolution_prefers_parameters() {
    // a definition `f x = x` resolves its body to the parameter, never to
    // the top-level `x`
    let prog = Program {
        defs: vec![def("x", &["y"], id("y")), def("f", &["x"], id("x"))],
    };
    let anon = prog.into_anon().unwrap();
    assert!(matches!(anon.defs[1].body, Some(AnonExpr::ArgId(0))));
}

#[test]
fn de_bruijn_indices_count_outward() {
    let prog = Program {
        defs: vec![
            def("fst2", &[], lam(&["x", "y"], id("x"))),
            def("snd2", &[], lam(&["x", "y"], id("y"))),
        ],
    };
    let anon = prog.into_anon().unwrap();
    match &anon.defs[0].body {
        Some(AnonExpr::Lam(inner)) => match &**inner {
            AnonExpr::Lam(leaf) => assert!(matches!(&**leaf, AnonExpr::DeBruijn(1))),
            other => panic!("unexpected body {:?}", other),
        },
        other => panic!("unexpected body {:?}", other),
    }
    match &anon.defs[1].body {
        Some(AnonExpr::Lam(inner)) => match &**inner {
            AnonExpr::Lam(leaf) => assert!(matches!(&**leaf, AnonExpr::DeBruijn(0))),
            other => panic!("unexpected body {:?}", other),
        },
        other => panic!("unexpected body {:?}", other),
    }
}

#[test]
fn top_level_name_collision_is_rejected() {
    let prog = Program {
        defs: vec![def("foo", &[], num(1)), def("foo", &[], num(2))],
    };
    match prog.into_anon() {
        Err(Error::TopLevelNameCollision { name }) => assert_eq!(name, "foo"),
        other => panic!("expected a name collision, got {:?}", other),
    }
}

#[test]
fn param_name_collision_is_rejected() {
    let prog = Program {
        defs: vec![def("f", &["x", "x"], id("x"))],
    };
    match prog.into_anon() {
        Err(Error::ScParamNameCollision { def_name, param_name }) => {
            assert_eq!(def_name, "f");
            assert_eq!(param_name, "x");
        },
        other => panic!("expected a parameter collision, got {:?}", other),
    }
}

#[test]
fn undefined_identifier_is_rejected() {
    let prog = Program {
        defs: vec![def("f", &[], id("g"))],
    };
    match prog.into_anon() {
        Err(Error::UndefinedIdent { def_name, undefined_name }) => {
            assert_eq!(def_name, "f");
            assert_eq!(undefined_name, "g");
        },
        other => panic!("expected an undefined identifier, got {:?}", other),
    }
}

fn no_lam_under_app(e: &AnonExpr, under_app: bool) -> bool {
    match e {
        AnonExpr::App(a, b) => no_lam_under_app(a, true) && no_lam_under_app(b, true),
        AnonExpr::Lam(b) => !under_app && no_lam_under_app(b, false),
        _ => true,
    }
}

#[test]
fn lifting_leaves_no_lambda_under_application() {
    let prog = Program {
        defs: vec![
            def("pair", &[], lam(&["x", "y", "f"], app3(id("f"), id("x"), id("y")))),
            def("snd", &[], lam(&["p"], app(id("p"), lam(&["x", "y"], id("y"))))),
            def("konst", &[], lam(&["x", "y"], id("x"))),
        ],
    };
    let lifted = prog.into_anon().unwrap().lambda_lift();
    for d in &lifted.defs {
        if let Some(b) = &d.body {
            assert!(no_lam_under_app(b, false));
        }
    }
    // the new combinators are numbered with their own indices
    for (i, d) in lifted.defs.iter().enumerate().skip(3) {
        assert_eq!(d.name, Name::Unnamed(i));
    }
}

#[test]
fn elimination_succeeds_on_lifted_programs() {
    let prog = Program {
        defs: vec![
            def("pair", &[], lam(&["x", "y", "f"], app3(id("f"), id("x"), id("y")))),
            def("konst", &[], lam(&["x", "y"], id("x"))),
            def("use2", &["a"], app(id("konst"), lam(&["z"], app(id("a"), id("z"))))),
        ],
    };
    let sc = prog.into_anon().unwrap().lambda_lift().lambda_elim().unwrap();
    for d in &sc.defs {
        assert!(d.body.is_some());
    }
}

#[test]
fn elimination_rejects_inner_lambda() {
    // an application with a lambda inside, as it could only arise before
    // lifting
    let bad = AnonProgram {
        defs: vec![AnonDef {
            name: Name::Named("w".to_string()),
            params: 0,
            body: Some(AnonExpr::App(
                Box::new(AnonExpr::Lam(Box::new(AnonExpr::DeBruijn(0)))),
                Box::new(AnonExpr::Prim(1)),
            )),
        }],
    };
    match bad.lambda_elim() {
        Err(Error::UnexpectedLambda { def_name }) => {
            assert_eq!(def_name, Name::Named("w".to_string()))
        },
        other => panic!("expected an unexpected-lambda error, got {:?}", other),
    }
}

#[test]
fn alias_folding_copies_the_target() {
    // for `a = b; b x = x`, after compression def `a` has one parameter
    // and body `ArgId(0)`
    let prog = Program {
        defs: vec![def("a", &[], id("b")), def("b", &["x"], id("x"))],
    };
    let sc = prog.into_anon().unwrap().lambda_lift().lambda_elim().unwrap().compress();
    assert_eq!(sc.defs[0].name, Name::Named("a".to_string()));
    assert_eq!(sc.defs[0].params, 1);
    assert!(matches!(sc.defs[0].body, Some(ScExpr::ArgId(0))));
}

#[test]
fn dedup_keeps_the_named_definition() {
    // an unnamed duplicate of a named definition is removed and every
    // reference to it is redirected to the named one
    let sc = ScProgram {
        defs: vec![
            ScDef { name: Name::Unnamed(0), params: 1, body: Some(ScExpr::ArgId(0)) },
            ScDef { name: Name::Named("f".to_string()), params: 1, body: Some(ScExpr::ArgId(0)) },
            ScDef {
                name: Name::Named("g".to_string()),
                params: 0,
                body: Some(ScExpr::App(Box::new(ScExpr::DefId(0)), Box::new(ScExpr::Prim(7)))),
            },
        ],
    };
    let out = sc.compress();
    assert_eq!(out.defs.len(), 2);
    assert_eq!(out.defs[0].name, Name::Named("f".to_string()));
    assert_eq!(out.defs[1].name, Name::Named("g".to_string()));
    match &out.defs[1].body {
        Some(ScExpr::App(h, _)) => assert!(matches!(&**h, ScExpr::DefId(0))),
        other => panic!("unexpected body {:?}", other),
    }
}

#[test]
fn compression_is_idempotent_after_one_round() {
    let prog = Program {
        defs: vec![
            def("a", &[], id("b")),
            def("b", &["x"], id("x")),
            def("c", &["x"], id("x")),
        ],
    };
    let once = prog.into_anon().unwrap().lambda_lift().lambda_elim().unwrap().compress();
    let snapshot: Vec<(Name, usize, Option<ScExpr>)> = once
        .defs
        .iter()
        .map(|d| (clone_name(&d.name), d.params, d.body.as_ref().map(|b| b.duplicate())))
        .collect();
    let twice = once.compress();
    let again: Vec<(Name, usize, Option<ScExpr>)> = twice
        .defs
        .iter()
        .map(|d| (clone_name(&d.name), d.params, d.body.as_ref().map(|b| b.duplicate())))
        .collect();
    assert_eq!(snapshot.len(), again.len());
    for (a, b) in snapshot.iter().zip(again.iter()) {
        assert_eq!(a, b);
    }
}

fn clone_name(n: &Name) -> Name {
    match n {
        Name::Named(s) => Name::Named(s.clone()),
        Name::Unnamed(i) => Name::Unnamed(*i),
    }
}

#[test]
fn def_indexes_lists_named_definitions() {
    let prog = Program {
        defs: vec![def("a", &[], num(1)), def("b", &[], num(2))],
    };
    let sc = prog.into_anon().unwrap().lambda_lift().lambda_elim().unwrap();
    let idx = sc.def_indexes();
    assert_eq!(idx.len(), 2);
    assert_eq!(idx[0], ("a".to_string(), 0));
    assert_eq!(idx[1], ("b".to_string(), 1));
}

#[test]
fn expr_into_anon_standalone() {
    let globals = vec![("g".to_string(), 0usize)];
    let params = vec!["x".to_string()];
    let e = app(id("g"), id("x"));
    match e.into_anon(&globals, &params) {
        Ok(AnonExpr::App(f, a)) => {
            assert!(matches!(&*f, AnonExpr::DefId(0)));
            assert!(matches!(&*a, AnonExpr::ArgId(0)));
        },
        other => panic!("unexpected translation {:?}", other),
    }
    match id("missing").into_anon(&globals, &params) {
        Err(Error::UndefinedIdent { def_name, undefined_name }) => {
            assert_eq!(def_name, "");
            assert_eq!(undefined_name, "missing");
        },
        other => panic!("expected an undefined identifier, got {:?}", other),
    }
}

#[test]
fn def_into_anon_keeps_primitive_arity() {
    let globals = vec![("P".to_string(), 0usize)];
    let d = prim_def("P", &["x", "y", "z"]);
    let ad = d.into_anon(&globals).unwrap();
    assert_eq!(ad.name, Name::Named("P".to_string()));
    assert_eq!(ad.params, 3);
    assert!(ad.body.is_none());
}

#[test]
fn compress_renumbers_generated_names() {
    let prog = Program {
        defs: vec![
            def("h", &[], lam(&["x"], lam(&["y"], app(id("y"), id("x"))))),
            def("k", &[], lam(&["x"], id("x"))),
        ],
    };
    let sc = prog.into_anon().unwrap().lambda_lift().lambda_elim().unwrap().compress();
    // generated names count 0, 1, 2, ... over the unnamed definitions
    let mut expected: usize = 0;
    for d in &sc.defs {
        if let Name::Unnamed(u) = d.name {
            assert_eq!(u, expected);
            expected += 1;
        }
    }
    assert!(expected > 0);
}

#[test]
fn alias_chains_collapse_fully() {
    // a = b; b = c; c x = x: the whole chain folds in one compression
    let prog = Program {
        defs: vec![def("a", &[], id("b")), def("b", &[], id("c")), def("c", &["x"], id("x"))],
    };
    let sc = prog.into_anon().unwrap().lambda_lift().lambda_elim().unwrap().compress();
    assert_eq!(sc.defs.len(), 3);
    for d in &sc.defs {
        assert_eq!(d.params, 1);
        assert!(matches!(d.body, Some(ScExpr::ArgId(0))));
    }
}

#[test]
fn alias_cycles_are_left_alone() {
    // a = b; b = a has no chain end: both definitions survive as aliases
    let prog = Program {
        defs: vec![def("a", &[], id("b")), def("b", &[], id("a"))],
    };
    let sc = prog.into_anon().unwrap().lambda_lift().lambda_elim().unwrap().compress();
    assert_eq!(sc.defs.len(), 2);
    for d in &sc.defs {
        assert_eq!(d.params, 0);
        assert!(matches!(d.body, Some(ScExpr::DefId(_))));
    }
}
