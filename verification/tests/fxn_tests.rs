use autorct::fxn::{exec_fxn, fxn_would_run, Scope};

fn var(k: &str, v: &str) -> (String, (String, Option<String>)) {
    (k.to_string(), (v.to_string(), None))
}

#[test]
fn body_assignments_make_a_scope() {
    let mut stack: Vec<Scope> = Vec::new();
    let body = "X := 1\n  Y:= two  \nX := 3\nCMD echo @X";
    assert!(fxn_would_run(body, &stack));
    exec_fxn(&Vec::new(), body, &mut stack);
    assert_eq!(stack.len(), 1);
    assert_eq!(stack[0], vec![var("X", "3"), var("Y", "two")]);
}

#[test]
fn outer_scopes_are_kept() {
    let mut stack: Vec<Scope> = vec![vec![var("A", "a")]];
    assert!(fxn_would_run("B := x@A", &stack));
    exec_fxn(&vec![("p".to_string(), "1".to_string())], "B := x@A", &mut stack);
    assert_eq!(stack, vec![vec![var("A", "a")], vec![var("B", "x@A")]]);
}

#[test]
fn bodies_that_would_fail() {
    let stack: Vec<Scope> = Vec::new();
    assert!(!fxn_would_run("R := @f(1)", &stack));
    assert!(!fxn_would_run("B := @A", &vec![vec![var("A", "a")]]));
    let with_fn: Vec<Scope> =
        vec![vec![("g".to_string(), ("Y := 1".to_string(), Some("a".to_string())))]];
    assert!(!fxn_would_run("Z := 0\nrun @g(1)", &with_fn));
    assert!(fxn_would_run("Z := 0\nrun g(1)", &with_fn));
    assert!(fxn_would_run("", &stack));
}
