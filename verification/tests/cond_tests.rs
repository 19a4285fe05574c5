use autorct::cond::{cond_float_leaves, eval_cond, try_eval_cond};

fn eval(c: &str) -> bool {
    eval_cond(c, &Vec::new())
}

#[test]
fn whole_numbers() {
    assert!(eval("1"));
    assert!(!eval("0"));
    assert!(eval(" 42 "));
    assert!(!eval("000"));
}

#[test]
fn words() {
    assert!(eval("true"));
    assert!(!eval("false"));
    assert!(!eval("\"\""));
    assert!(!eval("''"));
    assert!(eval("abc"));
    assert!(eval("1a"));
}

#[test]
fn comparisons_of_truth_values() {
    assert!(eval("1 == 1"));
    assert!(eval("1 == 5"));
    assert!(!eval("0 == 5"));
    assert!(eval("true != false"));
    assert!(!eval("abc != xyz"));
    assert!(eval("1 > 0"));
    assert!(!eval("1 > 2"));
    assert!(eval("0 < 1"));
    assert!(!eval("1 <= 2"));
    assert!(eval("a == b == c"));
}

#[test]
fn fractions_are_read_by_the_caller() {
    assert_eq!(cond_float_leaves("2.5 > 0.0"), vec!["2.5".to_string(), "0.0".to_string()]);
    assert_eq!(cond_float_leaves("1 == x"), Vec::<String>::new());
    assert!(eval_cond("2.5 > 0.0", &vec![true, false]));
    assert!(!eval_cond("2.5 > 0.0", &vec![false, false]));
    assert!(eval_cond("1.5", &vec![true]));
}

#[test]
fn unreadable_leaves() {
    assert_eq!(try_eval_cond("", &Vec::new()), None);
    assert_eq!(try_eval_cond("1 ==", &Vec::new()), None);
    assert_eq!(try_eval_cond(".", &vec![true]), None);
    assert_eq!(try_eval_cond("99999999999999999999", &Vec::new()), None);
    assert_eq!(try_eval_cond("9223372036854775807", &Vec::new()), Some(true));
    assert_eq!(try_eval_cond("1 == 1", &Vec::new()), Some(true));
}

#[test]
fn not_equal_negates_equal() {
    for (l, r) in [("1", "0"), ("abc", "''"), (" true ", "false"), ("0", "\"\"")] {
        let eq = format!("{l}=={r}");
        let ne = format!("{l}!={r}");
        assert_eq!(eval(&ne), !eval(&eq));
    }
    assert_eq!(try_eval_cond("1 != ", &Vec::new()), None);
    assert_eq!(try_eval_cond("1 == ", &Vec::new()), None);
}

#[test]
fn equal_and_not_equal_are_symmetric() {
    for (l, r) in [("1", "0"), ("abc", "''"), ("true", "0"), ("1", "1")] {
        assert_eq!(eval(&format!("{l} == {r}")), eval(&format!("{r} == {l}")));
        assert_eq!(eval(&format!("{l} != {r}")), eval(&format!("{r} != {l}")));
    }
    assert_eq!(
        eval_cond("2.5 == 0", &vec![true]),
        eval_cond("0 == 2.5", &vec![true])
    );
}
