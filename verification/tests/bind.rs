use openscad_rs::ast::{Arg, Expr, Param};
use openscad_rs::bind::{bind_params, find_named, positional_indices, Binding};

fn num(t: &str) -> Expr {
    Expr::Number(t.to_string())
}

fn param(name: &str, default: Option<Expr>) -> Param {
    Param { name: name.to_string(), default }
}

fn named(name: &str, e: Expr) -> Arg {
    Arg::Named(name.to_string(), e)
}

#[test]
fn named_arguments_win_and_the_last_of_a_name_counts() {
    let params = vec![param("a", None), param("b", Some(num("5"))), param("c", None)];
    let args = vec![
        Arg::Positional(num("1")),
        named("c", num("2")),
        named("a", num("3")),
        named("a", num("4")),
    ];
    let b = bind_params(&params, &args);
    assert_eq!(b, vec![Binding::Arg(3), Binding::Arg(0), Binding::Arg(1)]);
}

#[test]
fn positional_arguments_are_taken_in_order() {
    let params = vec![param("x", None), param("y", None), param("z", None)];
    let args = vec![Arg::Positional(num("1")), named("q", num("9")), Arg::Positional(num("2"))];
    let b = bind_params(&params, &args);
    assert_eq!(b, vec![Binding::Arg(0), Binding::Arg(2), Binding::Unbound]);
}

#[test]
fn defaults_fill_what_the_call_leaves_open() {
    let params = vec![param("r", Some(num("1"))), param("h", None)];
    let b = bind_params(&params, &Vec::new());
    assert_eq!(b, vec![Binding::Default, Binding::Unbound]);
    let args = vec![named("h", num("3")), Arg::Positional(num("2")), Arg::Positional(num("7"))];
    let b = bind_params(&params, &args);
    assert_eq!(b, vec![Binding::Arg(1), Binding::Arg(0)]);
}

#[test]
fn no_parameters_bind_nothing() {
    let args = vec![Arg::Positional(num("1"))];
    assert!(bind_params(&Vec::new(), &args).is_empty());
}

#[test]
fn named_lookup_and_positional_indices() {
    let args = vec![named("a", num("1")), Arg::Positional(num("2")), named("a", num("3")), Arg::Positional(num("4"))];
    assert_eq!(find_named(&args, &"a".to_string()), Some(2));
    assert_eq!(find_named(&args, &"b".to_string()), None);
    assert_eq!(positional_indices(&args), vec![1, 3]);
}
