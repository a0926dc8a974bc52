use encenv::{export_twice, parse_set_env_expr, Command, EnvError, State};

fn s(x: &str) -> String {
    x.to_string()
}

#[test]
fn command_words() {
    assert_eq!(Command::from_str("set"), Ok(Command::SetVar));
    assert_eq!(Command::from_str("export"), Ok(Command::Export));
    assert_eq!(Command::from_str("frobnicate"), Err(EnvError::UnknownCommand));
    assert_eq!(Command::from_str(""), Err(EnvError::UnknownCommand));
    assert_eq!(Command::from_str("Set"), Err(EnvError::UnknownCommand));
}

#[test]
fn expression_splits_at_first_equals() {
    assert_eq!(
        parse_set_env_expr(&s("A=1")),
        Ok((s("A"), s("1")))
    );
    assert_eq!(
        parse_set_env_expr(&s("A=B=C")),
        Ok((s("A"), s("B=C")))
    );
    assert_eq!(parse_set_env_expr(&s("=x")), Ok((s(""), s("x"))));
    assert_eq!(parse_set_env_expr(&s("x=")), Ok((s("x"), s(""))));
    assert_eq!(parse_set_env_expr(&s("=")), Ok((s(""), s(""))));
}

#[test]
fn expression_without_equals_is_rejected() {
    assert_eq!(
        parse_set_env_expr(&s("NOEQUALSSIGN")),
        Err(EnvError::InvalidExpression)
    );
    assert_eq!(parse_set_env_expr(&s("")), Err(EnvError::InvalidExpression));
}

#[test]
fn set_with_bad_expression_changes_nothing() {
    let mut st = State::new();
    st.set_env(&s("A"), &s("1"));
    let r = st.apply_set_exprs(&vec![s("B=2"), s("NOEQUALSSIGN")]);
    assert_eq!(r, Err(EnvError::InvalidExpression));
    assert_eq!(st.len(), 1);
    assert!(st.get(&s("B")).is_none());
    assert_eq!(st.get(&s("A")).unwrap().as_str(), "1");
}

#[test]
fn later_assignment_overwrites_earlier() {
    let mut st = State::new();
    st.apply_set_exprs(&vec![s("A=1"), s("A=2")]).unwrap();
    assert_eq!(st.len(), 1);
    assert_eq!(st.get(&s("A")).unwrap().as_str(), "2");
}

#[test]
fn export_prints_each_pair_once() {
    let mut st = State::new();
    st.apply_set_exprs(&vec![s("DB_HOST=localhost"), s("DB_PORT=5432")])
        .unwrap();
    let mut lines = st.export_lines();
    lines.sort();
    assert_eq!(lines, vec![s("DB_HOST=localhost"), s("DB_PORT=5432")]);
}

#[test]
fn export_twice_prints_the_same_lines() {
    let mut st = State::new();
    st.apply_set_exprs(&vec![s("A=1"), s("B=two"), s("C=x=y")])
        .unwrap();
    let bytes = st.save_bytes().unwrap();
    let (first, second) = export_twice(&bytes).unwrap();
    assert_eq!(first, second);
    let mut sorted = first.clone();
    sorted.sort();
    assert_eq!(sorted, vec![s("A=1"), s("B=two"), s("C=x=y")]);
}
