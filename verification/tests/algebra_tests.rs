use declconf::algebra::{step, Operation, SetDirective, StepOutcome};
use declconf::value::SetValue;

fn s(x: &str) -> String {
    x.to_string()
}

fn next(o: StepOutcome) -> SetValue {
    match o {
        StepOutcome::Next(v) => v,
        other => panic!("expected a next value, got {:?}", other),
    }
}

#[test]
fn assign_replaces_regardless_of_current_tag() {
    let r = step(&SetValue::Integer(3), &SetValue::Bool(true), Operation::Assign);
    assert_eq!(next(r), SetValue::Bool(true));
    let r = step(&SetValue::Bool(false), &SetValue::String(s("x")), Operation::Assign);
    assert_eq!(next(r), SetValue::String(s("x")));
}

#[test]
fn assign_list_onto_flag_set_converts_to_chars() {
    let cur = SetValue::Chars(vec!['q']);
    let req = SetValue::List(vec![s("ab"), s("bc")]);
    let r = step(&cur, &req, Operation::Assign);
    assert_eq!(next(r), SetValue::Chars(vec!['a', 'b', 'c']));
}

#[test]
fn integer_append_adds() {
    let r = step(&SetValue::Integer(2), &SetValue::Integer(3), Operation::Append);
    assert_eq!(next(r), SetValue::Integer(5));
}

#[test]
fn integer_remove_is_requested_minus_current() {
    let r = step(&SetValue::Integer(5), &SetValue::Integer(2), Operation::Remove);
    assert_eq!(next(r), SetValue::Integer(-3));
}

#[test]
fn float_append_hands_operands_to_host() {
    let c = 2.5f64.to_bits();
    let q = 0.5f64.to_bits();
    let r = step(&SetValue::Float(c), &SetValue::Float(q), Operation::Append);
    match r {
        StepOutcome::FloatAppend(a, b) => {
            assert_eq!((a, b), (c, q));
            assert_eq!(f64::from_bits(a) + f64::from_bits(b), 3.0);
        }
        other => panic!("unexpected outcome {:?}", other),
    }
}

#[test]
fn float_remove_is_requested_minus_current() {
    let c = 5.0f64.to_bits();
    let q = 2.0f64.to_bits();
    let r = step(&SetValue::Float(c), &SetValue::Float(q), Operation::Remove);
    match r {
        StepOutcome::FloatRemove(a, b) => {
            assert_eq!((a, b), (c, q));
            assert_eq!(f64::from_bits(b) - f64::from_bits(a), -3.0);
        }
        other => panic!("unexpected outcome {:?}", other),
    }
}

#[test]
fn string_append_and_prepend() {
    let r = step(&SetValue::String(s("ab")), &SetValue::String(s("cd")), Operation::Append);
    assert_eq!(next(r), SetValue::String(s("abcd")));
    let r = step(&SetValue::String(s("ab")), &SetValue::String(s("cd")), Operation::Prepend);
    assert_eq!(next(r), SetValue::String(s("cdab")));
}

#[test]
fn string_remove_takes_first_occurrence_only() {
    let r = step(&SetValue::String(s("banana")), &SetValue::String(s("an")), Operation::Remove);
    assert_eq!(next(r), SetValue::String(s("bana")));
    let r = step(&SetValue::String(s("abc")), &SetValue::String(s("zz")), Operation::Remove);
    assert_eq!(next(r), SetValue::String(s("abc")));
}

#[test]
fn list_append_and_prepend_concatenate() {
    let cur = SetValue::List(vec![s("a"), s("b")]);
    let req = SetValue::List(vec![s("c")]);
    assert_eq!(
        next(step(&cur, &req, Operation::Append)),
        SetValue::List(vec![s("a"), s("b"), s("c")])
    );
    assert_eq!(
        next(step(&cur, &req, Operation::Prepend)),
        SetValue::List(vec![s("c"), s("a"), s("b")])
    );
}

#[test]
fn list_remove_deletes_first_match_per_requested_element() {
    let cur = SetValue::List(vec![s("a"), s("b"), s("a")]);
    let req = SetValue::List(vec![s("a")]);
    assert_eq!(
        next(step(&cur, &req, Operation::Remove)),
        SetValue::List(vec![s("b"), s("a")])
    );
    let req2 = SetValue::List(vec![s("a"), s("a")]);
    assert_eq!(
        next(step(&cur, &req2, Operation::Remove)),
        SetValue::List(vec![s("b")])
    );
}

#[test]
fn list_with_string_is_single_element_list() {
    let cur = SetValue::List(vec![s("a"), s("b")]);
    assert_eq!(
        next(step(&cur, &SetValue::String(s("c")), Operation::Append)),
        SetValue::List(vec![s("a"), s("b"), s("c")])
    );
    assert_eq!(
        next(step(&cur, &SetValue::String(s("c")), Operation::Prepend)),
        SetValue::List(vec![s("c"), s("a"), s("b")])
    );
    assert_eq!(
        next(step(&cur, &SetValue::String(s("a")), Operation::Remove)),
        SetValue::List(vec![s("b")])
    );
}

#[test]
fn char_set_append_and_prepend_union() {
    let cur = SetValue::Chars(vec!['a', 'b']);
    let req = SetValue::String(s("bc"));
    assert_eq!(
        next(step(&cur, &req, Operation::Append)),
        SetValue::Chars(vec!['a', 'b', 'c'])
    );
    assert_eq!(
        next(step(&cur, &req, Operation::Prepend)),
        SetValue::Chars(vec!['a', 'b', 'c'])
    );
}

#[test]
fn char_set_remove_deletes_every_named_char() {
    let cur = SetValue::Chars(vec!['a', 'b', 'c']);
    assert_eq!(
        next(step(&cur, &SetValue::String(s("ac")), Operation::Remove)),
        SetValue::Chars(vec!['b'])
    );
}

#[test]
fn char_set_with_list_flattens_to_chars() {
    let cur = SetValue::Chars(vec!['a']);
    let req = SetValue::List(vec![s("bc"), s("cd")]);
    assert_eq!(
        next(step(&cur, &req, Operation::Append)),
        SetValue::Chars(vec!['a', 'b', 'c', 'd'])
    );
    let cur2 = SetValue::Chars(vec!['a', 'b', 'c']);
    assert_eq!(
        next(step(&cur2, &SetValue::List(vec![s("b"), s("c")]), Operation::Remove)),
        SetValue::Chars(vec!['a'])
    );
}

#[test]
fn map_overlay_requested_wins_on_collision() {
    let cur = SetValue::Entries(vec![(s("k"), s("old")), (s("l"), s("w"))]);
    let req = SetValue::Entries(vec![(s("k"), s("new")), (s("m"), s("x"))]);
    assert_eq!(
        next(step(&cur, &req, Operation::Append)),
        SetValue::Entries(vec![(s("k"), s("new")), (s("l"), s("w")), (s("m"), s("x"))])
    );
    assert_eq!(
        next(step(&cur, &req, Operation::Prepend)),
        SetValue::Entries(vec![(s("k"), s("new")), (s("l"), s("w")), (s("m"), s("x"))])
    );
}

#[test]
fn map_remove_by_key_list_and_single_key() {
    let cur = SetValue::Entries(vec![(s("k"), s("v")), (s("l"), s("w")), (s("m"), s("x"))]);
    assert_eq!(
        next(step(&cur, &SetValue::List(vec![s("k"), s("m")]), Operation::Remove)),
        SetValue::Entries(vec![(s("l"), s("w"))])
    );
    assert_eq!(
        next(step(&cur, &SetValue::String(s("l")), Operation::Remove)),
        SetValue::Entries(vec![(s("k"), s("v")), (s("m"), s("x"))])
    );
}

#[test]
fn unmatched_combinations_are_unsupported_never_a_panic() {
    let b = SetValue::Bool(true);
    let i = SetValue::Integer(1);
    let f = SetValue::Float(1.0f64.to_bits());
    let st = SetValue::String(s("x"));
    let l = SetValue::List(vec![s("x")]);
    let c = SetValue::Chars(vec!['x']);
    let m = SetValue::Entries(vec![(s("k"), s("v"))]);
    let values = [&b, &i, &f, &st, &l, &c, &m];
    let ops = [Operation::Append, Operation::Prepend, Operation::Remove, Operation::Assign];
    let mut total = 0;
    let mut unsupported = 0;
    for cur in values.iter() {
        for req in values.iter() {
            for op in ops.iter() {
                total += 1;
                if let StepOutcome::Unsupported = step(cur, req, *op) {
                    unsupported += 1;
                }
            }
        }
    }
    assert_eq!(total, 7 * 7 * 4);
    // every Assign combination is covered, so at most 3/4 can be unsupported
    assert!(unsupported < 7 * 7 * 3);
    // spot-check combinations no rule covers
    assert_eq!(step(&b, &b, Operation::Append), StepOutcome::Unsupported);
    assert_eq!(step(&i, &st, Operation::Append), StepOutcome::Unsupported);
    assert_eq!(step(&i, &i, Operation::Prepend), StepOutcome::Unsupported);
    assert_eq!(step(&f, &f, Operation::Prepend), StepOutcome::Unsupported);
    assert_eq!(step(&m, &m, Operation::Remove), StepOutcome::Unsupported);
    assert_eq!(step(&st, &l, Operation::Append), StepOutcome::Unsupported);
}

#[test]
fn operation_parse_accepts_all_aliases() {
    for t in ["Append", "append", "+"] {
        assert_eq!(Operation::parse(t), Some(Operation::Append));
    }
    for t in ["Prepend", "prepend", "^"] {
        assert_eq!(Operation::parse(t), Some(Operation::Prepend));
    }
    for t in ["Remove", "remove", "-"] {
        assert_eq!(Operation::parse(t), Some(Operation::Remove));
    }
    for t in ["Assign", "assign", "value", "="] {
        assert_eq!(Operation::parse(t), Some(Operation::Assign));
    }
    assert_eq!(Operation::parse("frobnicate"), None);
}

#[test]
fn operation_gerunds_match_diagnostics() {
    assert_eq!(Operation::Append.gerund(), s("appending"));
    assert_eq!(Operation::Prepend.gerund(), s("prepending"));
    assert_eq!(Operation::Remove.gerund(), s("remove"));
    assert_eq!(Operation::Assign.gerund(), s("assigning"));
}

#[test]
fn flag_names_become_boolean_assignments() {
    let on = SetDirective::from_flag(s("wrap"));
    assert_eq!(on, SetDirective(s("wrap"), Operation::Assign, SetValue::Bool(true)));
    let off = SetDirective::from_flag(s("nowrap"));
    assert_eq!(off, SetDirective(s("wrap"), Operation::Assign, SetValue::Bool(false)));
    let short = SetDirective::from_flag(s("n"));
    assert_eq!(short, SetDirective(s("n"), Operation::Assign, SetValue::Bool(true)));
}
