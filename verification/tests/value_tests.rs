use declconf::value::{ConvError, RawValue, SetValue};

fn s(x: &str) -> String {
    x.to_string()
}

#[test]
fn comma_list_reads_as_list() {
    let r = SetValue::from_option(true, false, "path", RawValue::Str(s("a,b,c"))).unwrap();
    assert_eq!(r.0, SetValue::List(vec![s("a"), s("b"), s("c")]));
    assert!(r.1.is_empty());
}

#[test]
fn comma_list_round_trips() {
    let (v, _) = SetValue::from_option(true, false, "path", RawValue::Str(s("a,b"))).unwrap();
    let raw = v.to_raw();
    assert_eq!(raw, RawValue::Str(s("a,b")));
    let (again, _) = SetValue::from_option(true, false, "path", raw).unwrap();
    assert_eq!(again, v);
}

#[test]
fn empty_comma_list_is_one_empty_segment() {
    let (v, _) = SetValue::from_option(true, false, "path", RawValue::Str(s(""))).unwrap();
    assert_eq!(v, SetValue::List(vec![s("")]));
    let raw = v.to_raw();
    assert_eq!(raw, RawValue::Str(s("")));
    let (again, _) = SetValue::from_option(true, false, "path", raw).unwrap();
    assert_eq!(again, v);
}

#[test]
fn maplike_comma_list_reads_as_map() {
    let (v, ill) =
        SetValue::from_option(true, false, "fillchars", RawValue::Str(s("vert:|,fold:-"))).unwrap();
    assert_eq!(v, SetValue::Entries(vec![(s("vert"), s("|")), (s("fold"), s("-"))]));
    assert!(ill.is_empty());
}

#[test]
fn maplike_drops_and_reports_ill_formed_entries() {
    let (v, ill) =
        SetValue::from_option(true, false, "listchars", RawValue::Str(s("tab:>-,oops,eol:$")))
            .unwrap();
    assert_eq!(v, SetValue::Entries(vec![(s("tab"), s(">-")), (s("eol"), s("$"))]));
    assert_eq!(ill, vec![s("oops")]);
}

#[test]
fn maplike_skips_empty_segments() {
    let (v, ill) =
        SetValue::from_option(true, false, "winhl", RawValue::Str(s(""))).unwrap();
    assert_eq!(v, SetValue::Entries(vec![]));
    assert!(ill.is_empty());
}

#[test]
fn maplike_later_entry_wins_on_key_collision() {
    let (v, _) =
        SetValue::from_option(true, false, "fillchars", RawValue::Str(s("vert:|,vert:#"))).unwrap();
    assert_eq!(v, SetValue::Entries(vec![(s("vert"), s("#"))]));
}

#[test]
fn maplike_round_trips() {
    let (v, _) =
        SetValue::from_option(true, false, "fillchars", RawValue::Str(s("vert:|,fold:-"))).unwrap();
    let raw = v.to_raw();
    assert_eq!(raw, RawValue::Str(s("vert:|,fold:-")));
    let (again, _) = SetValue::from_option(true, false, "fillchars", raw).unwrap();
    assert_eq!(again, v);
}

#[test]
fn flag_list_reads_as_distinct_chars() {
    let (v, _) = SetValue::from_option(false, true, "shortmess", RawValue::Str(s("abcab"))).unwrap();
    assert_eq!(v, SetValue::Chars(vec!['a', 'b', 'c']));
}

#[test]
fn flag_list_round_trips() {
    let (v, _) = SetValue::from_option(false, true, "shortmess", RawValue::Str(s("fic"))).unwrap();
    let raw = v.to_raw();
    assert_eq!(raw, RawValue::Str(s("fic")));
    let (again, _) = SetValue::from_option(false, true, "shortmess", raw).unwrap();
    assert_eq!(again, v);
}

#[test]
fn native_kinds_pass_through() {
    let (b, _) = SetValue::from_option(false, false, "wrap", RawValue::Bool(true)).unwrap();
    assert_eq!(b, SetValue::Bool(true));
    let (i, _) = SetValue::from_option(false, false, "tabstop", RawValue::Integer(8)).unwrap();
    assert_eq!(i, SetValue::Integer(8));
    let bits = 1.5f64.to_bits();
    let (f, _) = SetValue::from_option(false, false, "pdev", RawValue::Float(bits)).unwrap();
    assert_eq!(f, SetValue::Float(bits));
}

#[test]
fn native_round_trips() {
    let (v, _) = SetValue::from_option(false, false, "tabstop", RawValue::Integer(4)).unwrap();
    let raw = v.to_raw();
    assert_eq!(raw, RawValue::Integer(4));
    let (again, _) = SetValue::from_option(false, false, "tabstop", raw).unwrap();
    assert_eq!(again, v);
}

#[test]
fn native_string_is_unsupported_type() {
    let e = SetValue::from_option(false, false, "background", RawValue::Str(s("dark")));
    assert_eq!(e, Err(ConvError::WrongType(s("string"))));
}

#[test]
fn comma_list_of_non_string_fails() {
    let e = SetValue::from_option(true, false, "path", RawValue::Bool(true));
    assert_eq!(e, Err(ConvError::NotAString(s("boolean"))));
}

#[test]
fn flag_list_of_non_string_fails() {
    let e = SetValue::from_option(false, true, "shortmess", RawValue::Integer(1));
    assert_eq!(e, Err(ConvError::NotAString(s("integer"))));
}

#[test]
fn unknown_native_kind_is_reported_by_name() {
    let e = SetValue::from_option(false, false, "opt", RawValue::Other(s("dictionary")));
    assert_eq!(e, Err(ConvError::WrongType(s("dictionary"))));
}

#[test]
fn write_serializes_each_kind() {
    assert_eq!(SetValue::Bool(false).to_raw(), RawValue::Bool(false));
    assert_eq!(SetValue::String(s("x")).to_raw(), RawValue::Str(s("x")));
    assert_eq!(SetValue::Integer(-3).to_raw(), RawValue::Integer(-3));
    assert_eq!(
        SetValue::List(vec![s("a"), s("b")]).to_raw(),
        RawValue::Str(s("a,b"))
    );
    assert_eq!(SetValue::Chars(vec!['x', 'y']).to_raw(), RawValue::Str(s("xy")));
    assert_eq!(
        SetValue::Entries(vec![(s("k"), s("v")), (s("l"), s("w"))]).to_raw(),
        RawValue::Str(s("k:v,l:w"))
    );
}
