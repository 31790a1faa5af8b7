use lua_host::{lua_enum, EnumError, GuestValue, LuaEnum};

fn s(x: &str) -> GuestValue {
    GuestValue::Str(x.to_string())
}

fn colors() -> LuaEnum {
    lua_enum(vec![GuestValue::Table(vec![s("Red"), s("Green"), s("Blue")])]).unwrap()
}

fn echoed(r: Result<String, EnumError>) -> Option<String> {
    r.ok()
}

fn invalid_name(r: Result<String, EnumError>) -> Option<String> {
    match r {
        Err(EnumError::InvalidValue(n)) => Some(n),
        _ => None,
    }
}

fn failure(r: Result<LuaEnum, EnumError>) -> EnumError {
    match r {
        Ok(_) => panic!("enum construction should fail"),
        Err(e) => e,
    }
}

#[test]
fn members_echo_themselves() {
    let h = colors();
    for name in ["Red", "Green", "Blue"] {
        assert_eq!(echoed(h.index(vec![s(name)])), Some(name.to_string()));
    }
}

#[test]
fn lookup_is_repeatable() {
    let h = colors();
    assert_eq!(echoed(h.index(vec![s("Red")])), Some("Red".to_string()));
    assert_eq!(echoed(h.index(vec![s("Red")])), Some("Red".to_string()));
}

#[test]
fn non_member_is_invalid_enum_value() {
    let h = colors();
    assert_eq!(invalid_name(h.index(vec![s("Purple")])), Some("Purple".to_string()));
    let e = h.index(vec![s("Purple")]).err().unwrap();
    assert_eq!(e.message(), "invalid enum value: Purple");
    assert_eq!(invalid_name(h.index(vec![s("red")])), Some("red".to_string()));
    assert_eq!(invalid_name(h.index(vec![s("")])), Some(String::new()));
}

#[test]
fn duplicate_tokens_are_merged() {
    let h = lua_enum(vec![GuestValue::Table(vec![s("A"), s("A"), s("B")])]).unwrap();
    assert!(h.contains(&"A".to_string()));
    assert!(h.contains(&"B".to_string()));
    assert!(!h.contains(&"C".to_string()));
    assert_eq!(h.tokens(), vec!["A".to_string(), "B".to_string()]);
    assert_eq!(echoed(h.index(vec![s("A")])), Some("A".to_string()));
}

#[test]
fn empty_sequence_gives_empty_enum() {
    let h = lua_enum(vec![GuestValue::Table(vec![])]).unwrap();
    assert!(h.tokens().is_empty());
    assert_eq!(invalid_name(h.index(vec![s("A")])), Some("A".to_string()));
}

#[test]
fn no_argument_is_refused() {
    let e = failure(lua_enum(vec![]));
    assert!(matches!(e, EnumError::ArgCount));
    assert_eq!(e.message(), "expected 1 argument, which should be a set");
}

#[test]
fn two_arguments_are_refused() {
    let args = vec![GuestValue::Table(vec![s("A")]), GuestValue::Table(vec![s("B")])];
    assert!(matches!(failure(lua_enum(args)), EnumError::ArgCount));
}

#[test]
fn non_sequence_argument_is_refused() {
    let e = failure(lua_enum(vec![GuestValue::Boolean(true)]));
    assert!(matches!(e, EnumError::NotASequence(GuestValue::Boolean(true))));
    assert_eq!(e.message(), "argument must be a set; found: boolean");
    let e = failure(lua_enum(vec![s("Red")]));
    assert!(matches!(&e, EnumError::NotASequence(GuestValue::Str(x)) if x == "Red"));
    assert_eq!(e.message(), "argument must be a set; found: string");
}

#[test]
fn non_text_element_is_refused() {
    let args = vec![GuestValue::Table(vec![
        s("A"),
        GuestValue::Integer(3),
        GuestValue::Nil,
    ])];
    let e = failure(lua_enum(args));
    assert!(matches!(e, EnumError::NotText(GuestValue::Integer(3))));
    assert_eq!(e.message(), "set elements must be strings; found: integer");
}

#[test]
fn lookup_needs_one_string() {
    let h = colors();
    assert!(matches!(h.index(vec![]), Err(EnumError::IndexArgs)));
    assert!(matches!(h.index(vec![GuestValue::Integer(1)]), Err(EnumError::IndexArgs)));
    assert!(matches!(h.index(vec![s("Red"), s("Blue")]), Err(EnumError::IndexArgs)));
    assert_eq!(
        EnumError::IndexArgs.message(),
        "invalid args: must be exactly 1 string argument"
    );
}

#[test]
fn labels_build_an_enum() {
    let labels = vec!["GET".to_string(), "POST".to_string()];
    let h = LuaEnum::from_labels(labels).unwrap();
    assert_eq!(echoed(h.index(vec![s("GET")])), Some("GET".to_string()));
    assert_eq!(invalid_name(h.index(vec![s("PUT")])), Some("PUT".to_string()));
}

#[test]
fn repeated_labels_are_refused() {
    let labels = vec!["GET".to_string(), "POST".to_string(), "GET".to_string()];
    assert!(LuaEnum::from_labels(labels).is_none());
}

#[test]
fn kind_names() {
    assert_eq!(GuestValue::Nil.kind_name(), "nil");
    assert_eq!(GuestValue::Number("1.5".to_string()).kind_name(), "number");
    assert_eq!(GuestValue::Function.kind_name(), "function");
    assert_eq!(GuestValue::Handle.kind_name(), "userdata");
    assert_eq!(GuestValue::Table(vec![]).kind_name(), "table");
}
