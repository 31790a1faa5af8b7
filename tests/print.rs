use lua_host::{log_line, print_message};

fn rendered(parts: &[&str]) -> Vec<String> {
    parts.iter().map(|p| p.to_string()).collect()
}

#[test]
fn print_joins_serialized_scalars_with_tabs() {
    let parts = vec![
        ron::to_string(&"a").unwrap(),
        ron::to_string(&1i64).unwrap(),
        ron::to_string(&true).unwrap(),
    ];
    assert_eq!(print_message(&parts), "\"a\"\t1\ttrue");
    assert_eq!(log_line(&parts), "lua: \"a\"\t1\ttrue");
}

#[test]
fn print_without_arguments_is_empty() {
    assert_eq!(print_message(&vec![]), "");
    assert_eq!(log_line(&vec![]), "lua: ");
}

#[test]
fn print_keeps_empty_renderings() {
    assert_eq!(print_message(&rendered(&["", ""])), "\t");
    assert_eq!(print_message(&rendered(&["x"])), "x");
    assert_eq!(print_message(&rendered(&["x", "", "z"])), "x\t\tz");
}
