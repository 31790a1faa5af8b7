use lua_host::{
    classify_entry, fragment_names, is_script_name, name_le, plan_prelude, EntryKind, PreludeStep,
};

fn entries(names: &[&str]) -> Vec<Option<String>> {
    names.iter().map(|n| Some(n.to_string())).collect()
}

#[test]
fn file_runs_before_fragments() {
    let plan = plan_prelude(true, &Some(entries(&["a.lua"])));
    assert!(matches!(plan.as_slice(), [PreludeStep::File, PreludeStep::Fragment(a)] if a == "a.lua"));
}

#[test]
fn nothing_to_load_without_file_or_directory() {
    assert!(plan_prelude(false, &None).is_empty());
}

#[test]
fn file_alone_without_directory() {
    assert!(matches!(plan_prelude(true, &None).as_slice(), [PreludeStep::File]));
}

#[test]
fn non_script_entries_are_skipped() {
    let plan = plan_prelude(false, &Some(entries(&["notes.txt", "b.lua"])));
    assert!(matches!(plan.as_slice(), [PreludeStep::Fragment(b)] if b == "b.lua"));
}

#[test]
fn invalid_names_are_skipped() {
    let listing = vec![None, Some("c.lua".to_string())];
    assert_eq!(fragment_names(&listing), vec!["c.lua".to_string()]);
    assert_eq!(classify_entry(&None), EntryKind::InvalidName);
}

#[test]
fn fragments_run_in_name_order() {
    let names = fragment_names(&entries(&["b.lua", "a.lua", "c.txt", "ab.lua", "B.lua"]));
    assert_eq!(names, vec!["B.lua", "a.lua", "ab.lua", "b.lua"]);
}

#[test]
fn empty_directory_gives_no_fragments() {
    assert!(fragment_names(&vec![]).is_empty());
    assert!(matches!(plan_prelude(true, &Some(vec![])).as_slice(), [PreludeStep::File]));
}

#[test]
fn script_extension() {
    assert!(is_script_name(&"a.lua".to_string()));
    assert!(is_script_name(&".lua".to_string()));
    assert!(!is_script_name(&"lua".to_string()));
    assert!(!is_script_name(&"a.lua.bak".to_string()));
    assert!(!is_script_name(&"a.LUA".to_string()));
    assert!(!is_script_name(&"".to_string()));
    assert!(is_script_name(&"é.lua".to_string()));
    assert_eq!(classify_entry(&Some("x.lua".to_string())), EntryKind::Script);
    assert_eq!(classify_entry(&Some("x.txt".to_string())), EntryKind::NotScript);
}

#[test]
fn name_order() {
    assert!(name_le(&"a".to_string(), &"b".to_string()));
    assert!(name_le(&"a".to_string(), &"a".to_string()));
    assert!(name_le(&"".to_string(), &"a".to_string()));
    assert!(name_le(&"ab".to_string(), &"b".to_string()));
    assert!(!name_le(&"b".to_string(), &"ab".to_string()));
    assert!(!name_le(&"ab".to_string(), &"a".to_string()));
    assert!(name_le(&"Z".to_string(), &"a".to_string()));
}

#[test]
fn listing_order_does_not_change_fragment_order() {
    let first = fragment_names(&entries(&["z.lua", "m.lua", "a.lua", "x.txt"]));
    let second = fragment_names(&entries(&["a.lua", "x.txt", "z.lua", "m.lua"]));
    assert_eq!(first, second);
    assert_eq!(first, vec!["a.lua", "m.lua", "z.lua"]);
}
