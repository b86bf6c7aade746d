use psenv::envmap::EnvMap;
use psenv::resolve::{
    check_required, ignore_list, keys_to_fetch, parameter_name, preview_lines, record_lookup,
    valid_prefix, RunError,
};

fn strings(v: &[&str]) -> Vec<String> {
    v.iter().map(|s| s.to_string()).collect()
}

#[test]
fn ignore_list_trims_and_drops_empty() {
    assert_eq!(ignore_list(" A, B ,,C,"), strings(&["A", "B", "C"]));
    assert!(ignore_list("").is_empty());
    assert!(ignore_list(" , ").is_empty());
}

#[test]
fn ignored_keys_are_not_fetched() {
    let keys = strings(&["A", "B", "C"]);
    assert_eq!(keys_to_fetch(&keys, &strings(&["B", "X"])), strings(&["A", "C"]));
    assert_eq!(keys_to_fetch(&keys, &Vec::new()), keys);
}

#[test]
fn prefix_must_start_with_slash() {
    assert!(valid_prefix("/app/"));
    assert!(!valid_prefix("app/"));
    assert!(!valid_prefix(""));
    assert_eq!(parameter_name("/app/", "DB_HOST"), "/app/DB_HOST");
}

#[test]
fn lookups_are_recorded() {
    let mut values = EnvMap::new();
    let mut missing = Vec::new();
    record_lookup(&mut values, &mut missing, "A".to_string(), Some("1".to_string()));
    record_lookup(&mut values, &mut missing, "B".to_string(), None);
    assert_eq!(values.get("A"), Some("1".to_string()));
    assert_eq!(values.get("B"), None);
    assert_eq!(missing, strings(&["B"]));
}

#[test]
fn missing_keys_fail_only_when_required() {
    assert!(check_required(strings(&["B"]), false).is_ok());
    assert!(check_required(Vec::new(), true).is_ok());
    match check_required(strings(&["B", "C"]), true) {
        Err(RunError::MissingRequired(m)) => assert_eq!(m, strings(&["B", "C"])),
        other => panic!("unexpected {:?}", other),
    }
}

#[test]
fn preview_masks_sensitive_values() {
    let mut values = EnvMap::new();
    values.insert("PORT".to_string(), "3000".to_string());
    values.insert("API_KEY".to_string(), "sk_live".to_string());
    assert_eq!(
        preview_lines(&values, false),
        strings(&["API_KEY=****** (7 chars, hidden)", "PORT=3000"])
    );
    assert_eq!(preview_lines(&values, true), strings(&["API_KEY=sk_live", "PORT=3000"]));
}
