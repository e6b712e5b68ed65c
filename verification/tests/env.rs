use mik_sdk::env::{all, bool, get, get_or, EnvCache};

fn mock_env() -> Vec<(String, String)> {
    vec![
        ("PORT".to_string(), "3000".to_string()),
        ("HOST".to_string(), "localhost".to_string()),
        ("DEBUG".to_string(), "true".to_string()),
        ("VERBOSE".to_string(), "1".to_string()),
        ("QUIET".to_string(), "yes".to_string()),
        ("ENABLED".to_string(), "false".to_string()),
    ]
}

#[test]
fn test_get() {
    let env = mock_env();
    assert_eq!(get(&env, "PORT"), Some("3000".to_string()));
    assert_eq!(get(&env, "HOST"), Some("localhost".to_string()));
    assert_eq!(get(&env, "NONEXISTENT"), None);
}

#[test]
fn test_get_or() {
    let env = mock_env();
    assert_eq!(get_or(&env, "PORT", "8080"), "3000");
    assert_eq!(get_or(&env, "NONEXISTENT", "default"), "default");
}

#[test]
fn test_bool() {
    let env = mock_env();
    assert!(bool(&env, "DEBUG", false));
    assert!(bool(&env, "VERBOSE", false));
    assert!(bool(&env, "QUIET", false));
    assert!(!bool(&env, "ENABLED", true));
    assert!(!bool(&env, "NONEXISTENT", false));
    assert!(bool(&env, "NONEXISTENT", true));
}

#[test]
fn test_bool_case_insensitive() {
    let env = vec![
        ("TRUE_UPPER".to_string(), "TRUE".to_string()),
        ("TRUE_LOWER".to_string(), "true".to_string()),
        ("TRUE_MIXED".to_string(), "TrUe".to_string()),
        ("YES_UPPER".to_string(), "YES".to_string()),
        ("ONE".to_string(), "1".to_string()),
    ];

    assert!(bool(&env, "TRUE_UPPER", false));
    assert!(bool(&env, "TRUE_LOWER", false));
    assert!(bool(&env, "TRUE_MIXED", false));
    assert!(bool(&env, "YES_UPPER", false));
    assert!(bool(&env, "ONE", false));
}

#[test]
fn test_all() {
    let env = mock_env();
    let all_vars = all(&env);
    assert_eq!(all_vars.len(), 6);
    assert!(all_vars.contains(&("PORT".to_string(), "3000".to_string())));
    assert!(all_vars.contains(&("DEBUG".to_string(), "true".to_string())));
}

#[test]
fn test_env_cache() {
    let cache = EnvCache::new(mock_env());

    assert_eq!(cache.get("PORT"), Some("3000".to_string()));
    assert_eq!(cache.get_or("PORT", "8080"), "3000");
    assert_eq!(cache.get_or("NONEXISTENT", "default"), "default");
    assert!(cache.bool("DEBUG", false));
    assert!(!cache.bool("NONEXISTENT", false));
    assert_eq!(cache.all().len(), 6);
}

#[test]
fn test_bool_other_values_are_false() {
    let env = vec![
        ("A".to_string(), "on".to_string()),
        ("B".to_string(), "0".to_string()),
        ("C".to_string(), "".to_string()),
        ("D".to_string(), " true".to_string()),
        ("E".to_string(), "yEs".to_string()),
    ];
    assert!(!bool(&env, "A", true));
    assert!(!bool(&env, "B", true));
    assert!(!bool(&env, "C", true));
    assert!(!bool(&env, "D", true));
    assert!(bool(&env, "E", false));
}

#[test]
fn test_first_pair_wins_for_get_last_for_cache() {
    let env = vec![
        ("KEY".to_string(), "first".to_string()),
        ("KEY".to_string(), "second".to_string()),
    ];
    assert_eq!(get(&env, "KEY"), Some("first".to_string()));
    let cache = EnvCache::new(env);
    assert_eq!(cache.get("KEY"), Some("second".to_string()));
    assert_eq!(cache.get_or("KEY", "x"), "second");
}

#[test]
fn test_names_are_case_sensitive() {
    let env = mock_env();
    assert_eq!(get(&env, "port"), None);
    assert_eq!(get_or(&env, "Port", "none"), "none");
}
