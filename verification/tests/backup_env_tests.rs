use showpath::backup::{backup_destination, backup_destination_now, plan_backup, BackupPlan};
use showpath::env_report::{env_line, home_config_path, lex_le_exec, sort_env_vars, EnvVar};

#[test]
fn backup_destination_appends_stamp_suffix() {
    let dest = backup_destination("/home/u/.zshrc", "20240101_000000");
    assert_eq!(dest, "/home/u/.zshrc.bak.20240101_000000");
}

#[test]
fn backup_destination_never_equals_source() {
    for source in ["", "/home/u/.zshrc", "x"] {
        for stamp in ["", "20240101_000000"] {
            assert_ne!(backup_destination(source, stamp), source);
        }
    }
}

#[test]
fn stamped_destination_extends_the_source_path() {
    let dest = backup_destination_now("/tmp/conf");
    assert!(dest.starts_with("/tmp/conf.bak."));
    assert_ne!(dest, "/tmp/conf");
}

#[test]
fn missing_source_plans_no_copy() {
    assert!(matches!(plan_backup(false, "/no/such/file"), BackupPlan::MissingSource));
}

#[test]
fn existing_source_plans_a_distinct_destination() {
    match plan_backup(true, "/home/u/.zshrc") {
        BackupPlan::CopyTo(dest) => {
            assert!(dest.starts_with("/home/u/.zshrc.bak."));
            assert_ne!(dest, "/home/u/.zshrc");
        }
        BackupPlan::MissingSource => panic!("an existing source must be copied"),
    }
}

#[test]
fn env_line_joins_name_and_value() {
    assert_eq!(env_line("HOME", "/home/alice"), "HOME=/home/alice");
    assert_eq!(env_line("EMPTY", ""), "EMPTY=");
}

#[test]
fn config_path_hangs_off_the_home_directory() {
    assert_eq!(home_config_path("/home/alice"), "/home/alice/.zshrc");
}

#[test]
fn lex_order_compares_code_points() {
    assert!(lex_le_exec("", ""));
    assert!(lex_le_exec("", "a"));
    assert!(!lex_le_exec("a", ""));
    assert!(lex_le_exec("abc", "abd"));
    assert!(!lex_le_exec("abd", "abc"));
    assert!(lex_le_exec("ab", "abc"));
    assert!(lex_le_exec("HOME", "PATH"));
}

#[test]
fn sorting_orders_variables_by_name() {
    let vars = vec![
        EnvVar { name: "PATH".to_string(), value: "/bin".to_string() },
        EnvVar { name: "HOME".to_string(), value: "/home/alice".to_string() },
        EnvVar { name: "LANG".to_string(), value: "C".to_string() },
    ];
    let sorted = sort_env_vars(vars);
    let names: Vec<&str> = sorted.iter().map(|v| v.name.as_str()).collect();
    assert_eq!(names, vec!["HOME", "LANG", "PATH"]);
    // the values travel with their names
    assert_eq!(sorted[0].value, "/home/alice");
    assert_eq!(sorted[2].value, "/bin");
}

#[test]
fn sorting_keeps_repeated_names() {
    let vars = vec![
        EnvVar { name: "B".to_string(), value: "2".to_string() },
        EnvVar { name: "A".to_string(), value: "1".to_string() },
        EnvVar { name: "B".to_string(), value: "3".to_string() },
    ];
    let sorted = sort_env_vars(vars);
    assert_eq!(sorted.len(), 3);
    assert_eq!(sorted[0].name, "A");
    assert_eq!(sorted[1].name, "B");
    assert_eq!(sorted[2].name, "B");
}
