use rsspec::config::{clamp_parallelism, eq_ignore_ascii_case, fail_on_focus_value, parse_usize_str, resolve_parallelism};
use rsspec::runner::RunConfig;
use rsspec::session::run_config;

fn args(strs: &[&str]) -> Vec<String> {
    strs.iter().map(|s| s.to_string()).collect()
}

#[test]
fn from_args_reads_flags_and_the_path_filter() {
    let c = RunConfig::from_args(&args(&["prog", "--list", "--ignored", "math"]), None, 4);
    assert!(c.list);
    assert!(c.include_ignored);
    assert_eq!(c.filter, Some("math".to_string()));
    assert_eq!(c.parallelism, 1);
    assert_eq!(c.label_filter, None);
    assert!(!c.fail_on_focus);
}

#[test]
fn from_args_skips_the_program_name_and_keeps_the_last_filter() {
    let c = RunConfig::from_args(&args(&["first", "a", "b", "--unknown"]), None, 4);
    assert_eq!(c.filter, Some("b".to_string()));
    assert!(!c.list);
}

#[test]
fn from_args_parallel_takes_a_spec_or_means_auto() {
    assert_eq!(RunConfig::from_args(&args(&["p", "--parallel", "3"]), None, 8).parallelism, 3);
    let c = RunConfig::from_args(&args(&["p", "--parallel", "math"]), None, 8);
    assert_eq!(c.parallelism, 8);
    assert_eq!(c.filter, Some("math".to_string()));
    assert_eq!(RunConfig::from_args(&args(&["p", "--parallel=2"]), None, 8).parallelism, 2);
    assert_eq!(RunConfig::from_args(&args(&["p", "--parallel=bogus"]), None, 8).parallelism, 1);
}

#[test]
fn from_args_environment_parallelism_applies_without_a_flag() {
    assert_eq!(RunConfig::from_args(&args(&["p"]), Some("6"), 8).parallelism, 6);
    assert_eq!(RunConfig::from_args(&args(&["p"]), Some(""), 8).parallelism, 1);
    assert_eq!(RunConfig::from_args(&args(&["p", "--parallel=2"]), Some("6"), 8).parallelism, 2);
}

#[test]
fn from_args_reads_the_label_filter_flag() {
    let c = RunConfig::from_args(&args(&["p", "--label-filter", "lang:* && !pg:slow"]), None, 1);
    assert_eq!(c.label_filter, Some("lang:* && !pg:slow".to_string()));
    assert_eq!(c.filter, None);
    let d = RunConfig::from_args(&args(&["p", "--label-filter=fast"]), None, 1);
    assert_eq!(d.label_filter, Some("fast".to_string()));
}

#[test]
fn run_config_inside_a_test_harness_ignores_the_command_line() {
    let (c, in_harness) = run_config(&args(&["p", "--test-threads=1", "math"]), None, Some("x"), Some("1"), 4);
    assert!(in_harness);
    assert_eq!(c.filter, None);
    assert_eq!(c.label_filter, None);
    assert_eq!(c.parallelism, 1);
    assert!(c.fail_on_focus);
}

#[test]
fn run_config_standalone_takes_the_label_filter_from_the_flag_over_the_environment() {
    let (c, in_harness) = run_config(&args(&["p", "--label-filter=a"]), None, Some("b"), None, 4);
    assert!(!in_harness);
    assert_eq!(c.label_filter, Some("a".to_string()));
    let (d, _) = run_config(&args(&["p"]), None, Some("b"), Some("TRUE"), 4);
    assert_eq!(d.label_filter, Some("b".to_string()));
    assert!(d.fail_on_focus);
}

#[test]
fn focus_guard_variable_values() {
    assert!(fail_on_focus_value(Some("1")));
    assert!(fail_on_focus_value(Some("True")));
    assert!(!fail_on_focus_value(Some("yes")));
    assert!(!fail_on_focus_value(Some("0")));
    assert!(!fail_on_focus_value(None));
}

#[test]
fn ascii_case_folding_and_integer_parsing() {
    assert!(eq_ignore_ascii_case("AUTO", "auto"));
    assert!(!eq_ignore_ascii_case("autos", "auto"));
    assert_eq!(parse_usize_str("+17"), Some(17));
    assert_eq!(parse_usize_str("1_0"), None);
    assert_eq!(parse_usize_str("18446744073709551615"), Some(usize::MAX));
    assert_eq!(parse_usize_str("18446744073709551616"), None);
    assert_eq!(clamp_parallelism(0), 1);
    assert_eq!(clamp_parallelism(5), 5);
    assert_eq!(resolve_parallelism(None, Some("auto"), 12), 12);
    assert_eq!(resolve_parallelism(Some("x"), Some("4"), 12), 1);
}
