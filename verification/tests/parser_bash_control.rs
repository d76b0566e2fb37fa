#![allow(unused_imports)]
use wenv::parser::bash::control::{count_control_end, count_control_start};

#[test]
fn control_test_count_control_start_if() {
    assert_eq!(count_control_start("if [ -f file ]; then"), 1);
    assert_eq!(count_control_start("if"), 1);
}

#[test]
fn control_test_count_control_start_loops() {
    assert_eq!(count_control_start("while true; do"), 1);
    assert_eq!(count_control_start("for i in 1 2 3; do"), 1);
    assert_eq!(count_control_start("until false; do"), 1);
}

#[test]
fn test_count_control_start_case() {
    assert_eq!(count_control_start("case $x in"), 1);
}

#[test]
fn test_count_control_start_none() {
    assert_eq!(count_control_start("echo hello"), 0);
    assert_eq!(count_control_start("alias ll='ls -la'"), 0);
}

#[test]
fn test_count_control_end_fi() {
    assert_eq!(count_control_end("fi"), 1);
    assert_eq!(count_control_end("fi;"), 1);
}

#[test]
fn test_count_control_end_done() {
    assert_eq!(count_control_end("done"), 1);
    assert_eq!(count_control_end("done < file.txt"), 1);
}

#[test]
fn test_count_control_end_esac() {
    assert_eq!(count_control_end("esac"), 1);
}

#[test]
fn control_test_count_control_end_none() {
    assert_eq!(count_control_end("echo hello"), 0);
    assert_eq!(count_control_end("export PATH=value"), 0);
}

#[test]
fn closing_keyword_only_at_the_start_of_a_part() {
    assert_eq!(count_control_end("echo done"), 0);
    assert_eq!(count_control_end("if x; then y; fi"), 1);
    assert_eq!(count_control_end("while read l; do :; done < f"), 1);
}
