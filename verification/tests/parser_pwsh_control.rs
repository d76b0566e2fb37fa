#![allow(unused_imports)]
use wenv::parser::pwsh::control::{count_control_end, count_control_start};

#[test]
fn pwsh_control_test_count_control_start_if() {
    assert_eq!(count_control_start("if ($true) {"), 1);
    assert_eq!(count_control_start("if($x)"), 1);
}

#[test]
fn pwsh_control_test_count_control_start_loops() {
    assert_eq!(count_control_start("foreach ($i in @(1,2,3)) {"), 1);
    assert_eq!(count_control_start("while ($true) {"), 1);
    assert_eq!(count_control_start("for ($i=0; $i -lt 10; $i++) {"), 1);
}

#[test]
fn test_count_control_start_switch() {
    assert_eq!(count_control_start("switch ($x) {"), 1);
}

#[test]
fn test_count_control_start_try() {
    assert_eq!(count_control_start("try {"), 1);
    assert_eq!(count_control_start("try{"), 1);
}

#[test]
fn test_count_control_end_simple() {
    assert_eq!(count_control_end("}"), 1);
}

#[test]
fn test_count_control_end_continuation() {
    assert_eq!(count_control_end("} else {"), 0);
    assert_eq!(count_control_end("} elseif ($x) {"), 0);
    assert_eq!(count_control_end("} catch {"), 0);
    assert_eq!(count_control_end("} finally {"), 0);
}

#[test]
fn pwsh_control_test_count_control_end_none() {
    assert_eq!(count_control_end("Write-Host 'hello'"), 0);
}
