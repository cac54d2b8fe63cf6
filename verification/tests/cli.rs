//! The command line.

use std::time::Duration;

use ahpcl::driver::cli::{parse, Command};
use ahpcl::driver::duration::format_duration;

#[test]
fn a_simple_build_parses() {
    let cmd = parse(&["task:build.", "buildfile:main.ahpcl."]).unwrap();
    assert_eq!(cmd.task.as_deref(), Some("build"));
    assert_eq!(cmd.buildfiles, vec!["main.ahpcl"]);
}

#[test]
fn only_the_last_dot_is_a_terminator() {
    let cmd = parse(&["buildfile:main.ahpcl."]).unwrap();
    assert_eq!(cmd.buildfiles, vec!["main.ahpcl"]);
}

#[test]
fn a_comma_extends_a_directive() {
    let cmd = parse(&["task:build.", "buildfile:main.ahpcl,", "lib.ahpcl,", "math.ahpcl."]).unwrap();
    assert_eq!(cmd.buildfiles, vec!["main.ahpcl", "lib.ahpcl", "math.ahpcl"]);
}

#[test]
fn a_path_with_spaces_survives_intact() {
    let cmd = parse(&[
        "task:build.",
        "to:/Users/ts/Advanced High-Performance Calculations Language (AHPCL)/build.",
    ])
    .unwrap();
    assert_eq!(
        cmd.to.as_deref(),
        Some("/Users/ts/Advanced High-Performance Calculations Language (AHPCL)/build")
    );
}

#[test]
fn flags_take_a_value() {
    let cmd = parse(&["task:build.", "flag:loop-evaluation=limit."]).unwrap();
    assert_eq!(cmd.flags.get("loop-evaluation").map(String::as_str), Some("limit"));
}

#[test]
fn an_unknown_directive_is_reported_helpfully() {
    let err = parse(&["nonsense:thing."]).unwrap_err();
    assert!(err.message.contains("nonsense:"));
    assert!(err.suggestion.contains("buildfile:"));
}

#[test]
fn a_bare_argument_with_no_directive_is_rejected() {
    let err = parse(&["main.ahpcl"]).unwrap_err();
    assert!(err.message.contains("not a directive"));
}

#[test]
fn a_flag_without_a_value_is_on() {
    let cmd = parse(&["flag: fast = yes .", "flag:quiet."]).unwrap();
    assert_eq!(cmd.flags.get("fast").map(String::as_str), Some("yes"));
    assert_eq!(cmd.flags.get("quiet").map(String::as_str), Some("on"));
    assert!(cmd.flags.get("loud").is_none());
}

#[test]
fn the_last_directive_of_a_kind_counts() {
    let cmd = parse(&["task:check.", "task:run.", "resultname:out.", ""]).unwrap();
    assert_eq!(cmd.task.as_deref(), Some("run"));
    assert_eq!(cmd.resultname.as_deref(), Some("out"));
    assert!(cmd.to.is_none());
    assert!(Command::default().buildfiles.is_empty());
}

#[test]
fn a_full_stop_ends_a_directive() {
    let err = parse(&["buildfile:main.ahpcl.", "lib.ahpcl."]).unwrap_err();
    assert_eq!(err.message, "'lib.ahpcl.' is not a directive.");
    assert!(parse(&["two words:x."]).is_err());
}

#[test]
fn durations_read_sensibly() {
    assert_eq!(format_duration(Duration::from_nanos(500).as_nanos()), "500ns");
    assert_eq!(format_duration(Duration::from_micros(1500).as_nanos()), "1.5ms");
    assert_eq!(format_duration(Duration::from_millis(1500).as_nanos()), "1.50s");
}

#[test]
fn durations_round_as_doubles_do() {
    let mut ns: u128 = 1;
    let mut seen = 0;
    while ns < 18446744073709551615999999999 {
        for n in [ns, ns + 49, ns / 50 * 50, ns / 50000 * 50000, ns / 5000000 * 5000000, ns * 2 - 1] {
            let shown = if n < 1_000 {
                format!("{n}ns")
            } else if n < 1_000_000 {
                format!("{:.1}µs", n as f64 / 1_000.0)
            } else if n < 1_000_000_000 {
                format!("{:.1}ms", n as f64 / 1_000_000.0)
            } else {
                format!("{:.2}s", n as f64 / 1_000_000_000.0)
            };
            assert_eq!(format_duration(n), shown, "{n}");
            seen += 1;
        }
        ns = ns * 101 / 100 + 37;
        if ns * 2 > 18446744073709551615999999999 {
            break;
        }
    }
    assert!(seen > 20000);
    for n in (1_050..1_000_000).step_by(100) {
        assert_eq!(format_duration(n), format!("{:.1}µs", n as f64 / 1_000.0), "{n}");
    }
}
