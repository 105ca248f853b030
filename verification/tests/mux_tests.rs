use hotreload::mux::{parse_multiplexed_line, StreamKind};

#[test]
fn mux_parses_stdout_line() {
    let m = parse_multiplexed_line("123:stdout:hello world").unwrap();
    assert_eq!(m.pid, 123);
    assert_eq!(m.stream, StreamKind::Stdout);
    assert_eq!(m.content, "hello world");
}

#[test]
fn mux_parses_stderr_line_with_colons() {
    let m = parse_multiplexed_line("45:stderr:a:b:c").unwrap();
    assert_eq!(m.pid, 45);
    assert_eq!(m.stream, StreamKind::Stderr);
    assert_eq!(m.content, "a:b:c");
}

#[test]
fn mux_parses_empty_content() {
    let m = parse_multiplexed_line("7:stdout:").unwrap();
    assert_eq!(m.pid, 7);
    assert_eq!(m.content, "");
}

#[test]
fn mux_rejects_unwrapped_lines() {
    assert!(parse_multiplexed_line("plain output").is_none());
    assert!(parse_multiplexed_line("").is_none());
    assert!(parse_multiplexed_line(":stdout:x").is_none());
    assert!(parse_multiplexed_line("12:stdin:x").is_none());
    assert!(parse_multiplexed_line("12stdout:x").is_none());
    // Leading zeros are not the canonical envelope of any pid.
    assert!(parse_multiplexed_line("007:stdout:x").is_none());
    // A pid too large for the envelope.
    assert!(parse_multiplexed_line("99999999999:stdout:x").is_none());
}

#[test]
fn mux_parses_non_ascii_content() {
    let m = parse_multiplexed_line("88:stdout:ünïcode → ça va").unwrap();
    assert_eq!(m.pid, 88);
    assert_eq!(m.content, "ünïcode → ça va");
}
