use tfil::wrapper::{choose_target, is_wrapper, may_write, reach, wrapper_script, Candidate, Reach};

const SELF: Candidate = Candidate { is_self: true, is_wrapper: true };
const WRAPPER: Candidate = Candidate { is_self: false, is_wrapper: true };
const COMMAND: Candidate = Candidate { is_self: false, is_wrapper: false };

#[test]
fn script_quotes_options_and_arguments() {
    assert_eq!(
        wrapper_script(&[], &[]),
        b"#!/bin/sh\n# tfil-wrapper\nexec tfil --wrap=\"$0\" -- \"$@\"\n"
    );
    assert_eq!(
        wrapper_script(&[b"--codex-mouse-ui".to_vec()], &[b"it's".to_vec(), Vec::new()]),
        b"#!/bin/sh\n# tfil-wrapper\nexec tfil --wrap=\"$0\" '--codex-mouse-ui' -- 'it'\\''s' '' \"$@\"\n"
    );
}

#[test]
fn marker_line_makes_a_wrapper() {
    assert!(is_wrapper(&wrapper_script(&[b"# x".to_vec()], &[])));
    assert!(is_wrapper(b"# tfil-wrapper"));
    assert!(is_wrapper(b"#!/bin/sh\n# tfil-wrapper\nexec tfil\n"));
    assert!(!is_wrapper(b"#!/bin/sh\n# tfil-wrapper of mine\n"));
    assert!(!is_wrapper(b"echo # tfil-wrapper\n"));
    assert!(!is_wrapper(b""));
}

#[test]
fn only_wrappers_are_overwritten_without_force() {
    assert!(may_write(None, false));
    assert!(may_write(Some(true), false));
    assert!(!may_write(Some(false), false));
    assert!(may_write(Some(false), true));
}

#[test]
fn wrappers_run_the_next_command_and_never_a_wrapper() {
    assert_eq!(choose_target(&[SELF, COMMAND]), Some(1));
    // Another program's wrapper in front of this one is not run again.
    assert_eq!(choose_target(&[COMMAND, SELF, COMMAND]), Some(2));
    assert_eq!(choose_target(&[SELF, COMMAND, COMMAND]), Some(1));
    assert_eq!(choose_target(&[SELF, WRAPPER, COMMAND]), Some(2));
    assert_eq!(choose_target(&[COMMAND, SELF, WRAPPER]), Some(0));
    assert_eq!(choose_target(&[WRAPPER, COMMAND]), Some(1));
    assert_eq!(choose_target(&[WRAPPER, SELF]), None);
    assert_eq!(choose_target(&[]), None);
}

#[test]
fn reach_tells_shadowed_from_unreachable() {
    assert_eq!(reach(&[true, false]), Reach::Reachable);
    assert_eq!(reach(&[false, true]), Reach::Shadowed);
    assert_eq!(reach(&[false]), Reach::Unreachable);
    assert_eq!(reach(&[]), Reach::Unreachable);
}
