//! The pattern-compiler tests: anchor forcing and all-or-nothing
//! compilation.

use crossandra::error::ScanError;
use crossandra::patterns::{compile, force_start_anchor, prepare};

#[test]
fn compile_ok() {
    let patterns = [("foo", "".into()), ("bar", r"\d+".into())];
    assert!(compile(&patterns).is_ok());
}

#[test]
fn compile_err() {
    let patterns = [("foo", String::new()), ("bar", r"+".into())];
    assert!(matches!(compile(&patterns), Err(ScanError::InvalidRegex(_, _))));
}

#[test]
fn adjust() {
    let tests = [
        ("", "^(?:)"),
        (r"\d+", r"^(?:\d+)"),
        (r"^\d+", r"^(?:\d+)"),
        (r"x|^y", r"^(?:x|y)"),
        (r"^x|^y", r"^(?:x|y)"),
        (r"^x|\^y", r"^(?:x|\^y)"),
        (r"ba[^rz]", r"^(?:ba[^rz])"),
        (r"^\^^[^]^", r"^(?:\^[^])"),
    ];
    for (inp, out) in tests {
        assert_eq!(force_start_anchor(inp), out);
    }
}

#[test]
fn prepare_ok() {
    let Ok(patterns) = prepare(&[("digit", "[0-9]")]) else {
        panic!("prepare returned an Err")
    };
    match &patterns[..] {
        [(name, pat)] => {
            assert_eq!(*name, "digit");
            assert_eq!(pat.as_str(), "^(?:[0-9])");
        }
        _ => panic!("prepare returned a vec of length != 1"),
    };
}

#[test]
fn invalid_regex_names_offender() {
    match compile(&[("good", "a".into()), ("bad", "+".into()), ("worse", "[".into())]) {
        Err(ScanError::InvalidRegex(name, _)) => assert_eq!(name, "bad"),
        other => panic!("expected the first rejected pattern, got {other:?}"),
    }
    match prepare(&[("digit", "[0-9]"), ("open", "[")]) {
        Err(ScanError::InvalidRegex(name, _)) => assert_eq!(name, "open"),
        other => panic!("expected the first rejected pattern, got {other:?}"),
    }
}

#[test]
fn prepare_err() {
    assert!(prepare(&[("digit", "[0-9")]).is_err());
    assert!(prepare(&[("digit", "[0-9]"), ("digit", "[0-9]")]).is_ok());
}
