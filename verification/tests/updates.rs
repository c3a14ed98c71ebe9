use dsopt::cli::{update_greeting, update_report_text};
use dsopt::update::{
    choose_version, compare_versions, current_version, finish_update, install_latest, is_newer,
    latest_version, parse_version, run, user_agent, version_in_answer, CommandOutcome,
    UpdateOutcome, UpdateStep, CRATE_API,
};
use std::cmp::Ordering;

#[test]
fn parses_release_and_pre_release_versions() {
    assert_eq!(parse_version("0.1.0"), Some((0, 1, 0)));
    assert_eq!(parse_version("v1.2.3"), Some((1, 2, 3)));
    assert_eq!(parse_version("1.2.3-rc.1"), Some((1, 2, 3)));
    assert_eq!(parse_version("2"), Some((2, 0, 0)));
    assert_eq!(parse_version("nonsense"), None);
}

#[test]
fn detects_newer_versions() {
    assert!(is_newer("0.1.1", "0.1.0"));
    assert!(is_newer("0.2.0", "0.1.9"));
    assert!(is_newer("1.0.0", "0.9.9"));
    assert!(!is_newer("0.1.0", "0.1.0"));
    assert!(!is_newer("0.0.9", "0.1.0"));
}

#[test]
fn compares_unparseable_versions_as_equal() {
    assert_eq!(compare_versions("garbage", "0.1.0"), Ordering::Equal);
}

#[test]
fn compares_versions_number_by_number() {
    assert_eq!(compare_versions("0.10.0", "0.9.0"), Ordering::Greater);
    assert_eq!(compare_versions("0.9.0", "0.10.0"), Ordering::Less);
    assert_eq!(compare_versions("v1.0.0-beta", " 1.0 "), Ordering::Equal);
}

fn plain_parse(text: &str) -> Option<(u64, u64, u64)> {
    let core = text.trim().trim_start_matches('v');
    let core = core.split(['-', '+']).next()?;
    let mut parts = core.split('.');
    let major = parts.next()?.parse().ok()?;
    let minor = parts.next().unwrap_or("0").parse().ok()?;
    let patch = parts.next().unwrap_or("0").parse().ok()?;
    Some((major, minor, patch))
}

#[test]
fn parses_odd_versions() {
    for text in [
        "", " ", "v", "vv1", "1.", "1..2", ".1", "1.2.3.4", "1.2.x", "1.2.3.x", "1+2", "+1", "-1",
        "1.2.3+build-7", "  v3.4 ", "v v1", "18446744073709551615.0.0", "18446744073709551616", "1. 2",
        "\u{a0}1.2.3\u{3000}", "1-2-3", "1.-2",
    ] {
        assert_eq!(parse_version(text), plain_parse(text), "{:?}", text);
    }
}

#[test]
fn a_suffix_or_a_leading_v_does_not_count() {
    assert_eq!(parse_version("1.2.3"), parse_version("1.2.3-alpha.9"));
    assert_eq!(parse_version("1.2.3"), parse_version("1.2.3+20240101"));
    assert_eq!(parse_version("1.2.3"), parse_version("vvv1.2.3"));
    assert_eq!(parse_version("1.2.3"), parse_version(" \t1.2.3\u{a0}\n"));
}

#[test]
fn newer_is_an_order_on_concrete_versions() {
    let versions = ["0.1.0", "0.1.1", "0.2.0", "1.0.0", "1.0.10"];
    for (i, left) in versions.iter().enumerate() {
        for (j, right) in versions.iter().enumerate() {
            assert_eq!(is_newer(left, right), i > j);
        }
    }
}

#[test]
fn identifies_itself() {
    assert_eq!(current_version(), "0.1.0");
    assert_eq!(user_agent(), "dsopt/0.1.0");
    assert_eq!(CRATE_API, "https://crates.io/api/v1/crates/dsopt");
    assert_eq!(update_greeting(), "dsopt 0.1.0 · checking crates.io for updates...");
}

#[test]
fn reads_the_newest_stable_version() {
    let body = br#"{"crate":{"max_stable_version":"1.2.3","max_version":"2.0.0-rc.1"}}"#;
    assert_eq!(version_in_answer(body), Ok("1.2.3".to_owned()));
}

#[test]
fn falls_back_to_the_newest_version_of_all() {
    let body = br#"{"crate":{"max_stable_version":null,"max_version":"2.0.0-rc.1"}}"#;
    assert_eq!(version_in_answer(body), Ok("2.0.0-rc.1".to_owned()));
    let body = br#"{"crate":{"max_stable_version":7,"max_version":"0.0.1"}}"#;
    assert_eq!(version_in_answer(body), Ok("0.0.1".to_owned()));
}

#[test]
fn reports_an_answer_without_a_version() {
    let missing = Err("crates.io response did not include a version".to_owned());
    for body in [
        "{}",
        "[]",
        "null",
        "\"text\"",
        r#"{"crate":"dsopt"}"#,
        r#"{"crate":{"max_version":null}}"#,
        r#"{"max_version":"1.0.0"}"#,
    ] {
        assert_eq!(version_in_answer(body.as_bytes()), missing, "{}", body);
    }
}

#[test]
fn reports_an_answer_that_is_not_json() {
    let message = version_in_answer(b"<html>").err().unwrap();
    assert_eq!(message, "unexpected crates.io response: expected value at line 1 column 1");
    let message = version_in_answer(b"").err().unwrap();
    assert_eq!(
        message,
        "unexpected crates.io response: EOF while parsing a value at line 1 column 0"
    );
    assert!(version_in_answer(b"{} {}").is_err());
}

#[test]
fn picks_the_stable_version_first() {
    assert_eq!(choose_version(Some("1"), Some("2")), Ok("1".to_owned()));
    assert_eq!(choose_version(None, Some("2")), Ok("2".to_owned()));
    assert!(choose_version(None, None).is_err());
}

#[test]
fn takes_the_version_from_the_lookup() {
    let exited = |success: bool, output: &[u8]| CommandOutcome::Exited {
        success,
        status: "exit status: 22".to_owned(),
        output: output.to_vec(),
    };
    assert_eq!(
        latest_version(exited(true, br#"{"crate":{"max_version":"0.3.0"}}"#)),
        Ok("0.3.0".to_owned())
    );
    assert_eq!(
        latest_version(exited(false, br#"{"crate":{"max_version":"0.3.0"}}"#)),
        Err("crates.io lookup failed (exit status: 22); check your network connection".to_owned())
    );
    assert_eq!(
        latest_version(CommandOutcome::NotStarted("not found".to_owned())),
        Err("could not run curl: not found".to_owned())
    );
}

#[test]
fn takes_the_outcome_of_the_installation() {
    let exited = |success: bool| CommandOutcome::Exited {
        success,
        status: "exit status: 101".to_owned(),
        output: vec![],
    };
    assert_eq!(install_latest(exited(true)), Ok(()));
    assert_eq!(
        install_latest(exited(false)),
        Err("cargo install exited with exit status: 101".to_owned())
    );
    assert_eq!(
        install_latest(CommandOutcome::NotStarted("not found".to_owned())),
        Err("could not run cargo: not found. Install Rust from https://rustup.rs".to_owned())
    );
}

#[test]
fn installs_only_a_newer_release_unless_forced() {
    match run(false, Ok("0.1.0".to_owned())) {
        UpdateStep::Finished(Ok(outcome)) => assert_eq!(
            outcome,
            UpdateOutcome::AlreadyLatest { current: "0.1.0".to_owned(), latest: "0.1.0".to_owned() }
        ),
        _ => panic!("nothing was to be installed"),
    }
    match run(false, Ok("0.1.1".to_owned())) {
        UpdateStep::Install { from, to } => assert_eq!((from, to), ("0.1.0".to_owned(), "0.1.1".to_owned())),
        _ => panic!("the newer release was to be installed"),
    }
    match run(true, Ok("0.0.9".to_owned())) {
        UpdateStep::Install { from, to } => assert_eq!((from, to), ("0.1.0".to_owned(), "0.0.9".to_owned())),
        _ => panic!("a forced update was to be installed"),
    }
    match run(true, Err("offline".to_owned())) {
        UpdateStep::Finished(Err(message)) => assert_eq!(message, "offline"),
        _ => panic!("the lookup had failed"),
    }
}

#[test]
fn ends_an_update() {
    assert_eq!(
        finish_update("0.1.0".to_owned(), "0.2.0".to_owned(), Ok(())),
        Ok(UpdateOutcome::Updated { from: "0.1.0".to_owned(), to: "0.2.0".to_owned() })
    );
    assert_eq!(
        finish_update("0.1.0".to_owned(), "0.2.0".to_owned(), Err("failed".to_owned())),
        Err("failed".to_owned())
    );
}

#[test]
fn reports_what_an_update_did() {
    assert_eq!(
        update_report_text(&Ok(UpdateOutcome::AlreadyLatest {
            current: "0.1.0".to_owned(),
            latest: "0.1.0".to_owned()
        })),
        "dsopt 0.1.0 is already the newest release (latest: 0.1.0)."
    );
    assert_eq!(
        update_report_text(&Ok(UpdateOutcome::Updated {
            from: "0.1.0".to_owned(),
            to: "0.2.0".to_owned()
        })),
        "Updated dsopt 0.1.0 -> 0.2.0. Run `dsopt --version` to confirm."
    );
    assert_eq!(update_report_text(&Err("offline".to_owned())), "error: offline");
}
