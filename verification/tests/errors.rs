use whisper_ct2::errors::{failure, invalid_request, kind_from_chain, runtime_error, NativeError};

#[test]
fn kind_from_chain_returns_categorized_kind() {
    let err = invalid_request("bad lang".to_owned());
    assert_eq!(kind_from_chain(&err), Some("invalid_request"));

    let err = runtime_error("oops".to_owned());
    assert_eq!(kind_from_chain(&err), Some("runtime_error"));
}

#[test]
fn kind_from_chain_walks_context() {
    let err = invalid_request("bad lang".to_owned()).context("while building chunks".to_owned());
    assert_eq!(kind_from_chain(&err), Some("invalid_request"));
}

#[test]
fn kind_from_chain_returns_none_for_uncategorised() {
    let err = failure("plain anyhow error".to_owned());
    assert_eq!(kind_from_chain(&err), None);
}

#[test]
fn messages_of_a_chain_are_joined_from_the_outside_in() {
    let err = failure("inner".to_owned())
        .context("middle".to_owned())
        .context("outer".to_owned());
    assert_eq!(err.message(), "outer: middle: inner");
}

#[test]
fn an_error_without_a_category_is_an_inference_error() {
    let report = NativeError::from_error(&failure("no decoder".to_owned()));
    assert_eq!(report.reason(), "inference_error");
    assert_eq!(report.message(), "no decoder");
    assert!(report.into_details().is_empty());
}

#[test]
fn an_error_with_a_category_is_reported_under_it() {
    let err = runtime_error("lost".to_owned()).context("reading".to_owned());
    let report = NativeError::from_error(&err);
    assert_eq!(report.reason(), "runtime_error");
    assert_eq!(report.message(), "reading: lost");
}

#[test]
fn a_detail_is_replaced_when_it_is_set_again() {
    let report = NativeError::new("load_error", "x".to_owned())
        .with_detail("path", "a".to_owned())
        .with_detail("device", "cpu".to_owned())
        .with_detail("path", "b".to_owned());
    assert_eq!(report.detail("path"), Some("b"));
    assert_eq!(report.detail("device"), Some("cpu"));
    assert_eq!(report.detail("reason"), None);
    let details = report.into_details();
    assert_eq!(details.len(), 2);
}
