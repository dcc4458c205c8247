use zuffy::error::{Error, ErrorCode, MaybeOwned};

#[test]
fn test_no_desc() {
    let mut err = Error::new(ErrorCode::InternalServerError);
    assert_eq!(err.code(), ErrorCode::InternalServerError);
    assert_eq!(err.desc(), "");
}

#[test]
fn test_slice_desc() {
    let mut err = Error::with_desc(ErrorCode::DeadlineExceeded, "failwhale");
    assert_eq!(err.code(), ErrorCode::DeadlineExceeded);
    assert_eq!(err.desc(), "failwhale");
}

#[test]
fn test_string_desc() {
    let mut err = Error::with_desc(ErrorCode::InternalServerError, "failboat".to_string());
    assert_eq!(err.code(), ErrorCode::InternalServerError);
    assert_eq!(err.desc(), "failboat");
}

#[test]
fn test_lazy_slice_desc() {
    let mut err = Error::with_lazy_desc(ErrorCode::InternalServerError, || "failboat");
    assert_eq!(err.code(), ErrorCode::InternalServerError);
    assert_eq!(err.desc(), "failboat");
}

#[test]
fn test_lazy_string_desc() {
    let mut err =
        Error::with_lazy_desc(ErrorCode::InternalServerError, || "failboat".to_string());
    assert_eq!(err.code(), ErrorCode::InternalServerError);
    assert_eq!(err.desc(), "failboat");
}

#[test]
fn network_error_keeps_its_code() {
    let mut err = Error::with_desc(ErrorCode::NetworkError, MaybeOwned::Slice("down"));
    assert_eq!(err.code(), ErrorCode::NetworkError);
    assert_ne!(err.code(), ErrorCode::DeadlineExceeded);
    assert_eq!(err.desc(), "down");
    assert_eq!(err.code(), ErrorCode::NetworkError);
}

#[test]
fn lazy_desc_is_computed_once() {
    let calls = std::rc::Rc::new(std::cell::Cell::new(0u32));
    let counter = calls.clone();
    let mut err = Error::with_lazy_desc(ErrorCode::NetworkError, move || {
        counter.set(counter.get() + 1);
        format!("{} {}", "late", 1)
    });
    assert_eq!(calls.get(), 0);
    assert_eq!(err.desc(), "late 1");
    assert_eq!(err.desc(), "late 1");
    assert_eq!(calls.get(), 1);
}

#[test]
fn maybe_owned_gives_its_characters() {
    assert_eq!(MaybeOwned::Slice("abc").as_slice(), "abc");
    assert_eq!(MaybeOwned::Owned("xyz".to_string()).as_slice(), "xyz");
}
