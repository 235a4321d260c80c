use thread_safe_var::thread_local::{c_err_to_res, displaced};

#[test]
fn zero_is_success() {
    assert_eq!(Ok(()), c_err_to_res(0));
    assert_eq!(Err(22), c_err_to_res(22));
    assert_eq!(Err(-1), c_err_to_res(-1));
}

#[test]
fn old_value_is_released_on_success_only() {
    assert_eq!(Ok(Some("old")), displaced(0, Some("old")));
    assert_eq!(Ok(None), displaced::<&str>(0, None));
    assert_eq!(Err(12), displaced(12, Some("old")));
    assert_eq!(Err(12), displaced::<&str>(12, None));
}
