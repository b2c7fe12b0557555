use dmntk_core::tck::TckResultDto;

#[test]
fn data_result_has_no_errors() {
    let r: TckResultDto<i32> = TckResultDto::data(5);
    assert_eq!(r.data, Some(5));
    assert!(r.errors.is_empty());
}

#[test]
fn error_result_holds_one_detail() {
    let r: TckResultDto<i32> = TckResultDto::error("missing attribute: input".to_string());
    assert!(r.data.is_none());
    assert_eq!(r.errors.len(), 1);
    assert_eq!(r.errors[0].detail, "missing attribute: input");
}
