use cal_core::read_refusal::ReadRefusal;

#[test]
fn the_token_is_the_serialized_name() {
    assert_eq!(ReadRefusal::TokenRefused.token(), "token-refused");
    assert_eq!(
        ReadRefusal::TokenRefused.message("users search (projects)"),
        "token-refused: users search (projects)"
    );
}
