use locale_sync::models::DBRoomKeyAlias;
use locale_sync::models::FeedbackKeys;

#[test]
fn feedback_needs_both_secrets() {
    let complete = FeedbackKeys {
        github_token: Some("SECRET-REDACTED".to_string()),
        jwt_key: Some("SECRET-REDACTED".to_string()),
    };
    assert!(complete.able_to_process_feedback());

    let missing_jwt = FeedbackKeys {
        github_token: Some("SECRET-REDACTED".to_string()),
        jwt_key: None,
    };
    assert!(!missing_jwt.able_to_process_feedback());

    let missing_both = FeedbackKeys { github_token: None, jwt_key: None };
    assert!(!missing_both.able_to_process_feedback());
}

#[test]
fn alias_carries_its_fields() {
    let alias = DBRoomKeyAlias {
        key: "5602.EG.001".to_string(),
        visible_id: "MW 0001".to_string(),
        type_: "room".to_string(),
    };
    assert_eq!(alias.key, "5602.EG.001");
    assert_eq!(alias.visible_id, "MW 0001");
    assert_eq!(alias.type_, "room");
}
