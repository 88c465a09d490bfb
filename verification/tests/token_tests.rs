use locale_sync::tokens::Claims;
use locale_sync::tokens::TokenRecord;
use locale_sync::tokens::TOKEN_MAX_AGE;
use locale_sync::tokens::TOKEN_MIN_AGE;
use locale_sync::tokens::prune_expired;
use locale_sync::tokens::register_token;

#[test]
fn fresh_claims_hold_the_issue_windows() {
    let c = Claims::new();
    assert_eq!(c.exp, c.iat + TOKEN_MAX_AGE);
    assert_eq!(c.nbf, c.iat + TOKEN_MIN_AGE);
    assert_eq!(TOKEN_MIN_AGE, 5);
    assert_eq!(TOKEN_MAX_AGE, 43200);
}

#[test]
fn a_token_can_be_used_once_only() {
    let mut used: Vec<TokenRecord> = Vec::new();
    assert!(register_token(&mut used, 99, 1000));
    assert!(!register_token(&mut used, 99, 1001));
    assert!(register_token(&mut used, 100, 1001));
    assert_eq!(used.len(), 2);
}

#[test]
fn expired_records_stop_blocking_reuse() {
    let mut used: Vec<TokenRecord> = Vec::new();
    assert!(register_token(&mut used, 7, 1000));
    // Within the window the key id stays blocked.
    assert!(!register_token(&mut used, 7, 1000 + TOKEN_MAX_AGE - 1));
    // Once the window has passed, the record is pruned and reuse allowed.
    assert!(register_token(&mut used, 7, 1000 + TOKEN_MAX_AGE));
    assert_eq!(used.len(), 1);
}

#[test]
fn pruning_keeps_only_live_records_in_order() {
    let mut used = vec![
        TokenRecord { kid: 1, next_reset: 10 },
        TokenRecord { kid: 2, next_reset: 30 },
        TokenRecord { kid: 3, next_reset: 20 },
    ];
    prune_expired(&mut used, 15);
    assert_eq!(
        used,
        vec![
            TokenRecord { kid: 2, next_reset: 30 },
            TokenRecord { kid: 3, next_reset: 20 },
        ]
    );
}
