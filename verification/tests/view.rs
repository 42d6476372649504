use kowito_json::scanner::{TOKEN_COLON, TOKEN_LBRACE, TOKEN_QUOTE, TOKEN_RBRACE};
use kowito_json::KView;

#[test]
#[allow(clippy::identity_op)]
fn test_view_initialization() {
    let json = b"{\"key\":\"value\"}";
    let tape = vec![
        TOKEN_LBRACE | 0,
        TOKEN_QUOTE | 1,
        TOKEN_QUOTE | 5,
        TOKEN_COLON | 6,
        TOKEN_QUOTE | 7,
        TOKEN_QUOTE | 13,
        TOKEN_RBRACE | 14,
    ];
    let view = KView::new(json, &tape);

    assert_eq!(view.source.len(), 15);
    assert_eq!(view.tape.len(), 7);
}
