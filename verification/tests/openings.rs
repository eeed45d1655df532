use xiangqi::openings::{book_replies, identify};

#[test]
fn identifies_zhong_pao() {
    let seq: Vec<String> = vec!["h2e2".into()];
    assert_eq!(identify(&seq), Some("中炮局"));
    let seq: Vec<String> = vec!["h2e2".into(), "h9g7".into()];
    assert_eq!(identify(&seq), Some("中炮对屏风马"));
}

#[test]
fn book_gives_replies() {
    let seq: Vec<String> = vec!["h2e2".into()];
    let r = book_replies(&seq);
    assert!(r.contains(&"h9g7"));
    assert!(r.contains(&"h7e7"));
}
