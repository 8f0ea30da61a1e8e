use chester::link::{get_youtube_id, youtube_id_from_parts, LinkParts};

#[test]
fn short_links() {
    assert_eq!(get_youtube_id("https://youtu.be/dQw4w9WgXcQ"), Some("dQw4w9WgXcQ".to_string()));
    assert_eq!(get_youtube_id("https://youtu.be/abc?t=5"), Some("abc".to_string()));
}

#[test]
fn watch_links() {
    assert_eq!(
        get_youtube_id("https://www.youtube.com/watch?v=abc123&t=10"),
        Some("abc123".to_string())
    );
    assert_eq!(get_youtube_id("https://m.youtube.com/watch?list=x&v=q1"), Some("q1".to_string()));
}

#[test]
fn embed_links() {
    assert_eq!(get_youtube_id("https://youtube.com/embed/xyz789"), Some("xyz789".to_string()));
    assert_eq!(get_youtube_id("https://youtube.com/embed"), None);
}

#[test]
fn links_without_video() {
    assert_eq!(get_youtube_id("https://example.com/watch?v=1"), None);
    assert_eq!(get_youtube_id("not a url"), None);
    assert_eq!(get_youtube_id("https://m.youtube.com/watch?feature=share"), None);
}

#[test]
fn id_from_parts() {
    let parts = LinkParts {
        host: Some("www.youtube.com".to_string()),
        segments: Some(vec!["embed".to_string(), "id9".to_string()]),
        query: vec![("list".to_string(), "L".to_string())],
    };
    assert_eq!(youtube_id_from_parts(&parts), Some("id9".to_string()));
    let parts = LinkParts { host: None, segments: None, query: Vec::new() };
    assert_eq!(youtube_id_from_parts(&parts), None);
}
