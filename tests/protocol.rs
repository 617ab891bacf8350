use coderag::{default_crawl_mode, default_focus, default_limit, default_max_pages, McpError};

#[test]
fn error_codes_follow_json_rpc() {
    let cases = [
        (McpError::Parse("p".to_string()), -32700),
        (McpError::InvalidRequest("r".to_string()), -32600),
        (McpError::MethodNotFound("invalid/method".to_string()), -32601),
        (McpError::InvalidParams("x".to_string()), -32602),
        (McpError::Internal("i".to_string()), -32603),
    ];
    for (e, code) in cases {
        let r = e.to_error_response();
        assert_eq!(r.code, code);
    }
    assert_eq!(McpError::MethodNotFound("invalid/method".to_string()).to_error_response().message, "invalid/method");
}

#[test]
fn request_defaults() {
    assert_eq!(default_limit(), 5);
    assert_eq!(default_crawl_mode(), "single");
    assert_eq!(default_focus(), "all");
    assert_eq!(default_max_pages(), 100);
}
