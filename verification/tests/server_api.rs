use byoshell::engine::ExecutionResult;
use byoshell::server::{
    content_length, parse_header_line, parse_request_line, client_identifier, escape_json, extract_json_string_field, is_authorized, parse_env_u64,
    parse_env_usize, parse_execute_request, render_execute_response, route_request, Headers,
    RateLimiter, Response, Route, ServerSecurity,
};

const SECOND: u64 = 1_000_000_000;

fn headers(pairs: &[(&str, &str)]) -> Headers {
    let mut h = Headers::new();
    for (k, v) in pairs {
        h.insert(k.to_string(), v.to_string());
    }
    h
}

#[test]
fn bearer_auth_is_accepted() {
    let mut headers = Headers::new();
    headers.insert("authorization".to_string(), "Bearer secret-key".to_string());

    assert!(is_authorized(&headers, "secret-key"));
}

#[test]
fn x_api_key_auth_is_accepted() {
    let mut headers = Headers::new();
    headers.insert("x-api-key".to_string(), "secret-key".to_string());

    assert!(is_authorized(&headers, "secret-key"));
}

#[test]
fn rate_limiter_blocks_after_limit() {
    let mut limiter = RateLimiter::new(2, 60 * SECOND);
    let now = 1_000 * SECOND;

    assert!(limiter.allow_at("client-1", now));
    assert!(limiter.allow_at("client-1", now + SECOND));
    assert!(!limiter.allow_at("client-1", now + 2 * SECOND));
    assert!(limiter.allow_at("client-1", now + 61 * SECOND));
}

#[test]
fn wrong_or_missing_key_is_refused() {
    assert!(!is_authorized(&headers(&[]), "secret-key"));
    assert!(!is_authorized(&headers(&[("authorization", "Bearer other")]), "secret-key"));
    assert!(!is_authorized(&headers(&[("x-api-key", "other")]), "secret-key"));
    assert!(!is_authorized(&headers(&[("authorization", "Basic secret-key")]), "secret-key"));
}

#[test]
fn bearer_scheme_is_case_insensitive_and_token_trimmed() {
    assert!(is_authorized(&headers(&[("authorization", "bearer   secret-key  ")]), "secret-key"));
    assert!(is_authorized(&headers(&[("authorization", "BEARER secret-key")]), "secret-key"));
    assert!(!is_authorized(&headers(&[("authorization", " Bearer secret-key")]), "secret-key"));
    assert!(!is_authorized(&headers(&[("x-api-key", " secret-key ")]), "secret-key"));
}

#[test]
fn rate_limiter_counts_clients_apart() {
    let mut limiter = RateLimiter::new(1, 10 * SECOND);
    let now = 500 * SECOND;
    assert!(limiter.allow_at("a", now));
    assert!(limiter.allow_at("b", now));
    assert!(!limiter.allow_at("a", now + SECOND));
    assert!(limiter.allow_at("a", now + 10 * SECOND));
}

#[test]
fn rate_limiter_with_clock_accepts_first_request() {
    let mut limiter = RateLimiter::new(1, 60 * SECOND);
    assert!(limiter.allow("someone"));
    assert!(!limiter.allow("someone"));
}

#[test]
fn client_identifier_prefers_forwarded_header() {
    let h = headers(&[("x-forwarded-for", " 10.0.0.1 , 10.0.0.2")]);
    assert_eq!(client_identifier(&h, Some("127.0.0.1".to_string())), "10.0.0.1");
    let h = headers(&[("x-forwarded-for", " , 10.0.0.2")]);
    assert_eq!(client_identifier(&h, Some("127.0.0.1".to_string())), "10.0.0.2");
    let h = headers(&[("x-forwarded-for", " ,  ")]);
    assert_eq!(client_identifier(&h, Some("127.0.0.1".to_string())), "127.0.0.1");
    assert_eq!(client_identifier(&headers(&[]), Some("127.0.0.1".to_string())), "127.0.0.1");
    assert_eq!(client_identifier(&headers(&[]), None), "unknown");
}

#[test]
fn json_escaping_covers_quotes_and_controls() {
    assert_eq!(escape_json("plain"), "plain");
    assert_eq!(escape_json("a\"b\\c"), "a\\\"b\\\\c");
    assert_eq!(escape_json("l1\nl2\tx\r"), "l1\\nl2\\tx\\r");
    assert_eq!(escape_json("\u{1}"), "\\u0001");
}

#[test]
fn json_field_is_extracted() {
    let body = "{\"session_id\": \"portfolio\", \"command\": \"echo \\\"hi\\\"\\n\"}";
    assert_eq!(extract_json_string_field(body, "session_id"), Some("portfolio".to_string()));
    assert_eq!(extract_json_string_field(body, "command"), Some("echo \"hi\"\n".to_string()));
    assert_eq!(extract_json_string_field(body, "missing"), None);
    assert_eq!(extract_json_string_field("{\"k\":\"\\u0041\"}", "k"), Some("A".to_string()));
    assert_eq!(extract_json_string_field("{\"k\": 5}", "k"), None);
}

#[test]
fn escaped_value_reads_back() {
    let value = "tab\there \"quoted\" back\\slash \u{7}";
    let body = format!("{{\"command\":\"{}\"}}", escape_json(value));
    assert_eq!(extract_json_string_field(&body, "command"), Some(value.to_string()));
}

#[test]
fn execute_request_reads_json_or_plain_text() {
    let (session, command) = parse_execute_request("{\"session_id\":\"s1\",\"command\":\"pwd\"}");
    assert_eq!(session, "s1");
    assert_eq!(command, "pwd");
    let (session, command) = parse_execute_request("  echo plain  ");
    assert_eq!(session, "default");
    assert_eq!(command, "  echo plain  ");
    let (session, command) = parse_execute_request(" {\"command\":\"ls\"}");
    assert_eq!(session, "default");
    assert_eq!(command, "ls");
}

#[test]
fn routes_follow_method_and_path() {
    match route_request("GET", "/health", "") {
        Route::Reply(r) => {
            assert_eq!(r.status, 200);
            assert_eq!(r.body, "{\"status\":\"ok\"}");
        }
        Route::Execute { .. } => panic!("health must answer directly"),
    }
    match route_request("POST", "/execute", "{\"command\":\"ls\"}") {
        Route::Execute { session_id, command } => {
            assert_eq!(session_id, "default");
            assert_eq!(command, "ls");
        }
        Route::Reply(_) => panic!("a command must run"),
    }
    match route_request("POST", "/execute", "   ") {
        Route::Reply(r) => assert_eq!(r.status, 400),
        Route::Execute { .. } => panic!("a blank command must be refused"),
    }
    match route_request("GET", "/nope", "") {
        Route::Reply(r) => {
            assert_eq!(r.status, 404);
            assert_eq!(r.body, "{\"error\":\"not found\"}");
        }
        Route::Execute { .. } => panic!("unknown path"),
    }
}

#[test]
fn response_renders_status_line_and_headers() {
    let r = Response::json(200, "{}");
    let text = r.render();
    assert!(text.starts_with("HTTP/1.1 200 OK\r\n"));
    assert!(text.ends_with("\r\n\r\n{}"));
    assert!(text.contains("Content-Length: 2\r\n"));
}

#[test]
fn execute_response_lists_every_field() {
    let result = ExecutionResult {
        stdout: "hello\n".to_string(),
        stderr: String::new(),
        exit_code: -3,
        should_exit: false,
        current_dir: "/tmp".to_string(),
    };
    assert_eq!(
        render_execute_response("portfolio", "echo hello", &result),
        "{\"session_id\":\"portfolio\",\"command\":\"echo hello\",\"stdout\":\"hello\\n\",\"stderr\":\"\",\"exit_code\":-3,\"current_dir\":\"/tmp\",\"should_exit\":false}"
    );
}

#[test]
fn settings_are_read_with_defaults() {
    assert_eq!(parse_env_usize("N", None, 60), Ok(60));
    assert_eq!(parse_env_usize("N", Some("12".to_string()), 60), Ok(12));
    assert_eq!(
        parse_env_usize("N", Some("x".to_string()), 60),
        Err("N must be a positive integer, got 'x'".to_string())
    );
    assert_eq!(parse_env_u64("W", Some("+7".to_string()), 60), Ok(7));
}

#[test]
fn security_needs_a_key_and_positive_limits() {
    assert_eq!(
        ServerSecurity::from_settings(None, None, None).err(),
        Some("missing BYOSHELL_API_KEY environment variable".to_string())
    );
    assert_eq!(
        ServerSecurity::from_settings(Some("  ".to_string()), None, None).err(),
        Some("BYOSHELL_API_KEY cannot be empty".to_string())
    );
    assert_eq!(
        ServerSecurity::from_settings(Some("k".to_string()), Some("0".to_string()), None).err(),
        Some("BYOSHELL_RATE_LIMIT_MAX_REQUESTS must be greater than 0".to_string())
    );
    assert_eq!(
        ServerSecurity::from_settings(Some("k".to_string()), None, Some("0".to_string())).err(),
        Some("BYOSHELL_RATE_LIMIT_WINDOW_SECS must be greater than 0".to_string())
    );
    let security = ServerSecurity::from_settings(Some("k".to_string()), None, None).ok().unwrap();
    assert_eq!(security.rate_limit_max_requests, 60);
    assert_eq!(security.rate_limit_window_secs, 60);
}

#[test]
fn screening_answers_unauthorized_and_rate_limited() {
    let mut security =
        ServerSecurity::from_settings(Some("k".to_string()), Some("1".to_string()), Some("30".to_string()))
            .ok()
            .unwrap();
    let none = headers(&[]);
    let good = headers(&[("x-api-key", "k")]);
    let t0 = 1_000 * SECOND;
    assert!(security.screen_request("GET", "/health", &none, "c", t0).is_none());
    let refused = security.screen_request("POST", "/execute", &none, "c", t0).unwrap();
    assert_eq!(refused.status, 401);
    assert!(security.screen_request("POST", "/execute", &good, "c", t0).is_none());
    assert!(security.screen_request("GET", "/health", &none, "c", t0).is_none());
    let limited = security.screen_request("POST", "/execute", &good, "c", t0 + SECOND).unwrap();
    assert_eq!(limited.status, 429);
    assert_eq!(limited.body, "{\"error\":\"rate limit exceeded\",\"limit\":1,\"window_seconds\":30}");
    assert_eq!(limited.headers, vec![("Retry-After".to_string(), "30".to_string())]);
}

#[test]
fn request_line_gives_method_and_path() {
    assert_eq!(parse_request_line("GET /health HTTP/1.1\r\n"), ("GET".to_string(), "/health".to_string()));
    assert_eq!(parse_request_line("  POST   /execute  "), ("POST".to_string(), "/execute".to_string()));
    assert_eq!(parse_request_line("GET"), ("GET".to_string(), "/".to_string()));
    assert_eq!(parse_request_line(""), (String::new(), "/".to_string()));
}

#[test]
fn header_lines_split_at_the_first_colon() {
    assert_eq!(
        parse_header_line("X-API-Key:  secret:part \r\n"),
        Some(("x-api-key".to_string(), "secret:part".to_string()))
    );
    assert_eq!(parse_header_line("Host:"), Some(("host".to_string(), String::new())));
    assert_eq!(parse_header_line("no colon"), None);
    assert_eq!(content_length("12"), 12);
    assert_eq!(content_length("x"), 0);
    assert_eq!(content_length("-1"), 0);
}
