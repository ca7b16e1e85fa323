use ic_dev_kit_rs::http::{
    cors_preflight_response, error_response, extract_bearer_token, extract_params, extract_path,
    extract_query_params, get_header, json_response, matches_pattern, upgrade_response,
    HttpError, HttpMethod, HttpRequest, HttpResponse, Router,
};

fn lookup<'a>(params: &'a [(String, String)], key: &str) -> Option<&'a String> {
    params.iter().find(|p| p.0 == key).map(|p| &p.1)
}

#[test]
fn test_http_error_status_codes() {
    assert_eq!(HttpError::BadRequest("test".to_string()).status_code(), 400);
    assert_eq!(HttpError::Conflict("test".to_string()).status_code(), 409);
    assert_eq!(
        HttpError::UnprocessableEntity("test".to_string()).status_code(),
        422
    );
    assert_eq!(
        HttpError::custom_status(418, "I'm a teapot").status_code(),
        418
    );
}

#[test]
fn test_http_method_from_str() {
    assert_eq!(HttpMethod::from_str("GET"), Some(HttpMethod::GET));
    assert_eq!(HttpMethod::from_str("post"), Some(HttpMethod::POST));
    assert_eq!(HttpMethod::from_str("INVALID"), None);
}

#[test]
fn test_extract_path() {
    assert_eq!(extract_path("/api/test"), "/api/test");
    assert_eq!(extract_path("/api/test?param=value"), "/api/test");
    assert_eq!(
        extract_path("/api/test?param1=value1&param2=value2"),
        "/api/test"
    );
}

#[test]
fn test_extract_query_params() {
    let params = extract_query_params("/api/test?foo=bar&baz=qux");
    assert_eq!(lookup(&params, "foo"), Some(&"bar".to_string()));
    assert_eq!(lookup(&params, "baz"), Some(&"qux".to_string()));
}

#[test]
fn test_path_matching() {
    assert!(matches_pattern("/api/test", "/api/test"));
    assert!(matches_pattern("/api/test", "/api/*"));
    assert!(matches_pattern("/api/v1/users", "*/users"));
    assert!(!matches_pattern("/api/test", "/api/other"));
}

#[test]
fn test_extract_params() {
    let params = extract_params("/api/users/123", "/api/users/:id");
    assert_eq!(lookup(&params, "id"), Some(&"123".to_string()));

    let params = extract_params(
        "/api/users/123/posts/456",
        "/api/users/:userId/posts/:postId",
    );
    assert_eq!(lookup(&params, "userId"), Some(&"123".to_string()));
    assert_eq!(lookup(&params, "postId"), Some(&"456".to_string()));
}

#[test]
fn test_get_header() {
    let headers = vec![
        ("Content-Type".to_string(), "application/json".to_string()),
        ("Authorization".to_string(), "Bearer token123".to_string()),
    ];

    assert_eq!(get_header(&headers, "content-type"), Some("application/json"));
    assert_eq!(get_header(&headers, "Authorization"), Some("Bearer token123"));
    assert_eq!(get_header(&headers, "Missing"), None);
}

#[test]
fn test_extract_bearer_token() {
    let headers = vec![(
        "Authorization".to_string(),
        "Bearer token123".to_string(),
    )];

    assert_eq!(
        extract_bearer_token(&headers),
        Some("token123".to_string())
    );

    let headers = vec![("Authorization".to_string(), "Basic xyz".to_string())];
    assert_eq!(extract_bearer_token(&headers), None);
}

#[test]
fn test_error_message_rendering() {
    assert_eq!(
        HttpError::MethodNotAllowed.message(),
        "Method not allowed"
    );
    assert_eq!(
        HttpError::BadRequest("no body".to_string()).message(),
        "Bad request: no body"
    );
    assert_eq!(
        HttpError::custom_status(418, "teapot").message(),
        "HTTP 418: teapot"
    );
}

#[test]
fn test_error_response_body_escaped() {
    let r = error_response(400, "say \"hi\"\n");
    assert_eq!(r.status_code, 400);
    assert_eq!(r.body, b"{\"error\":\"say \\\"hi\\\"\\n\"}".to_vec());
    let r = HttpError::NotFound.to_response();
    assert_eq!(r.status_code, 404);
    assert_eq!(r.body, b"{\"error\":\"Endpoint not found\"}".to_vec());
}

#[test]
fn test_json_response_shape() {
    let r = json_response(201, "{\"ok\":true}".to_string());
    assert_eq!(r.status_code, 201);
    assert_eq!(r.body, b"{\"ok\":true}".to_vec());
    assert_eq!(
        r.headers,
        vec![
            ("Content-Type".to_string(), "application/json".to_string()),
            ("Access-Control-Allow-Origin".to_string(), "*".to_string()),
        ]
    );
    assert_eq!(r.upgrade, None);

    let u = upgrade_response();
    assert_eq!(u.status_code, 204);
    assert_eq!(u.upgrade, Some(true));

    let c = cors_preflight_response();
    assert_eq!(c.status_code, 204);
    assert_eq!(c.headers.len(), 3);
}

#[test]
fn test_method_as_str() {
    assert_eq!(HttpMethod::GET.as_str(), "GET");
    assert_eq!(HttpMethod::OPTIONS.as_str(), "OPTIONS");
    assert_eq!(HttpMethod::from_str("PaTcH"), Some(HttpMethod::PATCH));
}

type Handler = fn(HttpRequest) -> Result<HttpResponse, HttpError>;

fn ping_handler(_req: HttpRequest) -> Result<HttpResponse, HttpError> {
    Ok(json_response(200, "\"pong\"".to_string()))
}

fn user_handler(req: HttpRequest) -> Result<HttpResponse, HttpError> {
    let params = extract_params(extract_path(&req.url), "/api/users/:id");
    match lookup(&params, "id") {
        Some(id) => Ok(json_response(200, format!("\"user {}\"", id))),
        None => Err(HttpError::NotFound),
    }
}

fn request(method: &str, url: &str) -> HttpRequest {
    HttpRequest {
        method: method.to_string(),
        url: url.to_string(),
        headers: vec![],
        body: vec![],
    }
}

#[test]
fn test_router_dispatch() {
    let mut router: Router<Handler> = Router::new();
    router.get("/api/ping".to_string(), ping_handler);
    router.get("/api/users/:id".to_string(), user_handler);

    let r = router.handle(request("GET", "/api/ping?x=1"));
    assert_eq!(r.status_code, 200);
    assert_eq!(r.body, b"\"pong\"".to_vec());

    let r = router.handle(request("GET", "/api/users/42"));
    assert_eq!(r.status_code, 200);
    assert_eq!(r.body, b"\"user 42\"".to_vec());

    let r = router.handle(request("OPTIONS", "/whatever"));
    assert_eq!(r.status_code, 204);

    let r = router.handle(request("BREW", "/api/ping"));
    assert_eq!(r.status_code, 405);

    let r = router.handle(request("GET", "/api/nothing"));
    assert_eq!(r.status_code, 404);

    let r = router.handle(request("POST", "/api/ping"));
    assert_eq!(r.status_code, 404);
}
