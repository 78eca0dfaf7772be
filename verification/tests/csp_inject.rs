use mailfang::csp::inject_csp_meta_tag;

#[test]
fn test_inject_csp_with_existing_head() {
    let html = "<html><head><title>Test</title></head><body>Content</body></html>";
    let result = inject_csp_meta_tag(html.to_string());

    assert!(result.contains("Content-Security-Policy"));
    assert!(result.contains("<head>"));
    assert!(result.contains("<title>Test</title>"));
    assert!(result.contains("Content"));
}

#[test]
fn test_inject_csp_with_head_attributes() {
    let html = "<html><head lang=\"en\"><title>Test</title></head><body>Content</body></html>";
    let result = inject_csp_meta_tag(html.to_string());

    assert!(result.contains("Content-Security-Policy"));
    assert!(result.contains("lang=\"en\""));
    assert!(result.contains("<title>Test</title>"));
}

#[test]
fn test_inject_csp_with_html_but_no_head() {
    let html = "<html><body>Content</body></html>";
    let result = inject_csp_meta_tag(html.to_string());

    assert!(result.contains("Content-Security-Policy"));
    assert!(result.contains("<head>"));
    assert!(result.contains("Content"));
}

#[test]
fn test_inject_csp_with_html_attributes_but_no_head() {
    let html = "<html lang=\"en\"><body>Content</body></html>";
    let result = inject_csp_meta_tag(html.to_string());

    assert!(result.contains("Content-Security-Policy"));
    assert!(result.contains("lang=\"en\""));
    assert!(result.contains("<head>"));
    assert!(result.contains("Content"));
}

#[test]
fn test_inject_csp_with_fragment() {
    let html = "<div>Just some content</div>";
    let result = inject_csp_meta_tag(html.to_string());

    assert!(result.contains("Content-Security-Policy"));
    assert!(result.starts_with("<html>"));
    assert!(result.contains("<head>"));
    assert!(result.contains("<body>"));
    assert!(result.contains("Just some content"));
    assert!(result.ends_with("</body></html>"));
}

#[test]
fn test_inject_csp_case_insensitive() {
    let html = "<HTML><HEAD><title>Test</title></HEAD><BODY>Content</BODY></HTML>";
    let result = inject_csp_meta_tag(html.to_string());

    assert!(result.contains("Content-Security-Policy"));
    assert!(result.contains("<title>Test</title>"));
}

#[test]
fn test_inject_csp_contains_correct_policy() {
    let html = "<html><head></head><body>Test</body></html>";
    let result = inject_csp_meta_tag(html.to_string());

    assert!(result.contains("default-src 'none'"));
    assert!(result.contains("img-src 'self' data:"));
    assert!(result.contains("script-src 'none'"));
    assert!(result.contains("style-src 'unsafe-inline'"));
    assert!(result.contains("font-src data:"));
    assert!(result.contains("connect-src 'none'"));
    assert!(result.contains("frame-src 'none'"));
    assert!(result.contains("object-src 'none'"));
    assert!(result.contains("media-src data:"));
    assert!(result.contains("base-uri 'none'"));
}
