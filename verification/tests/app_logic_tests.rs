use aurora::access::{route_fetch, Capability, FetchRoute, Identity};
use aurora::cli::{env_flag_value, render_mode, CliError, CliOptions, Input, RenderMode};
use aurora::fetch::FetchError;
use aurora::html_lex::decode_layout_entities;

fn args(list: &[&str]) -> Vec<String> {
    list.iter().map(|s| s.to_string()).collect()
}

fn johanna(caps: Vec<Capability>) -> Identity {
    Identity { did: "did:human:johanna".to_string(), default_capabilities: caps }
}

#[test]
fn describes_fetch_errors() {
    assert_eq!(
        FetchError::UnsupportedScheme("ftp".to_string()).to_string(),
        "unsupported URL scheme: ftp (only http:// and https:// are supported)"
    );
    assert_eq!(FetchError::InvalidUrl("x".to_string()).to_string(), "invalid URL: x");
    assert_eq!(
        FetchError::InvalidResponse("empty response".to_string()).to_string(),
        "invalid HTTP response: empty response"
    );
    assert_eq!(FetchError::HttpStatus(404, "Not Found".to_string()).to_string(), "HTTP 404 Not Found");
    assert_eq!(FetchError::TooManyRedirects.to_string(), "too many redirects");
    let io = FetchError::Io(std::io::Error::new(std::io::ErrorKind::Other, "boom"));
    assert_eq!(io.to_string(), "network error: boom");
}

#[test]
fn routes_fetches_by_capability() {
    let both = johanna(vec![Capability::NetworkAccess, Capability::ReadWorkspace]);
    assert_eq!(
        route_fetch("file:///tmp/page.html", &both).unwrap(),
        FetchRoute::File("/tmp/page.html".to_string())
    );
    assert_eq!(
        route_fetch("https://example.com/", &both).unwrap(),
        FetchRoute::Network("https://example.com/".to_string())
    );
    let net_only = johanna(vec![Capability::Other("chat".to_string()), Capability::NetworkAccess]);
    match route_fetch("file:///tmp/page.html", &net_only) {
        Err(FetchError::InvalidUrl(m)) => {
            assert_eq!(m, "Identity did:human:johanna lacks workspace.read capability")
        }
        other => panic!("unexpected: {other:?}"),
    }
    let files_only = johanna(vec![Capability::ReadWorkspace]);
    match route_fetch("http://example.com/", &files_only) {
        Err(FetchError::InvalidUrl(m)) => {
            assert_eq!(m, "Identity did:human:johanna lacks network.access capability")
        }
        other => panic!("unexpected: {other:?}"),
    }
}

#[test]
fn parses_command_lines() {
    let o = CliOptions::parse(&args(&["--debug-dom", "http://a.test/", "--debug-layout"]), false, true, false).unwrap();
    assert_eq!(o.input, Some(Input::Url("http://a.test/".to_string())));
    assert!(o.debug_dom && o.debug_style && o.debug_layout);
    let f = CliOptions::parse(&args(&["x", "--fixture", "basic"]), false, false, false).unwrap();
    assert_eq!(f.input, Some(Input::Fixture("basic".to_string())));
    assert!(!f.debug_dom);
    let none = CliOptions::parse(&args(&[]), false, false, false).unwrap();
    assert_eq!(none.input, None);
    assert_eq!(
        CliOptions::parse(&args(&["--fixture"]), false, false, false),
        Err(CliError::MissingFixtureName)
    );
    assert_eq!(
        CliOptions::parse(&args(&["page", "--verbose", "--fixture"]), false, false, false),
        Err(CliError::UnknownFlag("--verbose".to_string()))
    );
}

#[test]
fn reads_environment_flags() {
    for v in ["1", "true", "TRUE", "yes", "YES"] {
        assert!(env_flag_value(Some(v)));
    }
    for v in ["0", "True", "no", ""] {
        assert!(!env_flag_value(Some(v)));
    }
    assert!(!env_flag_value(None));
}

#[test]
fn chooses_how_to_show_pages() {
    assert_eq!(render_mode(true, true, false), RenderMode::Window);
    assert_eq!(render_mode(false, false, true), RenderMode::Window);
    assert_eq!(render_mode(false, false, false), RenderMode::NoDisplay);
    assert_eq!(render_mode(false, true, true), RenderMode::Headless);
}

#[test]
fn decodes_entities_in_laid_out_text() {
    assert_eq!(decode_layout_entities("a &lt;b&gt; &amp;lt; &quot;q&quot; &copy;"), "a <b> < \"q\" ©");
    assert_eq!(decode_layout_entities("&amp;quot;"), "&quot;");
    assert_eq!(decode_layout_entities("x&nbsp;y"), "x&nbsp;y");
}
