//! Reading result pages of DuckDuckGo and Google.

use browsy::html::parse_html;
use browsy::search::{
    decode_redirect_url, extract_google_results_from, extract_search_results_from,
    pick_redirect_target,
};

#[test]
fn test_search_result_parsing() {
    let html = r#"
    <html><body>
    <div id="links" class="results">
        <div class="result results_links results_links_deep web-result">
            <div class="links_main links_deep result__body">
                <h2 class="result__title">
                    <a class="result__a" href="//duckduckgo.com/l/?uddg=https%3A%2F%2Fwww.rust-lang.org%2F&rut=abc">
                        Rust Programming Language
                    </a>
                </h2>
                <a class="result__snippet" href="//duckduckgo.com/l/?uddg=https%3A%2F%2Fwww.rust-lang.org%2F&rut=abc">
                    A language empowering everyone to build reliable and efficient software.
                </a>
            </div>
        </div>
        <div class="result results_links results_links_deep web-result">
            <div class="links_main links_deep result__body">
                <h2 class="result__title">
                    <a class="result__a" href="//duckduckgo.com/l/?uddg=https%3A%2F%2Fen.wikipedia.org%2Fwiki%2FRust_(programming_language)&rut=def">
                        Rust (programming language) - Wikipedia
                    </a>
                </h2>
                <a class="result__snippet" href="//duckduckgo.com/l/?uddg=https%3A%2F%2Fen.wikipedia.org%2Fwiki%2FRust_(programming_language)&rut=def">
                    Rust is a multi-paradigm, general-purpose programming language.
                </a>
            </div>
        </div>
        <div class="result result--ad">
            <div class="links_main result__body">
                <h2 class="result__title">
                    <a class="result__a" href="//duckduckgo.com/l/?uddg=https%3A%2F%2Fads.example.com&ad_provider=bingv7aa">
                        Sponsored Ad
                    </a>
                </h2>
            </div>
        </div>
    </div>
    </body></html>
    "#;

    let dom_tree = parse_html(html);
    let results = extract_search_results_from(&dom_tree);

    assert_eq!(results.len(), 2);

    assert_eq!(results[0].title, "Rust Programming Language");
    assert_eq!(results[0].url, "https://www.rust-lang.org/");
    assert!(results[0].snippet.contains("reliable and efficient"));

    assert!(results[1].title.contains("Wikipedia"));
    assert!(results[1].url.contains("wikipedia.org"));
}

#[test]
fn test_google_result_parsing() {
    let html = r#"
    <html><body>
    <div id="rso">
        <div class="MjjYud">
            <div class="tF2Cxc">
                <div class="yuRUbf">
                    <a href="/url?q=https://www.rust-lang.org/&sa=U">
                        <h3 class="LC20lb">Rust Programming Language</h3>
                    </a>
                </div>
                <div class="VwiC3b yDYNvb">
                    <span>A language empowering everyone to build reliable and efficient software.</span>
                </div>
            </div>
        </div>
        <div class="MjjYud">
            <div class="tF2Cxc">
                <div class="yuRUbf">
                    <a href="https://en.wikipedia.org/wiki/Rust_(programming_language)">
                        <h3 class="LC20lb">Rust (programming language) - Wikipedia</h3>
                    </a>
                </div>
                <div class="VwiC3b yDYNvb">
                    <span>Rust is a multi-paradigm, general-purpose programming language that emphasizes performance and safety.</span>
                </div>
            </div>
        </div>
        <div class="MjjYud">
            <div>
                <a href="https://www.google.com/aclk?sponsored=true">
                    <h3>Sponsored Ad</h3>
                </a>
            </div>
        </div>
    </div>
    </body></html>
    "#;

    let dom_tree = parse_html(html);
    let results = extract_google_results_from(&dom_tree);

    assert_eq!(results.len(), 2);

    assert_eq!(results[0].title, "Rust Programming Language");
    assert_eq!(results[0].url, "https://www.rust-lang.org/");
    assert!(results[0].snippet.contains("reliable and efficient"));

    assert!(results[1].title.contains("Wikipedia"));
    assert!(results[1].url.contains("wikipedia.org"));
    assert!(results[1].snippet.contains("multi-paradigm"));
}

#[test]
fn redirect_links_decode() {
    assert_eq!(
        decode_redirect_url("//duckduckgo.com/l/?uddg=https%3A%2F%2Fa.org%2Fx%3Fy%3D1&rut=z", "uddg"),
        Some("https://a.org/x?y=1".to_string())
    );
    assert_eq!(
        decode_redirect_url("/url?q=https://b.org/p&sa=U", "q"),
        Some("https://b.org/p".to_string())
    );
    assert_eq!(decode_redirect_url("https://c.org/direct", "q"), Some("https://c.org/direct".to_string()));
    assert_eq!(decode_redirect_url("/relative/only", "q"), None);
    let pairs = Some(vec![("q".to_string(), "v".to_string())]);
    assert_eq!(pick_redirect_target("/x", "q", &pairs), Some("v".to_string()));
    assert_eq!(pick_redirect_target("/x", "z", &pairs), None);
    assert_eq!(pick_redirect_target("http://h/", "z", &None), Some("http://h/".to_string()));
}

#[test]
fn google_snippets_stay_with_their_own_result() {
    let html = r#"<html><body><div id="rso">
        <div><a href="https://a.example/"><h3>A</h3></a><div class="VwiC3b">Snippet text belonging to A</div></div>
        <div><a href="https://b.example/"><h3>B</h3></a></div>
    </div></body></html>"#;
    let results = extract_google_results_from(&parse_html(html));
    assert_eq!(results.len(), 2);
    assert_eq!(results[0].title, "A");
    assert_eq!(results[0].url, "https://a.example/");
    assert_eq!(results[0].snippet, "Snippet text belonging to A");
    assert_eq!(results[1].title, "B");
    assert_eq!(results[1].url, "https://b.example/");
    assert_eq!(results[1].snippet, "");
}
