use oxipress::content::{plain_text, split_frontmatter};
use oxipress::search::{query_from_pairs, query_from_uri, rank, score, search, Entry, SearchOutcome};

const HELLO: &str = "---\ntitle: Hello, World\ndate: 2026-07-01\ntags: [meta, rust]\ndescription: Welcome to Oxipress — a Rust-powered Markdown blog template for Vercel.\n---\n\nWelcome to **Oxipress**! This entire site was pre-rendered by a Rust binary at\nbuild time.\n\n```rust\nfn main() {}\n```\n";
const WHY: &str = "---\ntitle: Why Rust on Vercel?\ndate: 2026-07-02\ntags: [rust, vercel, performance]\ndescription: How pre-rendering with Rust beats per-request Markdown compilation.\n---\n\nMost minimal Markdown blog templates for Vercel do the same thing.\n";

fn entry_from(slug: &str, source: &str) -> Entry {
    let (yaml, body) = split_frontmatter(source).ok().unwrap();
    let fm: serde_yaml::Value = serde_yaml::from_str(yaml).unwrap();
    Entry {
        slug: slug.to_string(),
        title: fm["title"].as_str().unwrap().to_string(),
        description: fm["description"].as_str().unwrap_or("").to_string(),
        tags: fm["tags"]
            .as_sequence()
            .unwrap()
            .iter()
            .map(|t| t.as_str().unwrap().to_string())
            .collect(),
        body: plain_text(body),
    }
}

fn entry(slug: &str, title: &str, description: &str, tags: &[&str], body: &str) -> Entry {
    Entry {
        slug: slug.into(),
        title: title.into(),
        description: description.into(),
        tags: tags.iter().map(|t| t.to_string()).collect(),
        body: body.into(),
    }
}

#[test]
fn index_parses_and_scores() {
    let index = vec![entry_from("hello-world", HELLO), entry_from("why-rust-on-vercel", WHY)];
    assert!(!index.is_empty(), "committed search_index.json is empty");
    let terms = vec!["rust"];
    let hits: Vec<_> = index.iter().filter(|e| score(e, &terms) > 0).collect();
    assert!(!hits.is_empty(), "expected sample posts to match 'rust'");
}

#[test]
fn title_match_outscores_body_match() {
    let title_hit = Entry {
        slug: "a".into(),
        title: "Rust rules".into(),
        description: String::new(),
        tags: vec![],
        body: String::new(),
    };
    let body_hit = Entry {
        slug: "b".into(),
        title: "Other".into(),
        description: String::new(),
        tags: vec![],
        body: "rust".into(),
    };
    assert!(score(&title_hit, &["rust"]) > score(&body_hit, &["rust"]));
}

#[test]
fn score_weights() {
    let e = entry("s", "Rust", "about RUST", &["Rust", "web"], "rust rust Rust rust rust rust rust");
    // title 8 + tag 5 + description 3 + body capped at 5
    assert_eq!(score(&e, &["rust"]), 21);
    assert_eq!(score(&e, &["web"]), 5);
    assert_eq!(score(&e, &["rust", "web", "none"]), 26);
    assert_eq!(score(&e, &[]), 0);
    let b = entry("b", "x", "", &[], "aaaa");
    // non-overlapping matches: "aa" occurs twice in "aaaa"
    assert_eq!(score(&b, &["aa"]), 2);
    // the empty term is in every text and matches between all characters
    assert_eq!(score(&b, &[""]), 8 + 3 + 5);
}

#[test]
fn rank_orders_and_caps() {
    assert_eq!(rank(&vec![0, 3, 5, 3, 0, 1]), vec![2, 1, 3, 5]);
    assert_eq!(rank(&vec![]), Vec::<usize>::new());
    let many: Vec<u32> = (0..15).map(|i| (i % 3) as u32).collect();
    let r = rank(&many);
    assert_eq!(r, vec![2, 5, 8, 11, 14, 1, 4, 7, 10, 13]);
}

#[test]
fn search_returns_best_first() {
    let index = vec![
        entry("a", "Other", "", &[], "rust"),
        entry("b", "Rust rules", "", &[], ""),
        entry("c", "Nothing", "", &[], "here"),
    ];
    match search(&index, "rust") {
        SearchOutcome::Results(hits) => {
            let slugs: Vec<&str> = hits.iter().map(|h| h.slug.as_str()).collect();
            assert_eq!(slugs, vec!["b", "a"]);
            assert_eq!(hits[0].title, "Rust rules");
        }
        SearchOutcome::MissingQuery => panic!("query was given"),
    }
    assert!(matches!(search(&index, " \t\n"), SearchOutcome::MissingQuery));
    assert!(matches!(search(&index, ""), SearchOutcome::MissingQuery));
    match search(&index, "zzz") {
        SearchOutcome::Results(hits) => assert!(hits.is_empty()),
        SearchOutcome::MissingQuery => panic!("query was given"),
    }
}

#[test]
fn query_comes_from_first_q() {
    let q = query_from_uri("https://blog.example/api/search?x=1&q=Rust%20WEB&q=other").ok().unwrap();
    assert_eq!(q, "rust web");
    let q = query_from_uri("https://blog.example/api/search?q=a+B").ok().unwrap();
    assert_eq!(q, "a b");
    assert_eq!(query_from_uri("https://blog.example/api/search").ok().unwrap(), "");
    assert!(query_from_uri("/api/search?q=rust").is_err());
    let pairs = vec![("q".to_string(), "ÄB".to_string())];
    assert_eq!(query_from_pairs(&pairs), "äb");
}

#[test]
fn score_adds_over_terms() {
    let e = entry("s", "Rust on Vercel", "fast", &["web"], "rust is fast, rust is safe");
    let a = score(&e, &["rust"]);
    let b = score(&e, &["fast", "web"]);
    assert_eq!(score(&e, &["rust", "fast", "web"]), a + b);
    assert_eq!(a, 8 + 2);
    assert_eq!(b, 3 + 1 + 5);
}

#[test]
fn score_is_positive_only_when_a_term_is_found() {
    let e = entry("s", "Title", "desc", &["tag"], "body");
    assert_eq!(score(&e, &["missing", "absent"]), 0);
    assert!(score(&e, &["missing", "tag"]) > 0);
    assert!(score(&e, &["od"]) > 0);
}

#[test]
fn search_ignores_the_order_of_terms() {
    let index = vec![
        entry("a", "Rust web", "", &["web"], "rust rust"),
        entry("b", "Web", "rust", &[], "web"),
        entry("c", "Other", "", &["rust"], ""),
    ];
    let slugs = |q: &str| match search(&index, q) {
        SearchOutcome::Results(hits) => hits.iter().map(|h| h.slug.clone()).collect::<Vec<_>>(),
        SearchOutcome::MissingQuery => panic!("query was given"),
    };
    assert_eq!(slugs("rust web"), slugs("web  rust"));
    assert_eq!(slugs("rust web"), vec!["a", "b", "c"]);
    assert_eq!(slugs("web rust web"), slugs("web web rust"));
}

#[test]
fn ascii_queries_ignore_case() {
    let pairs = |v: &str| vec![("x".to_string(), "Y".to_string()), ("q".to_string(), v.to_string())];
    assert_eq!(query_from_pairs(&pairs("Rust ON Vercel")), "rust on vercel");
    assert_eq!(query_from_pairs(&pairs("rust on vercel")), query_from_pairs(&pairs("RUST On VERCEL")));
    assert_eq!(query_from_pairs(&pairs("A-Z [@`{]")), "a-z [@`{]");
}

#[test]
fn ascii_queries_in_any_order_and_case_agree() {
    let index = vec![
        entry("a", "Rust web", "", &["web"], "rust rust"),
        entry("b", "Web", "rust", &[], "web"),
    ];
    let answer = |uri: &str| match search(&index, &query_from_uri(uri).ok().unwrap()) {
        SearchOutcome::Results(hits) => hits.iter().map(|h| h.slug.clone()).collect::<Vec<_>>(),
        SearchOutcome::MissingQuery => panic!("query was given"),
    };
    let first = answer("https://blog.example/api/search?q=Rust+WEB");
    assert_eq!(first, vec!["a", "b"]);
    assert_eq!(first, answer("https://blog.example/api/search?q=web%20rust"));
    assert!(matches!(
        search(&index, &query_from_uri("https://blog.example/api/search?q=+").ok().unwrap()),
        SearchOutcome::MissingQuery
    ));
}
