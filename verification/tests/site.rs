use oxipress::content::{Date, Post};
use oxipress::site::{
    feed_xml, home_url, index_entry, listing_order, normalize_base_url, post_url, sitemap_xml,
    sort_posts, tag_pages, tag_url, SiteConfig,
};

fn post(slug: &str, y: i32, m: u32, d: u32, tags: &[&str]) -> Post {
    Post {
        slug: slug.to_string(),
        title: format!("Title {slug}"),
        date: Date::from_ymd(y, m, d).unwrap(),
        tags: tags.iter().map(|t| t.to_string()).collect(),
        description: format!("About <{slug}>"),
        html: String::new(),
        plain_text: format!("text of {slug}"),
        reading_time_min: 1,
    }
}

#[test]
fn posts_are_listed_newest_first_then_by_slug() {
    let posts = vec![
        post("b", 2026, 7, 1, &[]),
        post("c", 2026, 7, 2, &[]),
        post("a", 2026, 7, 1, &[]),
        post("z", 2025, 12, 31, &[]),
    ];
    assert_eq!(listing_order(&posts), vec![1, 2, 0, 3]);
    let sorted = sort_posts(posts);
    let slugs: Vec<&str> = sorted.iter().map(|p| p.slug.as_str()).collect();
    assert_eq!(slugs, vec!["c", "a", "b", "z"]);
}

#[test]
fn equal_posts_keep_their_order() {
    let mut first = post("same", 2026, 1, 1, &[]);
    first.title = "first".to_string();
    let mut second = post("same", 2026, 1, 1, &[]);
    second.title = "second".to_string();
    let sorted = sort_posts(vec![first, second]);
    assert_eq!(sorted[0].title, "first");
    assert_eq!(sorted[1].title, "second");
}

#[test]
fn tag_pages_group_posts_by_tag() {
    let posts = vec![
        post("a", 2026, 7, 2, &["rust", "web"]),
        post("b", 2026, 7, 1, &["meta", "rust", "rust"]),
    ];
    let pages = tag_pages(&posts);
    let tags: Vec<&str> = pages.iter().map(|p| p.tag.as_str()).collect();
    assert_eq!(tags, vec!["meta", "rust", "web"]);
    assert_eq!(pages[0].posts, vec![1]);
    assert_eq!(pages[1].posts, vec![0, 1, 1]);
    assert_eq!(pages[2].posts, vec![0]);
    assert!(tag_pages(&vec![]).is_empty());
}

#[test]
fn urls_are_built_from_the_base() {
    assert_eq!(normalize_base_url("https://x.dev///"), "https://x.dev");
    assert_eq!(normalize_base_url("https://x.dev"), "https://x.dev");
    assert_eq!(home_url("https://x.dev"), "https://x.dev/");
    assert_eq!(post_url("https://x.dev", "hello"), "https://x.dev/posts/hello/");
    assert_eq!(tag_url("https://x.dev", "rust"), "https://x.dev/tags/rust/");
}

#[test]
fn feed_lists_at_most_twenty_posts() {
    let config = SiteConfig {
        title: "My & Blog".to_string(),
        description: "Desc".to_string(),
        base_url: "https://x.dev".to_string(),
        author: "me".to_string(),
    };
    let posts: Vec<Post> = (1..=25).map(|d| post(&format!("p{d}"), 2026, 1, d as u32, &[])).collect();
    let feed = feed_xml(&config, "https://x.dev", &posts);
    assert!(feed.starts_with("<?xml version=\"1.0\" encoding=\"UTF-8\"?>\n<rss version=\"2.0\"><channel>\n  <title>My &amp; Blog</title>\n  <link>https://x.dev/</link>\n  <description>Desc</description>\n  <item>\n"));
    assert!(feed.ends_with("</item>\n</channel></rss>\n"));
    assert_eq!(feed.matches("<item>").count(), 20);
    assert!(feed.contains("    <title>Title p1</title>\n    <link>https://x.dev/posts/p1/</link>\n    <guid>https://x.dev/posts/p1/</guid>\n    <pubDate>Thu, 01 Jan 2026 00:00:00 GMT</pubDate>\n    <description>About &lt;p1&gt;</description>\n"));
    assert!(!feed.contains("p21"));
}

#[test]
fn sitemap_lists_home_posts_and_tags() {
    let posts = vec![post("a&b", 2026, 1, 1, &[])];
    let xml = sitemap_xml("https://x.dev", &posts, &vec!["rust".to_string()]);
    assert_eq!(
        xml,
        "<?xml version=\"1.0\" encoding=\"UTF-8\"?>\n<urlset xmlns=\"http://www.sitemaps.org/schemas/sitemap/0.9\">\n  <url><loc>https://x.dev/</loc></url>\n  <url><loc>https://x.dev/posts/a&amp;b/</loc></url>\n  <url><loc>https://x.dev/tags/rust/</loc></url>\n</urlset>\n"
    );
}

#[test]
fn index_entries_keep_5000_characters() {
    let mut p = post("a", 2026, 1, 1, &["t"]);
    p.plain_text = "é".repeat(6000);
    let e = index_entry(&p);
    assert_eq!(e.body.chars().count(), 5000);
    assert_eq!(e.slug, "a");
    assert_eq!(e.tags, vec!["t".to_string()]);
    let short = index_entry(&post("b", 2026, 1, 1, &[]));
    assert_eq!(short.body, "text of b");
}

#[test]
fn normalizing_twice_changes_nothing() {
    for url in ["https://x.dev//", "/", "", "https://x.dev"] {
        let once = normalize_base_url(url);
        assert!(!once.ends_with('/'));
        assert_eq!(normalize_base_url(&once), once);
    }
}

#[test]
fn every_post_is_on_its_tag_pages() {
    let posts = vec![post("a", 2026, 1, 2, &["x", "y"]), post("b", 2026, 1, 1, &["y"])];
    let pages = tag_pages(&posts);
    for (i, p) in posts.iter().enumerate() {
        for t in &p.tags {
            let page = pages.iter().find(|pg| &pg.tag == t).unwrap();
            assert!(page.posts.contains(&i));
        }
    }
}
