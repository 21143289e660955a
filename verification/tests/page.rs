use oxipress::content::{date_text, Date, Post};
use oxipress::page::{render_index_page, render_post_page, render_tag_page};
use oxipress::site::{tag_pages, SiteConfig};

fn config() -> SiteConfig {
    SiteConfig {
        title: "Oxipress".to_string(),
        description: "A blog".to_string(),
        base_url: "https://blog.example/".to_string(),
        author: "Ada".to_string(),
    }
}

fn post(slug: &str, y: i32, m: u32, d: u32, tags: &[&str], minutes: u32) -> Post {
    Post {
        slug: slug.to_string(),
        title: format!("Title {slug}"),
        date: Date::from_ymd(y, m, d).unwrap(),
        tags: tags.iter().map(|t| t.to_string()).collect(),
        description: format!("About {slug}"),
        html: format!("<p>{slug}</p>"),
        plain_text: slug.to_string(),
        reading_time_min: minutes,
    }
}

fn templates() -> Vec<(String, String)> {
    let t = |n: &str, s: &str| (n.to_string(), s.to_string());
    vec![
        t("base.html", "<title>{{ site.title }}</title>{% block body %}{% endblock %}<a href=\"{{ page_url }}\">{{ site.author }}</a>"),
        // Pages ending in `.html` are HTML-escaped: `/` becomes `&#x2f;`.
        t("index.html", "{% extends \"base.html\" %}{% block body %}{% for p in posts %}[{{ p.slug }} {{ p.date }} {{ p.reading_time + 1 }}]{% endfor %}{% endblock %}"),
        t("post.html", "{% extends \"base.html\" %}{% block body %}<h1>{{ post.title }}</h1>{{ post.html|safe }}{{ post.tags|join(\",\") }}|{{ site.base_url }}{% endblock %}"),
        t("tag.html", "{{ tag }}:{% for p in posts %}{{ p.title }};{% endfor %}{{ page_url }}"),
    ]
}

#[test]
fn home_page_lists_every_post() {
    let posts = vec![post("b", 2026, 7, 2, &["rust"], 3), post("a", 2026, 1, 5, &[], 1)];
    let html = render_index_page(&templates(), &config(), "https://blog.example", &posts).unwrap();
    assert_eq!(
        html,
        "<title>Oxipress</title>[b 2026-07-02 4][a 2026-01-05 2]<a href=\"https:&#x2f;&#x2f;blog.example&#x2f;\">Ada</a>"
    );
}

#[test]
fn post_page_shows_the_post() {
    let p = post("hello", 2026, 7, 1, &["meta", "rust"], 2);
    let html = render_post_page(&templates(), &config(), "https://blog.example", &p).unwrap();
    assert_eq!(
        html,
        "<title>Oxipress</title><h1>Title hello</h1><p>hello</p>meta,rust|https:&#x2f;&#x2f;blog.example<a href=\"https:&#x2f;&#x2f;blog.example&#x2f;posts&#x2f;hello&#x2f;\">Ada</a>"
    );
}

#[test]
fn tag_page_lists_the_tagged_posts() {
    let posts = vec![
        post("a", 2026, 7, 2, &["rust"], 1),
        post("b", 2026, 7, 1, &["web"], 1),
        post("c", 2026, 6, 1, &["rust", "web"], 1),
    ];
    let pages = tag_pages(&posts);
    let rust = pages.iter().find(|p| p.tag == "rust").unwrap();
    let html = render_tag_page(&templates(), &config(), "https://blog.example", &posts, rust).unwrap();
    assert_eq!(html, "rust:Title a;Title c;https:&#x2f;&#x2f;blog.example&#x2f;tags&#x2f;rust&#x2f;");
}

#[test]
fn rendering_errors_are_reported() {
    let p = post("x", 2026, 7, 1, &[], 1);
    let none: Vec<(String, String)> = Vec::new();
    assert!(render_post_page(&none, &config(), "https://blog.example", &p).is_err());
    let broken = vec![("post.html".to_string(), "{% if %}".to_string())];
    assert!(render_post_page(&broken, &config(), "https://blog.example", &p).is_err());
}

#[test]
fn dates_are_shown_as_year_month_day() {
    assert_eq!(date_text(&Date::from_ymd(2026, 7, 1).unwrap()), "2026-07-01");
    assert_eq!(date_text(&Date::from_ymd(987, 12, 31).unwrap()), "0987-12-31");
}
