use chrono::Datelike;
use oxipress::content::{
    date_text, escape_xml, plain_text, post_from_parts, reading_time_min, rfc2822_date, split_frontmatter,
    Date, Frontmatter, FrontmatterError,
};

const SAMPLE: &str = "---\ntitle: Hello\ndate: 2026-01-02\ntags: [rust, web]\ndescription: A post\n---\n\n# Heading\n\nBody text.\n";

#[test]
fn parses_frontmatter_and_body() {
    let (yaml, body) = split_frontmatter(SAMPLE).ok().unwrap();
    let fm: serde_yaml::Value = serde_yaml::from_str(yaml).unwrap();
    assert_eq!(fm["title"].as_str(), Some("Hello"));
    let date: chrono::NaiveDate = fm["date"].as_str().unwrap().parse().unwrap();
    let date = Date::from_ymd(date.year(), date.month(), date.day()).unwrap();
    assert_eq!(date_text(&date), "2026-01-02");
    let tags: Vec<&str> = fm["tags"]
        .as_sequence()
        .unwrap()
        .iter()
        .map(|t| t.as_str().unwrap())
        .collect();
    assert_eq!(tags, vec!["rust", "web"]);
    // No `draft` key: the frontmatter's `draft` takes its default, `false`.
    assert!(fm.get("draft").is_none());
    assert!(body.starts_with("# Heading"));
}

#[test]
fn rejects_missing_frontmatter() {
    assert!(split_frontmatter("# no frontmatter\n").is_err());
}

#[test]
fn plain_text_skips_code_fences() {
    let md = "Intro\n\n```rust\nlet x = 1;\n```\n\nOutro";
    let p = plain_text(md);
    assert!(p.contains("Intro"));
    assert!(p.contains("Outro"));
    assert!(!p.contains("let x"));
}

#[test]
fn reading_time_has_floor_of_one() {
    assert_eq!(reading_time_min("few words"), 1);
    let long = "word ".repeat(500);
    assert_eq!(reading_time_min(&long), 2);
}

#[test]
fn escapes_xml_entities() {
    assert_eq!(escape_xml("a<b & \"c\""), "a&lt;b &amp; &quot;c&quot;");
}

#[test]
fn formats_rfc2822() {
    let d = Date::from_ymd(2026, 1, 2).unwrap();
    assert_eq!(rfc2822_date(&d), "Fri, 02 Jan 2026 00:00:00 GMT");
}

#[test]
fn rfc2822_pads_day_and_small_years() {
    let d = Date::from_ymd(999, 12, 5).unwrap();
    let s = rfc2822_date(&d);
    assert!(s.ends_with(", 05 Dec 0999 00:00:00 GMT"), "{s}");
    assert_eq!(s.len(), "Thu, 05 Dec 0999 00:00:00 GMT".len());
}

#[test]
fn escapes_apostrophe_and_gt() {
    assert_eq!(escape_xml("it's > 2"), "it&apos;s &gt; 2");
    assert_eq!(escape_xml("plain"), "plain");
    assert_eq!(escape_xml(""), "");
}

#[test]
fn plain_text_strips_markup_and_joins_lines() {
    let md = "# Title\n\nSome *bold* and [a link](http://x).\n> quote\n";
    assert_eq!(plain_text(md), "Title Some bold and a linkhttp://x. quote");
}

#[test]
fn plain_text_handles_tilde_fences_and_crlf() {
    let md = "A\r\n~~~\r\nhidden\r\n~~~\r\n  B  \r\n";
    assert_eq!(plain_text(md), "A B");
}

#[test]
fn plain_text_unclosed_fence_hides_rest() {
    assert_eq!(plain_text("shown\n   ```\nnever\nagain"), "shown");
    assert_eq!(plain_text(""), "");
}

#[test]
fn reading_time_counts_words() {
    assert_eq!(reading_time_min(""), 1);
    assert_eq!(reading_time_min(&"w ".repeat(439)), 1);
    assert_eq!(reading_time_min(&"w\t".repeat(440)), 2);
    assert_eq!(reading_time_min(&"w\u{3000}".repeat(660)), 3);
}

#[test]
fn frontmatter_with_bom_and_crlf() {
    let src = "\u{feff}---\r\ntitle: X\r\n---\r\nBody";
    let (yaml, body) = split_frontmatter(src).ok().unwrap();
    assert_eq!(yaml, "title: X\r");
    assert_eq!(body, "Body");
}

#[test]
fn frontmatter_body_trimming() {
    let (yaml, body) = split_frontmatter("---\na: 1\n------\r\n\nrest\n").ok().unwrap();
    assert_eq!(yaml, "a: 1");
    assert_eq!(body, "rest\n");
}

#[test]
fn frontmatter_errors() {
    match split_frontmatter("---\ntitle: x\n") {
        Err(FrontmatterError::Unterminated) => {}
        _ => panic!("expected unterminated"),
    }
    match split_frontmatter("--- \ntitle: x\n---\n") {
        Err(FrontmatterError::Missing) => {}
        _ => panic!("expected missing"),
    }
    assert_eq!(
        FrontmatterError::Missing.message(),
        "missing frontmatter: file must start with ---"
    );
    assert_eq!(
        FrontmatterError::Unterminated.message(),
        "unterminated frontmatter: closing --- not found"
    );
    assert_eq!(
        FrontmatterError::Invalid("bad".to_string()).message(),
        "invalid frontmatter: bad"
    );
}

#[test]
fn dates_are_checked() {
    assert!(Date::from_ymd(2023, 2, 29).is_none());
    assert!(Date::from_ymd(2024, 2, 29).is_some());
    assert!(Date::from_ymd(1900, 2, 29).is_none());
    assert!(Date::from_ymd(2000, 2, 29).is_some());
    assert!(Date::from_ymd(2024, 4, 31).is_none());
    assert!(Date::from_ymd(2024, 13, 1).is_none());
    assert!(Date::from_ymd(2024, 1, 0).is_none());
    assert!(Date::from_ymd(-4, 2, 29).is_some());
    assert!(Date::from_ymd(400000, 1, 1).is_none());
    let d = Date::from_ymd(2026, 7, 1).unwrap();
    assert_eq!((d.year(), d.month(), d.day()), (2026, 7, 1));
}

fn frontmatter(draft: bool) -> Frontmatter {
    Frontmatter {
        title: "T".to_string(),
        date: Date::from_ymd(2026, 7, 1).unwrap(),
        tags: vec!["rust".to_string()],
        description: "D".to_string(),
        draft,
    }
}

#[test]
fn drafts_are_skipped_unless_asked_for() {
    assert!(post_from_parts("a".to_string(), frontmatter(true), "x", false).is_none());
    assert!(post_from_parts("a".to_string(), frontmatter(true), "x", true).is_some());
    let p = post_from_parts("slug".to_string(), frontmatter(false), "# Hi\n\nthere", false).unwrap();
    assert_eq!(p.slug, "slug");
    assert_eq!(p.title, "T");
    assert_eq!(p.plain_text, "Hi there");
    assert_eq!(p.reading_time_min, 1);
    assert!(p.html.contains("<h1"));
    assert!(p.html.contains("there"));
}

#[test]
fn escaped_text_has_no_bare_markup_and_is_injective() {
    let inputs = ["<a href=\"x\">it's</a>", "&amp;", "&", "plain", ""];
    let outputs: Vec<String> = inputs.iter().map(|s| escape_xml(s)).collect();
    for out in &outputs {
        assert!(!out.contains(['<', '>', '"', '\'']));
    }
    assert_eq!(escape_xml("&amp;"), "&amp;amp;");
    for i in 0..outputs.len() {
        for j in 0..outputs.len() {
            if i != j {
                assert_ne!(outputs[i], outputs[j]);
            }
        }
    }
}

#[test]
fn written_frontmatter_is_read_back() {
    let yaml = "title: Round trip\ntags: [a]";
    let body = "Body line\n\n--- not a fence";
    let source = format!("---\n{yaml}\n---\n{body}");
    let (y, b) = split_frontmatter(&source).ok().unwrap();
    assert_eq!(y, yaml);
    assert_eq!(b, body);
}

#[test]
fn plain_text_never_holds_markup() {
    let md = "# H\n**b** _i_ `c` > q [l](u)\n```\ncode\n```\n";
    let p = plain_text(md);
    assert!(!p.contains(['#', '*', '_', '`', '>', '[', ']', '(', ')']));
    assert_eq!(p, "H b i c  q lu");
}

#[test]
fn plain_text_of_plain_text_is_unchanged() {
    for md in [
        "# Title\n\nSome *text* with [a link](x).\r\n\n```\ncode\n```\nEnd  ",
        "",
        "   \n\n",
        "> quote\n- item one\n- item two",
    ] {
        let p = plain_text(md);
        assert_eq!(plain_text(&p), p);
    }
    let p = plain_text("#~~~ still text");
    assert_eq!(p, "~~~ still text");
    assert_eq!(plain_text(&p), "");
}

#[test]
fn bodies_are_rendered_with_the_site_options() {
    let md = "# Hi\n\n~~gone~~ https://example.com\n\n| a | b |\n|---|---|\n| 1 | 2 |\n\n- [x] done\n\n```rust\nfn main() {}\n```\n";
    let p = post_from_parts("s".to_string(), frontmatter(false), md, false).unwrap();
    assert!(p.html.contains("id=\"hi\""));
    assert!(p.html.contains("<del>gone</del>"));
    assert!(p.html.contains("<a href=\"https://example.com\">"));
    assert!(p.html.contains("<table>"));
    assert!(p.html.contains("type=\"checkbox\""));
    assert!(p.html.contains("<pre style=\"background-color:#2b303b;\">"));
}

#[test]
fn escaping_distributes_over_concatenation() {
    let (a, b) = ("Tom & \"Jerry\"", "<b>'s</b>");
    assert_eq!(escape_xml(&format!("{a}{b}")), escape_xml(a) + &escape_xml(b));
    assert_eq!(escape_xml(a), "Tom &amp; &quot;Jerry&quot;");
}

#[test]
fn more_words_never_read_faster() {
    let text = |n: usize| vec!["w"; n].join(" ");
    let mut last = 0;
    for n in [0, 1, 219, 220, 439, 440, 441, 1000, 5000] {
        let m = reading_time_min(&text(n));
        assert!(m >= last);
        last = m;
    }
    assert_eq!(reading_time_min(&text(440)), 2);
}

#[test]
fn one_byte_order_mark_is_ignored() {
    for s in [SAMPLE, "---\ntitle: x\n", "# none\n", "---\r\nx\n---\r\nbody"] {
        let with_bom = format!("\u{feff}{s}");
        match (split_frontmatter(s), split_frontmatter(&with_bom)) {
            (Ok(a), Ok(b)) => assert_eq!(a, b),
            (Err(a), Err(b)) => assert_eq!(a.message(), b.message()),
            _ => panic!("a byte order mark changed the outcome"),
        }
    }
}
