//! The HTML pages of the site: the home page, one page per post and one per
//! tag, each its template rendered by minijinja with the page's context.
use vstd::prelude::*;

use minijinja::{Environment, Value};

use self::Field::{Object, Objects, Plain};
use self::Leaf::{Number, Text, Texts};

use crate::content::{date_text, iso_date_of, Post};
use crate::site::{home_url, home_url_of, post_url, post_url_of, tag_url, tag_url_of, SiteConfig, TagPage};

verus! {

// ---------------------------------------------------------------------------
// Template contexts
// ---------------------------------------------------------------------------

/// A value of a template context that holds no other record.
pub enum Leaf {
    Text(String),
    Number(u64),
    Texts(Vec<String>),
}

/// What a [`Leaf`] holds.
pub enum LeafView {
    Text(Seq<char>),
    Number(int),
    Texts(Seq<Seq<char>>),
}

impl View for Leaf {
    type V = LeafView;

    open spec fn view(&self) -> LeafView {
        match self {
            Leaf::Text(s) => LeafView::Text(s@),
            Leaf::Number(n) => LeafView::Number(*n as int),
            Leaf::Texts(v) => LeafView::Texts(v@.map_values(|t: String| t@)),
        }
    }
}

/// Named values, each a leaf: what a template reads as `record.name`.
pub type Record = Vec<(String, Leaf)>;

/// The named values of a record, as plain values.
pub open spec fn record_view(r: Seq<(String, Leaf)>) -> Seq<(Seq<char>, LeafView)> {
    r.map_values(|f: (String, Leaf)| (f.0@, f.1@))
}

/// A value of a template context: a leaf, a record (read as `name.key`),
/// or a list of records (read with `for`).
pub enum Field {
    Plain(Leaf),
    Object(Record),
    Objects(Vec<Record>),
}

/// What a [`Field`] holds.
pub enum FieldView {
    Plain(LeafView),
    Object(Seq<(Seq<char>, LeafView)>),
    Objects(Seq<Seq<(Seq<char>, LeafView)>>),
}

impl View for Field {
    type V = FieldView;

    open spec fn view(&self) -> FieldView {
        match self {
            Field::Plain(l) => FieldView::Plain(l@),
            Field::Object(r) => FieldView::Object(record_view(r@)),
            Field::Objects(rs) => FieldView::Objects(
                rs@.map_values(|r: Record| record_view(r@)),
            ),
        }
    }
}

/// A template context, as plain values.
pub open spec fn context_view(c: Seq<(String, Field)>) -> Seq<(Seq<char>, FieldView)> {
    c.map_values(|f: (String, Field)| (f.0@, f.1@))
}

/// Templates by name, as plain values.
pub open spec fn templates_view(t: Seq<(String, String)>) -> Seq<(Seq<char>, Seq<char>)> {
    t.map_values(|p: (String, String)| (p.0@, p.1@))
}

// ---------------------------------------------------------------------------
// Rendering
// ---------------------------------------------------------------------------

/// What minijinja renders for the template `name` among `templates` (names
/// and sources, added in order) with the context `ctx` (its keys in order),
/// or `None` where a template does not parse, `name` is not among them, or
/// rendering fails.
pub uninterp spec fn rendered_page(
    templates: Seq<(Seq<char>, Seq<char>)>,
    name: Seq<char>,
    ctx: Seq<(Seq<char>, FieldView)>,
) -> Option<Seq<char>>;

/// An error of minijinja: a template that does not parse, one that is not
/// there, or a render that fails.
#[verifier::external_type_specification]
#[verifier::external_body]
pub struct ExTemplateError(minijinja::Error);

/// `minijinja::Environment::add_template_owned` for each template, in order,
/// then `get_template(name)` and `Template::render` with the context,
/// converted value for value: a text, a number or a list of texts as the
/// same minijinja value, a record as a map built by `Value::from_pairs`, a
/// list of records as a sequence of such maps. What the page holds is named
/// `rendered_page`; an error leaves it `None`.
#[verifier::external_body]
fn render_template(templates: Vec<(String, String)>, name: &str, ctx: &Vec<(String, Field)>) -> (r:
    Result<String, minijinja::Error>)
    ensures
        match r {
            Ok(h) => rendered_page(templates_view(templates@), name@, context_view(ctx@)) == Some(h@),
            Err(_) => rendered_page(templates_view(templates@), name@, context_view(ctx@)) is None,
        },
{
    let mut env = Environment::new();
    for (n, t) in templates { env.add_template_owned(n, t)?; }
    let leaf = |l: &Leaf| match l {
        Text(s) => Value::from(s),
        Number(n) => n.into(),
        Texts(v) => v.into(),
    };
    let rec = |r: &Record| Value::from_pairs(r.iter().map(|(k, l)| (k, leaf(l))));
    env.get_template(name)?.render(Value::from_pairs(ctx.iter().map(|(k, f)| (k, match f {
        Plain(l) => leaf(l),
        Object(r) => rec(r),
        Objects(rs) => rs.iter().map(rec).collect(),
    }))))
}

/// The message of a minijinja error (its `Display`). Its text is not stated.
#[verifier::external_body]
fn error_text(e: &minijinja::Error) -> String {
    e.to_string()
}

/// A copy of the templates.
fn clone_templates(t: &Vec<(String, String)>) -> (r: Vec<(String, String)>)
    ensures
        templates_view(r@) == templates_view(t@),
{
    let mut r: Vec<(String, String)> = Vec::new();
    let mut i: usize = 0;
    while i < t.len()
        invariant
            i <= t@.len(),
            r@.len() == i,
            forall|k: int| 0 <= k < i ==> #[trigger] r@[k].0@ == t@[k].0@ && r@[k].1@ == t@[k].1@,
        decreases t@.len() - i,
    {
        r.push((t[i].0.clone(), t[i].1.clone()));
        i += 1;
    }
    assert(templates_view(r@) =~= templates_view(t@));
    r
}

/// The page `name` rendered with `ctx`, or minijinja's message.
fn render(templates: &Vec<(String, String)>, name: &str, ctx: &Vec<(String, Field)>) -> (r: Result<
    String,
    String,
>)
    ensures
        match r {
            Ok(h) => rendered_page(templates_view(templates@), name@, context_view(ctx@)) == Some(h@),
            Err(_) => rendered_page(templates_view(templates@), name@, context_view(ctx@)) is None,
        },
{
    match render_template(clone_templates(templates), name, ctx) {
        Ok(h) => Ok(h),
        Err(e) => Err(error_text(&e)),
    }
}

// ---------------------------------------------------------------------------
// Page contexts
// ---------------------------------------------------------------------------

/// What a template sees of a post: slug, title, date (`%Y-%m-%d`), tags,
/// description, reading time and HTML.
pub open spec fn post_fields(p: Post) -> Seq<(Seq<char>, LeafView)> {
    seq![
        ("slug"@, LeafView::Text(p.slug@)),
        ("title"@, LeafView::Text(p.title@)),
        ("date"@, LeafView::Text(iso_date_of(p.date@.0, p.date@.1, p.date@.2))),
        ("tags"@, LeafView::Texts(p.tags@.map_values(|t: String| t@))),
        ("description"@, LeafView::Text(p.description@)),
        ("reading_time"@, LeafView::Number(p.reading_time_min as int)),
        ("html"@, LeafView::Text(p.html@)),
    ]
}

/// What a template sees of the site: title, description, base URL, author.
pub open spec fn site_fields(config: SiteConfig, base: Seq<char>) -> Seq<(Seq<char>, LeafView)> {
    seq![
        ("title"@, LeafView::Text(config.title@)),
        ("description"@, LeafView::Text(config.description@)),
        ("base_url"@, LeafView::Text(base)),
        ("author"@, LeafView::Text(config.author@)),
    ]
}

/// The context of the home page: the site, all posts, the page's URL.
pub open spec fn index_context(config: SiteConfig, base: Seq<char>, posts: Seq<Post>) -> Seq<
    (Seq<char>, FieldView),
> {
    seq![
        ("site"@, FieldView::Object(site_fields(config, base))),
        ("posts"@, FieldView::Objects(posts.map_values(|p: Post| post_fields(p)))),
        ("page_url"@, FieldView::Plain(LeafView::Text(home_url_of(base)))),
    ]
}

/// The context of a post's page: the site, the post, the page's URL.
pub open spec fn post_context(config: SiteConfig, base: Seq<char>, post: Post) -> Seq<
    (Seq<char>, FieldView),
> {
    seq![
        ("site"@, FieldView::Object(site_fields(config, base))),
        ("post"@, FieldView::Object(post_fields(post))),
        ("page_url"@, FieldView::Plain(LeafView::Text(post_url_of(base, post.slug@)))),
    ]
}

/// The context of a tag's page: the site, the tag, its posts, the page's
/// URL.
pub open spec fn tag_context(
    config: SiteConfig,
    base: Seq<char>,
    posts: Seq<Post>,
    tag: Seq<char>,
    tagged: Seq<int>,
) -> Seq<(Seq<char>, FieldView)> {
    seq![
        ("site"@, FieldView::Object(site_fields(config, base))),
        ("tag"@, FieldView::Plain(LeafView::Text(tag))),
        ("posts"@, FieldView::Objects(tagged.map_values(|i: int| post_fields(posts[i])))),
        ("page_url"@, FieldView::Plain(LeafView::Text(tag_url_of(base, tag)))),
    ]
}

// ---------------------------------------------------------------------------
// What templates read
// ---------------------------------------------------------------------------

/// The value that a template reads under `key` in a record: that of the last
/// pair with this key (a map built from pairs keeps the last value of each
/// key), or `None`.
pub open spec fn leaf_of(r: Seq<(Seq<char>, LeafView)>, key: Seq<char>) -> Option<LeafView>
    decreases r.len(),
{
    if r.len() == 0 {
        None
    } else if r.last().0 == key {
        Some(r.last().1)
    } else {
        leaf_of(r.drop_last(), key)
    }
}

/// The value that a template reads under `key` in a context, as
/// [`leaf_of`] does in a record.
pub open spec fn field_of(c: Seq<(Seq<char>, FieldView)>, key: Seq<char>) -> Option<FieldView>
    decreases c.len(),
{
    if c.len() == 0 {
        None
    } else if c.last().0 == key {
        Some(c.last().1)
    } else {
        field_of(c.drop_last(), key)
    }
}

/// A template reading record `r` as a post reads `p`'s own slug, title,
/// date (`YYYY-MM-DD`), tags, description, reading time and HTML.
pub open spec fn shows_post(r: Seq<(Seq<char>, LeafView)>, p: Post) -> bool {
    &&& leaf_of(r, "slug"@) == Some(LeafView::Text(p.slug@))
    &&& leaf_of(r, "title"@) == Some(LeafView::Text(p.title@))
    &&& leaf_of(r, "date"@) == Some(LeafView::Text(iso_date_of(p.date@.0, p.date@.1, p.date@.2)))
    &&& leaf_of(r, "tags"@) == Some(LeafView::Texts(p.tags@.map_values(|t: String| t@)))
    &&& leaf_of(r, "description"@) == Some(LeafView::Text(p.description@))
    &&& leaf_of(r, "reading_time"@) == Some(LeafView::Number(p.reading_time_min as int))
    &&& leaf_of(r, "html"@) == Some(LeafView::Text(p.html@))
}

/// A template reading record `r` as the site reads the site's title,
/// description and author, and `base` as its base URL.
pub open spec fn shows_site(r: Seq<(Seq<char>, LeafView)>, config: SiteConfig, base: Seq<char>) -> bool {
    &&& leaf_of(r, "title"@) == Some(LeafView::Text(config.title@))
    &&& leaf_of(r, "description"@) == Some(LeafView::Text(config.description@))
    &&& leaf_of(r, "base_url"@) == Some(LeafView::Text(base))
    &&& leaf_of(r, "author"@) == Some(LeafView::Text(config.author@))
}

/// A template reading field `f` as a list of posts reads, at each place,
/// the post at that place of `posts`.
pub open spec fn lists_posts(f: Option<FieldView>, posts: Seq<Post>) -> bool {
    &&& f matches Some(FieldView::Objects(rs))
    &&& f->0->Objects_0.len() == posts.len()
    &&& forall|k: int| 0 <= k < posts.len() ==> shows_post(#[trigger] f->0->Objects_0[k], posts[k])
}

/// The keys that templates read, as characters.
proof fn lemma_key_texts()
    ensures
        "slug"@ == seq!['s', 'l', 'u', 'g'],
        "title"@ == seq!['t', 'i', 't', 'l', 'e'],
        "date"@ == seq!['d', 'a', 't', 'e'],
        "tags"@ == seq!['t', 'a', 'g', 's'],
        "description"@ == seq!['d', 'e', 's', 'c', 'r', 'i', 'p', 't', 'i', 'o', 'n'],
        "reading_time"@ == seq!['r', 'e', 'a', 'd', 'i', 'n', 'g', '_', 't', 'i', 'm', 'e'],
        "html"@ == seq!['h', 't', 'm', 'l'],
        "base_url"@ == seq!['b', 'a', 's', 'e', '_', 'u', 'r', 'l'],
        "author"@ == seq!['a', 'u', 't', 'h', 'o', 'r'],
        "site"@ == seq!['s', 'i', 't', 'e'],
        "posts"@ == seq!['p', 'o', 's', 't', 's'],
        "post"@ == seq!['p', 'o', 's', 't'],
        "page_url"@ == seq!['p', 'a', 'g', 'e', '_', 'u', 'r', 'l'],
        "tag"@ == seq!['t', 'a', 'g'],
{
    reveal_strlit("slug");
    reveal_strlit("title");
    reveal_strlit("date");
    reveal_strlit("tags");
    reveal_strlit("description");
    reveal_strlit("reading_time");
    reveal_strlit("html");
    reveal_strlit("base_url");
    reveal_strlit("author");
    reveal_strlit("site");
    reveal_strlit("posts");
    reveal_strlit("post");
    reveal_strlit("page_url");
    reveal_strlit("tag");
    assert("slug"@ =~= seq!['s', 'l', 'u', 'g']);
    assert("title"@ =~= seq!['t', 'i', 't', 'l', 'e']);
    assert("date"@ =~= seq!['d', 'a', 't', 'e']);
    assert("tags"@ =~= seq!['t', 'a', 'g', 's']);
    assert("description"@ =~= seq!['d', 'e', 's', 'c', 'r', 'i', 'p', 't', 'i', 'o', 'n']);
    assert("reading_time"@ =~= seq!['r', 'e', 'a', 'd', 'i', 'n', 'g', '_', 't', 'i', 'm', 'e']);
    assert("html"@ =~= seq!['h', 't', 'm', 'l']);
    assert("base_url"@ =~= seq!['b', 'a', 's', 'e', '_', 'u', 'r', 'l']);
    assert("author"@ =~= seq!['a', 'u', 't', 'h', 'o', 'r']);
    assert("site"@ =~= seq!['s', 'i', 't', 'e']);
    assert("posts"@ =~= seq!['p', 'o', 's', 't', 's']);
    assert("post"@ =~= seq!['p', 'o', 's', 't']);
    assert("page_url"@ =~= seq!['p', 'a', 'g', 'e', '_', 'u', 'r', 'l']);
    assert("tag"@ =~= seq!['t', 'a', 'g']);
}

/// The record a template reads for a post carries that post's own values.
pub proof fn law_post_record_shows_the_post(p: Post)
    ensures
        shows_post(post_fields(p), p),
{
    lemma_key_texts();
    reveal_with_fuel(leaf_of, 8);
    let r = post_fields(p);
    assert(r.drop_last() =~= r.take(6));
    assert(r.drop_last().drop_last() =~= r.take(5));
    assert(r.take(5).drop_last() =~= r.take(4));
    assert(r.take(4).drop_last() =~= r.take(3));
    assert(r.take(3).drop_last() =~= r.take(2));
    assert(r.take(2).drop_last() =~= r.take(1));
}

/// The record a template reads for the site carries the site's own values.
pub proof fn law_site_record_shows_the_site(config: SiteConfig, base: Seq<char>)
    ensures
        shows_site(site_fields(config, base), config, base),
{
    lemma_key_texts();
    reveal_with_fuel(leaf_of, 5);
    let r = site_fields(config, base);
    assert(r.drop_last() =~= r.take(3));
    assert(r.take(3).drop_last() =~= r.take(2));
    assert(r.take(2).drop_last() =~= r.take(1));
}

/// The home page's template reads the site, every post in the given order,
/// each with its own values, and the home page's URL.
pub proof fn law_home_page_shows_every_post(config: SiteConfig, base: Seq<char>, posts: Seq<Post>)
    ensures
        field_of(index_context(config, base, posts), "site"@) == Some(
            FieldView::Object(site_fields(config, base)),
        ),
        shows_site(site_fields(config, base), config, base),
        lists_posts(field_of(index_context(config, base, posts), "posts"@), posts),
        field_of(index_context(config, base, posts), "page_url"@) == Some(
            FieldView::Plain(LeafView::Text(home_url_of(base))),
        ),
{
    lemma_key_texts();
    reveal_with_fuel(field_of, 4);
    let c = index_context(config, base, posts);
    assert(c.drop_last() =~= c.take(2));
    assert(c.take(2).drop_last() =~= c.take(1));
    law_site_record_shows_the_site(config, base);
    let rs = posts.map_values(|p: Post| post_fields(p));
    assert forall|k: int| 0 <= k < posts.len() implies shows_post(#[trigger] rs[k], posts[k]) by {
        law_post_record_shows_the_post(posts[k]);
    }
}

/// A post's page's template reads the site, that post with its own values,
/// and the post's URL.
pub proof fn law_post_page_shows_the_post(config: SiteConfig, base: Seq<char>, post: Post)
    ensures
        field_of(post_context(config, base, post), "site"@) == Some(
            FieldView::Object(site_fields(config, base)),
        ),
        field_of(post_context(config, base, post), "post"@) == Some(
            FieldView::Object(post_fields(post)),
        ),
        shows_post(post_fields(post), post),
        field_of(post_context(config, base, post), "page_url"@) == Some(
            FieldView::Plain(LeafView::Text(post_url_of(base, post.slug@))),
        ),
{
    lemma_key_texts();
    reveal_with_fuel(field_of, 4);
    let c = post_context(config, base, post);
    assert(c.drop_last() =~= c.take(2));
    assert(c.take(2).drop_last() =~= c.take(1));
    law_post_record_shows_the_post(post);
}

/// A tag's page's template reads the site, the tag, the posts at the given
/// places in that order, each with its own values, and the tag's URL.
pub proof fn law_tag_page_shows_its_posts(
    config: SiteConfig,
    base: Seq<char>,
    posts: Seq<Post>,
    tag: Seq<char>,
    tagged: Seq<int>,
)
    requires
        forall|k: int| 0 <= k < tagged.len() ==> 0 <= #[trigger] tagged[k] < posts.len(),
    ensures
        field_of(tag_context(config, base, posts, tag, tagged), "site"@) == Some(
            FieldView::Object(site_fields(config, base)),
        ),
        field_of(tag_context(config, base, posts, tag, tagged), "tag"@) == Some(
            FieldView::Plain(LeafView::Text(tag)),
        ),
        lists_posts(
            field_of(tag_context(config, base, posts, tag, tagged), "posts"@),
            tagged.map_values(|i: int| posts[i]),
        ),
        field_of(tag_context(config, base, posts, tag, tagged), "page_url"@) == Some(
            FieldView::Plain(LeafView::Text(tag_url_of(base, tag))),
        ),
{
    lemma_key_texts();
    reveal_with_fuel(field_of, 5);
    let c = tag_context(config, base, posts, tag, tagged);
    assert(c.drop_last() =~= c.take(3));
    assert(c.take(3).drop_last() =~= c.take(2));
    assert(c.take(2).drop_last() =~= c.take(1));
    let listed = tagged.map_values(|i: int| posts[i]);
    let rs = tagged.map_values(|i: int| post_fields(posts[i]));
    assert forall|k: int| 0 <= k < listed.len() implies shows_post(#[trigger] rs[k], listed[k]) by {
        law_post_record_shows_the_post(posts[tagged[k]]);
    }
}

/// A copy of `v`.
pub fn clone_strings(v: &Vec<String>) -> (r: Vec<String>)
    ensures
        r@.map_values(|t: String| t@) == v@.map_values(|t: String| t@),
{
    let mut r: Vec<String> = Vec::new();
    let mut i: usize = 0;
    while i < v.len()
        invariant
            i <= v@.len(),
            r@.len() == i,
            forall|k: int| 0 <= k < i ==> #[trigger] r@[k]@ == v@[k]@,
        decreases v@.len() - i,
    {
        r.push(v[i].clone());
        i += 1;
    }
    assert(r@.map_values(|t: String| t@) =~= v@.map_values(|t: String| t@));
    r
}

/// A post's fields for a template.
fn post_record(p: &Post) -> (r: Record)
    ensures
        record_view(r@) == post_fields(*p),
{
    let mut r: Record = Vec::new();
    r.push(("slug".to_owned(), Leaf::Text(p.slug.clone())));
    r.push(("title".to_owned(), Leaf::Text(p.title.clone())));
    r.push(("date".to_owned(), Leaf::Text(date_text(&p.date))));
    r.push(("tags".to_owned(), Leaf::Texts(clone_strings(&p.tags))));
    r.push(("description".to_owned(), Leaf::Text(p.description.clone())));
    r.push(("reading_time".to_owned(), Leaf::Number(p.reading_time_min as u64)));
    r.push(("html".to_owned(), Leaf::Text(p.html.clone())));
    assert(record_view(r@) =~= post_fields(*p));
    r
}

/// The site's fields for a template.
fn site_record(config: &SiteConfig, base_url: &str) -> (r: Record)
    ensures
        record_view(r@) == site_fields(*config, base_url@),
{
    let mut r: Record = Vec::new();
    r.push(("title".to_owned(), Leaf::Text(config.title.clone())));
    r.push(("description".to_owned(), Leaf::Text(config.description.clone())));
    r.push(("base_url".to_owned(), Leaf::Text(base_url.to_owned())));
    r.push(("author".to_owned(), Leaf::Text(config.author.clone())));
    assert(record_view(r@) =~= site_fields(*config, base_url@));
    r
}

/// The home page (`index.html`): every post, in the given order.
pub fn render_index_page(
    templates: &Vec<(String, String)>,
    config: &SiteConfig,
    base_url: &str,
    posts: &Vec<Post>,
) -> (r: Result<String, String>)
    ensures
        match r {
            Ok(h) => rendered_page(templates_view(templates@), "index.html"@, index_context(*config, base_url@, posts@)) == Some(h@),
            Err(_) => rendered_page(templates_view(templates@), "index.html"@, index_context(*config, base_url@, posts@)) is None,
        },
{
    let mut list: Vec<Record> = Vec::new();
    let mut i: usize = 0;
    while i < posts.len()
        invariant
            i <= posts@.len(),
            list@.len() == i,
            forall|k: int| 0 <= k < i ==> #[trigger] record_view(list@[k]@) == post_fields(posts@[k]),
        decreases posts@.len() - i,
    {
        list.push(post_record(&posts[i]));
        i += 1;
    }
    let mut ctx: Vec<(String, Field)> = Vec::new();
    ctx.push(("site".to_owned(), Field::Object(site_record(config, base_url))));
    ctx.push(("posts".to_owned(), Field::Objects(list)));
    ctx.push(("page_url".to_owned(), Field::Plain(Leaf::Text(home_url(base_url)))));
    assert(context_view(ctx@) =~= index_context(*config, base_url@, posts@)) by {
        let lv = ctx@[1].1@;
        assert(lv->Objects_0 =~= posts@.map_values(|p: Post| post_fields(p)));
    }
    render(templates, "index.html", &ctx)
}

/// The page of a post (`post.html`).
pub fn render_post_page(
    templates: &Vec<(String, String)>,
    config: &SiteConfig,
    base_url: &str,
    post: &Post,
) -> (r: Result<String, String>)
    ensures
        match r {
            Ok(h) => rendered_page(templates_view(templates@), "post.html"@, post_context(*config, base_url@, *post)) == Some(h@),
            Err(_) => rendered_page(templates_view(templates@), "post.html"@, post_context(*config, base_url@, *post)) is None,
        },
{
    let mut ctx: Vec<(String, Field)> = Vec::new();
    ctx.push(("site".to_owned(), Field::Object(site_record(config, base_url))));
    ctx.push(("post".to_owned(), Field::Object(post_record(post))));
    ctx.push(
        ("page_url".to_owned(), Field::Plain(Leaf::Text(post_url(base_url, post.slug.as_str())))),
    );
    assert(context_view(ctx@) =~= post_context(*config, base_url@, *post));
    render(templates, "post.html", &ctx)
}

/// The page of a tag (`tag.html`): the posts that have it, in order.
pub fn render_tag_page(
    templates: &Vec<(String, String)>,
    config: &SiteConfig,
    base_url: &str,
    posts: &Vec<Post>,
    page: &TagPage,
) -> (r: Result<String, String>)
    requires
        forall|k: int| 0 <= k < page.posts@.len() ==> #[trigger] page.posts@[k] < posts@.len(),
    ensures
        match r {
            Ok(h) => rendered_page(templates_view(templates@), "tag.html"@, tag_context(*config, base_url@, posts@, page.tag@, page.posts@.map_values(|i: usize| i as int))) == Some(h@),
            Err(_) => rendered_page(templates_view(templates@), "tag.html"@, tag_context(*config, base_url@, posts@, page.tag@, page.posts@.map_values(|i: usize| i as int))) is None,
        },
{
    let mut list: Vec<Record> = Vec::new();
    let mut i: usize = 0;
    while i < page.posts.len()
        invariant
            i <= page.posts@.len(),
            forall|k: int| 0 <= k < page.posts@.len() ==> #[trigger] page.posts@[k] < posts@.len(),
            list@.len() == i,
            forall|k: int| 0 <= k < i ==> #[trigger] record_view(list@[k]@) == post_fields(posts@[page.posts@[k] as int]),
        decreases page.posts@.len() - i,
    {
        list.push(post_record(&posts[page.posts[i]]));
        i += 1;
    }
    let mut ctx: Vec<(String, Field)> = Vec::new();
    ctx.push(("site".to_owned(), Field::Object(site_record(config, base_url))));
    ctx.push(("tag".to_owned(), Field::Plain(Leaf::Text(page.tag.clone()))));
    ctx.push(("posts".to_owned(), Field::Objects(list)));
    ctx.push(("page_url".to_owned(), Field::Plain(Leaf::Text(tag_url(base_url, page.tag.as_str())))));
    let ghost tagged = page.posts@.map_values(|i: usize| i as int);
    assert(context_view(ctx@) =~= tag_context(*config, base_url@, posts@, page.tag@, tagged)) by {
        let lv = ctx@[2].1@;
        assert(lv->Objects_0 =~= tagged.map_values(|i: int| post_fields(posts@[i])));
    }
    render(templates, "tag.html", &ctx)
}

} // verus!
