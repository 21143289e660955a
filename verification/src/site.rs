//! The site around the posts: the order of the listing, tag pages, URLs,
//! the RSS feed, the sitemap and the search index entries.
use vstd::prelude::*;

use vstd::string::StringExecFns;

use crate::content::{escape_xml, rfc2822_date, rfc2822_of, xml_escaped, Post};
use crate::search::Entry;
use crate::text::{chars_eq, chars_of, contains, has_prefix, slice_chars, string_from_chars};

verus! {

// ---------------------------------------------------------------------------
// Order of the listing
// ---------------------------------------------------------------------------

/// `a` comes before `b` in code point order (the order of `str`'s `Ord`).
pub open spec fn chars_lt(a: Seq<char>, b: Seq<char>) -> bool
    decreases a.len(),
{
    if a.len() == 0 {
        b.len() > 0
    } else if b.len() == 0 {
        false
    } else if a[0] != b[0] {
        a[0] < b[0]
    } else {
        chars_lt(a.drop_first(), b.drop_first())
    }
}

/// Date `a` is earlier than date `b`.
pub open spec fn date_lt(a: (int, int, int), b: (int, int, int)) -> bool {
    a.0 < b.0 || (a.0 == b.0 && (a.1 < b.1 || (a.1 == b.1 && a.2 < b.2)))
}

/// Post `a` is listed before post `b`: newer posts first, posts of the same
/// day by slug.
pub open spec fn listed_before(a: Post, b: Post) -> bool {
    date_lt(b.date@, a.date@) || (a.date@ == b.date@ && chars_lt(a.slug@, b.slug@))
}

/// Posts of the same date and slug, which the listing keeps in their order.
pub open spec fn same_rank(a: Post, b: Post) -> bool {
    a.date@ == b.date@ && a.slug@ == b.slug@
}

/// In the listing of `posts`, the post at `i` comes before the one at `j`.
pub open spec fn precedes(posts: Seq<Post>, i: int, j: int) -> bool {
    listed_before(posts[i], posts[j]) || (same_rank(posts[i], posts[j]) && i < j)
}

/// `order` lists every index of `posts` once, in listing order: the stable
/// sort of the posts by date, newest first, then by slug.
pub open spec fn is_listing(posts: Seq<Post>, order: Seq<int>) -> bool {
    &&& order.len() == posts.len()
    &&& forall|k: int| 0 <= k < order.len() ==> 0 <= #[trigger] order[k] < posts.len()
    &&& forall|i: int| 0 <= i < posts.len() ==> #[trigger] order.contains(i)
    &&& forall|k: int, l: int|
        0 <= k < l < order.len() ==> precedes(posts, #[trigger] order[k], #[trigger] order[l])
}

pub proof fn lemma_chars_lt_irreflexive(a: Seq<char>)
    ensures
        !chars_lt(a, a),
    decreases a.len(),
{
    if a.len() > 0 {
        lemma_chars_lt_irreflexive(a.drop_first());
    }
}

pub proof fn lemma_chars_lt_transitive(a: Seq<char>, b: Seq<char>, c: Seq<char>)
    requires
        chars_lt(a, b),
        chars_lt(b, c),
    ensures
        chars_lt(a, c),
    decreases a.len(),
{
    if a.len() > 0 && b.len() > 0 && c.len() > 0 && a[0] == b[0] && b[0] == c[0] {
        lemma_chars_lt_transitive(a.drop_first(), b.drop_first(), c.drop_first());
    }
}

pub proof fn lemma_chars_lt_total(a: Seq<char>, b: Seq<char>)
    ensures
        a == b || chars_lt(a, b) || chars_lt(b, a),
    decreases a.len(),
{
    if a.len() > 0 && b.len() > 0 && a[0] == b[0] {
        lemma_chars_lt_total(a.drop_first(), b.drop_first());
        if a.drop_first() == b.drop_first() {
            assert(a =~= seq![a[0]] + a.drop_first());
            assert(b =~= seq![b[0]] + b.drop_first());
        }
    } else if a.len() == 0 && b.len() == 0 {
        assert(a =~= b);
    }
}

/// `precedes` is a strict total order on the indices of the posts.
pub proof fn lemma_precedes_order(posts: Seq<Post>, i: int, j: int, k: int)
    ensures
        !precedes(posts, i, i),
        precedes(posts, i, j) && precedes(posts, j, k) ==> precedes(posts, i, k),
        i != j ==> precedes(posts, i, j) || precedes(posts, j, i),
        precedes(posts, i, j) ==> !precedes(posts, j, i),
{
    lemma_chars_lt_irreflexive(posts[i].slug@);
    lemma_chars_lt_total(posts[i].slug@, posts[j].slug@);
    if chars_lt(posts[i].slug@, posts[j].slug@) && chars_lt(posts[j].slug@, posts[i].slug@) {
        lemma_chars_lt_transitive(posts[i].slug@, posts[j].slug@, posts[i].slug@);
    }
    if precedes(posts, i, j) && precedes(posts, j, k) {
        if chars_lt(posts[i].slug@, posts[j].slug@) && chars_lt(posts[j].slug@, posts[k].slug@) {
            lemma_chars_lt_transitive(posts[i].slug@, posts[j].slug@, posts[k].slug@);
        }
    }
}

/// In the listing, no post is older than a post after it.
pub proof fn law_listing_is_newest_first(posts: Seq<Post>, order: Seq<int>)
    requires
        is_listing(posts, order),
    ensures
        forall|k: int, l: int|
            0 <= k < l < order.len() ==> !date_lt(
                #[trigger] posts[order[k]].date@,
                #[trigger] posts[order[l]].date@,
            ),
{
    assert forall|k: int, l: int| 0 <= k < l < order.len() implies !date_lt(
        #[trigger] posts[order[k]].date@,
        #[trigger] posts[order[l]].date@,
    ) by {
        assert(precedes(posts, order[k], order[l]));
    }
}

/// `a` comes before `b` in code point order.
fn chars_less(a: &Vec<char>, b: &Vec<char>) -> (r: bool)
    ensures
        r == chars_lt(a@, b@),
{
    let mut i: usize = 0;
    assert(a@.skip(0) =~= a@);
    assert(b@.skip(0) =~= b@);
    while i < a.len() && i < b.len() && a[i] == b[i]
        invariant
            i <= a@.len(),
            i <= b@.len(),
            chars_lt(a@, b@) == chars_lt(a@.skip(i as int), b@.skip(i as int)),
        decreases a@.len() - i,
    {
        assert(a@.skip(i as int).drop_first() =~= a@.skip(i + 1));
        assert(b@.skip(i as int).drop_first() =~= b@.skip(i + 1));
        i += 1;
    }
    if i == a.len() {
        i < b.len()
    } else if i == b.len() {
        false
    } else {
        a[i] < b[i]
    }
}

/// Whether post `a` (with the characters `sa` of its slug) is listed before
/// post `b`.
fn is_listed_before(a: &Post, sa: &Vec<char>, b: &Post, sb: &Vec<char>) -> (r: bool)
    requires
        sa@ == a.slug@,
        sb@ == b.slug@,
    ensures
        r == listed_before(*a, *b),
{
    let (ya, ma, da) = (a.date.year(), a.date.month(), a.date.day());
    let (yb, mb, db) = (b.date.year(), b.date.month(), b.date.day());
    if ya != yb {
        return ya > yb;
    }
    if ma != mb {
        return ma > mb;
    }
    if da != db {
        return da > db;
    }
    chars_less(sa, sb)
}

/// The order in which the posts are listed: newest first, posts of the same
/// day by slug, and posts of the same day and slug in their given order.
pub fn listing_order(posts: &Vec<Post>) -> (order: Vec<usize>)
    ensures
        is_listing(posts@, order@.map_values(|i: usize| i as int)),
{
    let n = posts.len();
    let mut slugs: Vec<Vec<char>> = Vec::new();
    let mut i: usize = 0;
    while i < n
        invariant
            n == posts@.len(),
            i <= n,
            slugs@.len() == i,
            forall|k: int| 0 <= k < i ==> #[trigger] slugs@[k]@ == posts@[k].slug@,
        decreases n - i,
    {
        slugs.push(chars_of(posts[i].slug.as_str()));
        i += 1;
    }
    let mut order: Vec<usize> = Vec::new();
    let mut j: usize = 0;
    while j < n
        invariant
            n == posts@.len(),
            slugs@.len() == n,
            forall|k: int| 0 <= k < n ==> #[trigger] slugs@[k]@ == posts@[k].slug@,
            j <= n,
            order@.len() == j,
            forall|k: int| 0 <= k < j ==> #[trigger] order@[k] < j,
            forall|x: int| 0 <= x < j ==> #[trigger] order@.contains(x as usize),
            forall|k: int, l: int|
                0 <= k < l < j ==> precedes(
                    posts@,
                    #[trigger] order@[k] as int,
                    #[trigger] order@[l] as int,
                ),
        decreases n - j,
    {
        // The first place whose post comes after post `j`.
        let mut p: usize = 0;
        while p < j && !is_listed_before(&posts[j], &slugs[j], &posts[order[p]], &slugs[order[p]])
            invariant
                n == posts@.len(),
                slugs@.len() == n,
                forall|k: int| 0 <= k < n ==> #[trigger] slugs@[k]@ == posts@[k].slug@,
                j < n,
                p <= j,
                order@.len() == j,
                forall|k: int| 0 <= k < j ==> #[trigger] order@[k] < j,
                forall|k: int| 0 <= k < p ==> precedes(posts@, #[trigger] order@[k] as int, j as int),
            decreases j - p,
        {
            let ghost o = order@[p as int] as int;
            proof {
                lemma_precedes_order(posts@, o, j as int, o);
            }
            p += 1;
        }
        proof {
            if p < j {
                let op = order@[p as int] as int;
                assert(precedes(posts@, j as int, op));
                assert forall|k: int| p <= k < j implies precedes(posts@, j as int, #[trigger] order@[k] as int) by {
                    if k > p {
                        assert(precedes(posts@, op, order@[k] as int));
                        lemma_precedes_order(posts@, j as int, op, order@[k] as int);
                    }
                }
            }
        }
        let ghost old_order = order@;
        order.insert(p, j);
        assert forall|k: int, l: int| 0 <= k < l < j + 1 implies precedes(
            posts@,
            #[trigger] order@[k] as int,
            #[trigger] order@[l] as int,
        ) by {
            if l < p {
                assert(order@[k] == old_order[k] && order@[l] == old_order[l]);
            } else if l == p {
                assert(order@[k] == old_order[k]);
            } else if k == p {
                assert(order@[l] == old_order[l - 1]);
            } else if k < p {
                assert(order@[k] == old_order[k] && order@[l] == old_order[l - 1]);
            } else {
                assert(order@[k] == old_order[k - 1] && order@[l] == old_order[l - 1]);
            }
        }
        assert forall|x: int| 0 <= x < j + 1 implies #[trigger] order@.contains(x as usize) by {
            if x == j {
                assert(order@[p as int] == j);
            } else {
                assert(old_order.contains(x as usize));
                let k = choose|k: int| 0 <= k < old_order.len() && old_order[k] == x as usize;
                if k < p {
                    assert(order@[k] == x as usize);
                } else {
                    assert(order@[k + 1] == x as usize);
                }
            }
        }
        assert forall|k: int| 0 <= k < j + 1 implies #[trigger] order@[k] < j + 1 by {
            if k < p {
                assert(order@[k] == old_order[k]);
            } else if k > p {
                assert(order@[k] == old_order[k - 1]);
            }
        }
        j += 1;
    }
    let ghost m = order@.map_values(|i: usize| i as int);
    assert forall|i: int| 0 <= i < n implies #[trigger] m.contains(i) by {
        assert(order@.contains(i as usize));
        let k = choose|k: int| 0 <= k < order@.len() && order@[k] == i as usize;
        assert(m[k] == i);
    }
    order
}

/// The posts in listing order: newest first, posts of the same day by slug,
/// posts of the same day and slug in their given order.
pub fn sort_posts(posts: Vec<Post>) -> (r: Vec<Post>)
    ensures
        exists|order: Seq<int>|
            is_listing(posts@, order) && r@ == order.map_values(|i: int| posts@[i]),
{
    let order = listing_order(&posts);
    let ghost orig = posts@;
    let ghost om = order@.map_values(|i: usize| i as int);
    let n = posts.len();
    let mut rest = posts;
    let mut slots: Vec<Option<Post>> = Vec::new();
    while rest.len() > 0
        invariant
            n == orig.len(),
            rest@ == orig.take(rest@.len() as int),
            slots@.len() + rest@.len() == n,
            forall|k: int| 0 <= k < slots@.len() ==> #[trigger] slots@[k] == Some(orig[n - 1 - k]),
        decreases rest@.len(),
    {
        let ghost before = rest@;
        let p = rest.pop().unwrap();
        assert(rest@ =~= orig.take(rest@.len() as int));
        slots.push(Some(p));
    }
    let mut out: Vec<Post> = Vec::new();
    let mut k: usize = 0;
    while k < n
        invariant
            n == orig.len(),
            is_listing(orig, om),
            om == order@.map_values(|i: usize| i as int),
            order@.len() == n,
            slots@.len() == n,
            k <= n,
            out@ == om.take(k as int).map_values(|i: int| orig[i]),
            forall|i: int|
                0 <= i < n && !om.take(k as int).contains(i) ==> #[trigger] slots@[n - 1 - i]
                    == Some(orig[i]),
        decreases n - k,
    {
        let i = order[k];
        assert(om[k as int] == i as int);
        assert(!om.take(k as int).contains(i as int)) by {
            if om.take(k as int).contains(i as int) {
                let l = choose|l: int| 0 <= l < k && om.take(k as int)[l] == i as int;
                assert(precedes(orig, om[l], om[k as int]));
                lemma_precedes_order(orig, i as int, i as int, i as int);
            }
        }
        let ghost old_slots = slots@;
        let slot = slots[n - 1 - i].take();
        assert(om.take(k + 1) =~= om.take(k as int).push(i as int));
        assert forall|x: int|
            0 <= x < n && !om.take(k + 1).contains(x) implies #[trigger] slots@[n - 1 - x]
                == Some(orig[x]) by {
            assert(om.take(k + 1)[k as int] == i as int);
            assert(x != i);
            if om.take(k as int).contains(x) {
                let l = choose|l: int| 0 <= l < k && om.take(k as int)[l] == x;
                assert(om.take(k + 1)[l] == x);
            }
            assert(slots@[n - 1 - x] == old_slots[n - 1 - x]);
        }
        let p = match slot {
            Some(p) => p,
            None => {
                assert(false);
                return out;
            },
        };
        let ghost before = out@;
        out.push(p);
        assert(om.take(k + 1) =~= om.take(k as int).push(i as int));
        assert(out@ =~= om.take(k + 1).map_values(|i: int| orig[i]));
        k += 1;
    }
    assert(om.take(n as int) =~= om);
    out
}


// ---------------------------------------------------------------------------
// Site configuration and URLs
// ---------------------------------------------------------------------------

/// The site's settings (`blog.toml`).
pub struct SiteConfig {
    pub title: String,
    pub description: String,
    /// The production URL of the site, such as `https://example.com`.
    pub base_url: String,
    pub author: String,
}

/// `s` without the copies of `c` it ends with.
pub open spec fn trim_end_char(s: Seq<char>, c: char) -> Seq<char>
    decreases s.len(),
{
    if s.len() > 0 && s.last() == c {
        trim_end_char(s.drop_last(), c)
    } else {
        s
    }
}

/// The base URL that page URLs start with: the configured one without
/// trailing slashes.
pub fn normalize_base_url(base_url: &str) -> (r: String)
    ensures
        r@ == trim_end_char(base_url@, '/'),
{
    let v = chars_of(base_url);
    let mut hi: usize = v.len();
    assert(v@.subrange(0, hi as int) =~= v@);
    while hi > 0 && v[hi - 1] == '/'
        invariant
            hi <= v@.len(),
            trim_end_char(v@, '/') == trim_end_char(v@.subrange(0, hi as int), '/'),
        decreases hi,
    {
        assert(v@.subrange(0, hi as int).drop_last() =~= v@.subrange(0, hi - 1));
        hi -= 1;
    }
    let t = slice_chars(&v, 0, hi);
    string_from_chars(&t)
}

/// The URL of the home page.
pub open spec fn home_url_of(base: Seq<char>) -> Seq<char> {
    base + "/"@
}

/// The URL of the page of the post `slug`.
pub open spec fn post_url_of(base: Seq<char>, slug: Seq<char>) -> Seq<char> {
    base + "/posts/"@ + slug + "/"@
}

/// The URL of the page of the tag `tag`.
pub open spec fn tag_url_of(base: Seq<char>, tag: Seq<char>) -> Seq<char> {
    base + "/tags/"@ + tag + "/"@
}

/// The URL of the home page: `{base_url}/`.
pub fn home_url(base_url: &str) -> (r: String)
    ensures
        r@ == home_url_of(base_url@),
{
    let mut r = base_url.to_owned();
    r.append("/");
    r
}

/// The URL of a post's page: `{base_url}/posts/{slug}/`.
pub fn post_url(base_url: &str, slug: &str) -> (r: String)
    ensures
        r@ == post_url_of(base_url@, slug@),
{
    let mut r = base_url.to_owned();
    r.append("/posts/");
    r.append(slug);
    r.append("/");
    r
}

/// The URL of a tag's page: `{base_url}/tags/{tag}/`.
pub fn tag_url(base_url: &str, tag: &str) -> (r: String)
    ensures
        r@ == tag_url_of(base_url@, tag@),
{
    let mut r = base_url.to_owned();
    r.append("/tags/");
    r.append(tag);
    r.append("/");
    r
}

// ---------------------------------------------------------------------------
// RSS feed
// ---------------------------------------------------------------------------

/// The most posts that the feed lists.
pub open spec fn feed_len() -> int {
    20
}

/// The feed item of post `p`.
pub open spec fn feed_item(base: Seq<char>, p: Post) -> Seq<char> {
    let url = post_url_of(base, p.slug@);
    "  <item>\n    <title>"@ + xml_escaped(p.title@) + "</title>\n    <link>"@ + url
        + "</link>\n    <guid>"@ + url + "</guid>\n    <pubDate>"@ + rfc2822_of(
        p.date@.0,
        p.date@.1,
        p.date@.2,
    ) + "</pubDate>\n    <description>"@ + xml_escaped(p.description@)
        + "</description>\n  </item>\n"@
}

/// The feed items of `posts`, in order.
pub open spec fn feed_items(base: Seq<char>, posts: Seq<Post>) -> Seq<char>
    decreases posts.len(),
{
    if posts.len() == 0 {
        seq![]
    } else {
        feed_items(base, posts.drop_last()) + feed_item(base, posts.last())
    }
}

/// The RSS feed of the site: its title, link and description, then the
/// first twenty posts.
pub open spec fn feed_of(title: Seq<char>, description: Seq<char>, base: Seq<char>, posts: Seq<Post>) -> Seq<char> {
    let n = if posts.len() < feed_len() {
        posts.len() as int
    } else {
        feed_len()
    };
    "<?xml version=\"1.0\" encoding=\"UTF-8\"?>\n<rss version=\"2.0\"><channel>\n  <title>"@
        + xml_escaped(title) + "</title>\n  <link>"@ + base + "/</link>\n  <description>"@
        + xml_escaped(description) + "</description>\n"@ + feed_items(base, posts.take(n))
        + "</channel></rss>\n"@
}

/// The RSS 2.0 feed (`feed.xml`) of the site: the first twenty posts.
pub fn feed_xml(config: &SiteConfig, base_url: &str, posts: &Vec<Post>) -> (r: String)
    ensures
        r@ == feed_of(config.title@, config.description@, base_url@, posts@),
{
    let n: usize = if posts.len() < 20 {
        posts.len()
    } else {
        20
    };
    let ghost b = base_url@;
    let mut items = String::new();
    let mut i: usize = 0;
    while i < n
        invariant
            n <= posts@.len(),
            i <= n,
            b == base_url@,
            items@ == feed_items(b, posts@.take(i as int)),
        decreases n - i,
    {
        let p = &posts[i];
        let url = post_url(base_url, p.slug.as_str());
        let ghost before = items@;
        items.append("  <item>\n    <title>");
        items.append(escape_xml(p.title.as_str()).as_str());
        items.append("</title>\n    <link>");
        items.append(url.as_str());
        items.append("</link>\n    <guid>");
        items.append(url.as_str());
        items.append("</guid>\n    <pubDate>");
        items.append(rfc2822_date(&p.date).as_str());
        items.append("</pubDate>\n    <description>");
        items.append(escape_xml(p.description.as_str()).as_str());
        items.append("</description>\n  </item>\n");
        assert(posts@.take(i + 1).drop_last() =~= posts@.take(i as int));
        assert(posts@.take(i + 1).last() == posts@[i as int]);
        assert(items@ =~= before + feed_item(b, posts@[i as int]));
        i += 1;
    }
    let mut r = "<?xml version=\"1.0\" encoding=\"UTF-8\"?>\n<rss version=\"2.0\"><channel>\n  <title>".to_owned();
    r.append(escape_xml(config.title.as_str()).as_str());
    r.append("</title>\n  <link>");
    r.append(base_url);
    r.append("/</link>\n  <description>");
    r.append(escape_xml(config.description.as_str()).as_str());
    r.append("</description>\n");
    r.append(items.as_str());
    r.append("</channel></rss>\n");
    assert(r@ =~= feed_of(config.title@, config.description@, base_url@, posts@));
    r
}

/// The feed shows the site's description XML-escaped, inside the channel's
/// `<description>`: two feeds that differ only in the description differ
/// only there, each holding its own description escaped.
pub proof fn law_feed_escapes_the_description(
    title: Seq<char>,
    d1: Seq<char>,
    d2: Seq<char>,
    base: Seq<char>,
    posts: Seq<Post>,
)
    ensures
        exists|pre: Seq<char>, tail: Seq<char>|
            {
                &&& feed_of(title, d1, base, posts) == pre + "<description>"@ + xml_escaped(d1) + tail
                &&& feed_of(title, d2, base, posts) == pre + "<description>"@ + xml_escaped(d2) + tail
                &&& has_prefix(tail, "</description>"@)
            },
{
    reveal_strlit("/</link>\n  <description>");
    reveal_strlit("/</link>\n  ");
    reveal_strlit("<description>");
    reveal_strlit("</description>\n");
    reveal_strlit("</description>");
    let n = if posts.len() < feed_len() {
        posts.len() as int
    } else {
        feed_len()
    };
    let pre = "<?xml version=\"1.0\" encoding=\"UTF-8\"?>\n<rss version=\"2.0\"><channel>\n  <title>"@
        + xml_escaped(title) + "</title>\n  <link>"@ + base + "/</link>\n  "@;
    let tail = "</description>\n"@ + feed_items(base, posts.take(n)) + "</channel></rss>\n"@;
    assert("/</link>\n  <description>"@ =~= "/</link>\n  "@ + "<description>"@);
    assert(feed_of(title, d1, base, posts) =~= pre + "<description>"@ + xml_escaped(d1) + tail);
    assert(feed_of(title, d2, base, posts) =~= pre + "<description>"@ + xml_escaped(d2) + tail);
    assert(tail.subrange(0, "</description>"@.len() as int) =~= "</description>"@);
}

/// The feed shows the site's title XML-escaped, inside the channel's
/// `<title>`: two feeds that differ only in the title differ only there,
/// each holding its own title escaped.
pub proof fn law_feed_escapes_the_title(
    t1: Seq<char>,
    t2: Seq<char>,
    description: Seq<char>,
    base: Seq<char>,
    posts: Seq<Post>,
)
    ensures
        exists|pre: Seq<char>, tail: Seq<char>|
            {
                &&& feed_of(t1, description, base, posts) == pre + "<title>"@ + xml_escaped(t1) + tail
                &&& feed_of(t2, description, base, posts) == pre + "<title>"@ + xml_escaped(t2) + tail
                &&& has_prefix(tail, "</title>"@)
            },
{
    let head = "<?xml version=\"1.0\" encoding=\"UTF-8\"?>\n<rss version=\"2.0\"><channel>\n  <title>";
    let lead = "<?xml version=\"1.0\" encoding=\"UTF-8\"?>\n<rss version=\"2.0\"><channel>\n  ";
    reveal_strlit("<?xml version=\"1.0\" encoding=\"UTF-8\"?>\n<rss version=\"2.0\"><channel>\n  <title>");
    reveal_strlit("<?xml version=\"1.0\" encoding=\"UTF-8\"?>\n<rss version=\"2.0\"><channel>\n  ");
    reveal_strlit("<title>");
    reveal_strlit("</title>\n  <link>");
    reveal_strlit("</title>");
    let n = if posts.len() < feed_len() {
        posts.len() as int
    } else {
        feed_len()
    };
    let tail = "</title>\n  <link>"@ + base + "/</link>\n  <description>"@ + xml_escaped(description)
        + "</description>\n"@ + feed_items(base, posts.take(n)) + "</channel></rss>\n"@;
    assert(head@ =~= lead@ + "<title>"@);
    assert(feed_of(t1, description, base, posts) =~= lead@ + "<title>"@ + xml_escaped(t1) + tail);
    assert(feed_of(t2, description, base, posts) =~= lead@ + "<title>"@ + xml_escaped(t2) + tail);
    assert(tail.subrange(0, "</title>"@.len() as int) =~= "</title>"@);
}

/// A post's feed item shows the post's title and description XML-escaped,
/// inside `<title>` and `<description>`: the items of two posts with the
/// same slug and date differ only there, each holding its own texts escaped.
pub proof fn law_feed_item_escapes_post_text(base: Seq<char>, p1: Post, p2: Post)
    requires
        p1.slug@ == p2.slug@,
        p1.date@ == p2.date@,
    ensures
        exists|pre: Seq<char>, mid: Seq<char>, tail: Seq<char>|
            {
                &&& feed_item(base, p1) == pre + "<title>"@ + xml_escaped(p1.title@) + mid
                    + "<description>"@ + xml_escaped(p1.description@) + tail
                &&& feed_item(base, p2) == pre + "<title>"@ + xml_escaped(p2.title@) + mid
                    + "<description>"@ + xml_escaped(p2.description@) + tail
                &&& has_prefix(mid, "</title>"@)
                &&& has_prefix(tail, "</description>"@)
            },
{
    reveal_strlit("  <item>\n    <title>");
    reveal_strlit("  <item>\n    ");
    reveal_strlit("<title>");
    reveal_strlit("</pubDate>\n    <description>");
    reveal_strlit("</pubDate>\n    ");
    reveal_strlit("<description>");
    reveal_strlit("</title>\n    <link>");
    reveal_strlit("</title>");
    reveal_strlit("</description>\n  </item>\n");
    reveal_strlit("</description>");
    let url = post_url_of(base, p1.slug@);
    let date = rfc2822_of(p1.date@.0, p1.date@.1, p1.date@.2);
    let pre = "  <item>\n    "@;
    let mid = "</title>\n    <link>"@ + url + "</link>\n    <guid>"@ + url + "</guid>\n    <pubDate>"@
        + date + "</pubDate>\n    "@;
    let tail = "</description>\n  </item>\n"@;
    assert("  <item>\n    <title>"@ =~= pre + "<title>"@);
    assert("</pubDate>\n    <description>"@ =~= "</pubDate>\n    "@ + "<description>"@);
    assert(feed_item(base, p1) =~= pre + "<title>"@ + xml_escaped(p1.title@) + mid + "<description>"@
        + xml_escaped(p1.description@) + tail);
    assert(feed_item(base, p2) =~= pre + "<title>"@ + xml_escaped(p2.title@) + mid + "<description>"@
        + xml_escaped(p2.description@) + tail);
    assert(mid.subrange(0, "</title>"@.len() as int) =~= "</title>"@);
    assert(tail.subrange(0, "</description>"@.len() as int) =~= "</description>"@);
}

/// The items of a list of posts hold the item of each of them.
proof fn lemma_feed_items_hold(base: Seq<char>, posts: Seq<Post>, k: int)
    requires
        0 <= k < posts.len(),
    ensures
        exists|a: Seq<char>, b: Seq<char>| feed_items(base, posts) == a + feed_item(base, posts[k]) + b,
    decreases posts.len(),
{
    let init = posts.drop_last();
    if k == posts.len() - 1 {
        assert(feed_items(base, posts) =~= feed_items(base, init) + feed_item(base, posts[k])
            + Seq::<char>::empty());
    } else {
        lemma_feed_items_hold(base, init, k);
        assert(init[k] == posts[k]);
        let (a, b) = choose|a: Seq<char>, b: Seq<char>|
            feed_items(base, init) == a + feed_item(base, init[k]) + b;
        assert(feed_items(base, posts) =~= a + feed_item(base, posts[k]) + (b + feed_item(
            base,
            posts.last(),
        )));
    }
}

/// The feed holds the item of each of the first twenty posts.
pub proof fn law_feed_lists_the_first_twenty(
    title: Seq<char>,
    description: Seq<char>,
    base: Seq<char>,
    posts: Seq<Post>,
)
    ensures
        forall|k: int|
            0 <= k < posts.len() && k < 20 ==> contains(
                feed_of(title, description, base, posts),
                feed_item(base, #[trigger] posts[k]),
            ),
{
    let n = if posts.len() < feed_len() {
        posts.len() as int
    } else {
        feed_len()
    };
    let listed = posts.take(n);
    let head = "<?xml version=\"1.0\" encoding=\"UTF-8\"?>\n<rss version=\"2.0\"><channel>\n  <title>"@
        + xml_escaped(title) + "</title>\n  <link>"@ + base + "/</link>\n  <description>"@
        + xml_escaped(description) + "</description>\n"@;
    let f = feed_of(title, description, base, posts);
    assert forall|k: int| 0 <= k < posts.len() && k < 20 implies contains(
        f,
        feed_item(base, #[trigger] posts[k]),
    ) by {
        lemma_feed_items_hold(base, listed, k);
        assert(listed[k] == posts[k]);
        let (a, b) = choose|a: Seq<char>, b: Seq<char>|
            feed_items(base, listed) == a + feed_item(base, listed[k]) + b;
        let e = feed_item(base, posts[k]);
        assert(f =~= (head + a) + e + (b + "</channel></rss>\n"@));
        let i = (head.len() + a.len()) as int;
        assert(f.subrange(i, i + e.len()) =~= e);
    }
}

// ---------------------------------------------------------------------------
// Sitemap
// ---------------------------------------------------------------------------

/// The URLs that the sitemap lists: the home page, the posts, the tags.
pub open spec fn sitemap_urls(base: Seq<char>, posts: Seq<Post>, tags: Seq<Seq<char>>) -> Seq<Seq<char>> {
    seq![home_url_of(base)] + posts.map_values(|p: Post| post_url_of(base, p.slug@)) + tags.map_values(
        |t: Seq<char>| tag_url_of(base, t),
    )
}

/// The sitemap entries of `urls`, in order.
pub open spec fn sitemap_entries(urls: Seq<Seq<char>>) -> Seq<char>
    decreases urls.len(),
{
    if urls.len() == 0 {
        seq![]
    } else {
        sitemap_entries(urls.drop_last()) + "  <url><loc>"@ + xml_escaped(urls.last())
            + "</loc></url>\n"@
    }
}

/// The sitemap of the site.
pub open spec fn sitemap_of(base: Seq<char>, posts: Seq<Post>, tags: Seq<Seq<char>>) -> Seq<char> {
    "<?xml version=\"1.0\" encoding=\"UTF-8\"?>\n<urlset xmlns=\"http://www.sitemaps.org/schemas/sitemap/0.9\">\n"@
        + sitemap_entries(sitemap_urls(base, posts, tags)) + "</urlset>\n"@
}

/// The sitemap (`sitemap.xml`): the home page, each post and each tag page.
pub fn sitemap_xml(base_url: &str, posts: &Vec<Post>, tags: &Vec<String>) -> (r: String)
    ensures
        r@ == sitemap_of(base_url@, posts@, tags@.map_values(|t: String| t@)),
{
    let mut urls: Vec<String> = Vec::new();
    urls.push(home_url(base_url));
    let mut i: usize = 0;
    while i < posts.len()
        invariant
            i <= posts@.len(),
            urls@.len() == i + 1,
            urls@[0]@ == home_url_of(base_url@),
            forall|k: int| 0 <= k < i ==> #[trigger] urls@[k + 1]@ == post_url_of(base_url@, posts@[k].slug@),
        decreases posts@.len() - i,
    {
        urls.push(post_url(base_url, posts[i].slug.as_str()));
        i += 1;
    }
    let mut j: usize = 0;
    while j < tags.len()
        invariant
            j <= tags@.len(),
            urls@.len() == posts@.len() + 1 + j,
            urls@[0]@ == home_url_of(base_url@),
            forall|k: int| 0 <= k < posts@.len() ==> #[trigger] urls@[k + 1]@ == post_url_of(base_url@, posts@[k].slug@),
            forall|k: int| 0 <= k < j ==> #[trigger] urls@[k + 1 + posts@.len()]@ == tag_url_of(base_url@, tags@[k]@),
        decreases tags@.len() - j,
    {
        urls.push(tag_url(base_url, tags[j].as_str()));
        j += 1;
    }
    let ghost uv = urls@.map_values(|u: String| u@);
    let ghost want = sitemap_urls(base_url@, posts@, tags@.map_values(|t: String| t@));
    assert(uv =~= want) by {
        assert forall|k: int| 0 <= k < uv.len() implies uv[k] == want[k] by {
            if k == 0 {
            } else if k <= posts@.len() {
                assert(urls@[(k - 1) + 1]@ == post_url_of(base_url@, posts@[k - 1].slug@));
            } else {
                let t = k - 1 - posts@.len();
                assert(urls@[t + 1 + posts@.len()]@ == tag_url_of(base_url@, tags@[t]@));
            }
        }
    }
    let mut body = String::new();
    let mut k: usize = 0;
    while k < urls.len()
        invariant
            k <= urls@.len(),
            uv == urls@.map_values(|u: String| u@),
            body@ == sitemap_entries(uv.take(k as int)),
        decreases urls@.len() - k,
    {
        let ghost before = body@;
        body.append("  <url><loc>");
        body.append(escape_xml(urls[k].as_str()).as_str());
        body.append("</loc></url>\n");
        assert(uv.take(k + 1).drop_last() =~= uv.take(k as int));
        assert(uv.take(k + 1).last() == uv[k as int]);
        assert(body@ =~= sitemap_entries(uv.take(k + 1)));
        k += 1;
    }
    assert(uv.take(k as int) =~= uv);
    let mut r = "<?xml version=\"1.0\" encoding=\"UTF-8\"?>\n<urlset xmlns=\"http://www.sitemaps.org/schemas/sitemap/0.9\">\n".to_owned();
    r.append(body.as_str());
    r.append("</urlset>\n");
    assert(r@ =~= sitemap_of(base_url@, posts@, tags@.map_values(|t: String| t@)));
    r
}

/// The sitemap entry of `url`.
pub open spec fn sitemap_entry(url: Seq<char>) -> Seq<char> {
    "  <url><loc>"@ + xml_escaped(url) + "</loc></url>\n"@
}

/// The entries of a list of URLs hold the entry of each of them.
proof fn lemma_sitemap_entries_hold(urls: Seq<Seq<char>>, k: int)
    requires
        0 <= k < urls.len(),
    ensures
        exists|a: Seq<char>, b: Seq<char>| sitemap_entries(urls) == a + sitemap_entry(urls[k]) + b,
    decreases urls.len(),
{
    let init = urls.drop_last();
    let last = "  <url><loc>"@ + xml_escaped(urls.last()) + "</loc></url>\n"@;
    assert(sitemap_entries(urls) == sitemap_entries(init) + "  <url><loc>"@ + xml_escaped(urls.last())
        + "</loc></url>\n"@);
    assert(sitemap_entries(urls) =~= sitemap_entries(init) + last);
    if k == urls.len() - 1 {
        assert(sitemap_entries(urls) =~= sitemap_entries(init) + sitemap_entry(urls[k])
            + Seq::<char>::empty());
    } else {
        lemma_sitemap_entries_hold(init, k);
        assert(init[k] == urls[k]);
        let (a, b) = choose|a: Seq<char>, b: Seq<char>|
            sitemap_entries(init) == a + sitemap_entry(init[k]) + b;
        assert(sitemap_entries(urls) =~= a + sitemap_entry(urls[k]) + (b + last));
    }
}

/// The sitemap text holds the entry of each of its URLs.
proof fn lemma_sitemap_holds(base: Seq<char>, posts: Seq<Post>, tags: Seq<Seq<char>>, k: int)
    requires
        0 <= k < sitemap_urls(base, posts, tags).len(),
    ensures
        contains(sitemap_of(base, posts, tags), sitemap_entry(sitemap_urls(base, posts, tags)[k])),
{
    let urls = sitemap_urls(base, posts, tags);
    lemma_sitemap_entries_hold(urls, k);
    let (a, b) = choose|a: Seq<char>, b: Seq<char>| sitemap_entries(urls) == a + sitemap_entry(urls[k]) + b;
    let head = "<?xml version=\"1.0\" encoding=\"UTF-8\"?>\n<urlset xmlns=\"http://www.sitemaps.org/schemas/sitemap/0.9\">\n"@;
    let e = sitemap_entry(urls[k]);
    let h = sitemap_of(base, posts, tags);
    assert(h =~= (head + a) + e + (b + "</urlset>\n"@));
    let i = (head.len() + a.len()) as int;
    assert(h.subrange(i, i + e.len()) =~= e);
}

/// The sitemap lists the home page, every post and every tag page, one
/// entry each: `1 + posts + tags` URLs, and for each of them the text holds
/// its `<url><loc>` entry, the URL XML-escaped.
pub proof fn law_sitemap_lists_every_page(base: Seq<char>, posts: Seq<Post>, tags: Seq<Seq<char>>)
    ensures
        sitemap_urls(base, posts, tags).len() == 1 + posts.len() + tags.len(),
        contains(sitemap_of(base, posts, tags), sitemap_entry(home_url_of(base))),
        forall|k: int|
            0 <= k < posts.len() ==> contains(
                sitemap_of(base, posts, tags),
                sitemap_entry(post_url_of(base, #[trigger] posts[k].slug@)),
            ),
        forall|k: int|
            0 <= k < tags.len() ==> contains(
                sitemap_of(base, posts, tags),
                sitemap_entry(tag_url_of(base, #[trigger] tags[k])),
            ),
{
    let urls = sitemap_urls(base, posts, tags);
    assert(urls.len() == 1 + posts.len() + tags.len());
    lemma_sitemap_holds(base, posts, tags, 0);
    assert(urls[0] == home_url_of(base));
    assert forall|k: int| 0 <= k < posts.len() implies contains(
        sitemap_of(base, posts, tags),
        sitemap_entry(post_url_of(base, #[trigger] posts[k].slug@)),
    ) by {
        lemma_sitemap_holds(base, posts, tags, k + 1);
        assert(urls[k + 1] == post_url_of(base, posts[k].slug@));
    }
    assert forall|k: int| 0 <= k < tags.len() implies contains(
        sitemap_of(base, posts, tags),
        sitemap_entry(tag_url_of(base, #[trigger] tags[k])),
    ) by {
        lemma_sitemap_holds(base, posts, tags, k + 1 + posts.len());
        assert(urls[k + 1 + posts.len()] == tag_url_of(base, tags[k]));
    }
}

// ---------------------------------------------------------------------------
// Search index
// ---------------------------------------------------------------------------

/// The most characters of a post's plain text that the search index keeps.
pub open spec fn index_body_len() -> int {
    5000
}

/// The search index entry of `p`: its slug, title, description and tags,
/// and the first 5000 characters of its plain text.
pub fn index_entry(p: &Post) -> (e: Entry)
    ensures
        e.slug@ == p.slug@,
        e.title@ == p.title@,
        e.description@ == p.description@,
        e.tags@.map_values(|t: String| t@) == p.tags@.map_values(|t: String| t@),
        e.body@ == p.plain_text@.take(
            if p.plain_text@.len() < index_body_len() {
                p.plain_text@.len() as int
            } else {
                index_body_len()
            },
        ),
{
    let mut tags: Vec<String> = Vec::new();
    let mut i: usize = 0;
    while i < p.tags.len()
        invariant
            i <= p.tags@.len(),
            tags@.len() == i,
            forall|k: int| 0 <= k < i ==> #[trigger] tags@[k]@ == p.tags@[k]@,
        decreases p.tags@.len() - i,
    {
        tags.push(p.tags[i].clone());
        i += 1;
    }
    assert(tags@.map_values(|t: String| t@) =~= p.tags@.map_values(|t: String| t@));
    let text = chars_of(p.plain_text.as_str());
    let n: usize = if text.len() < 5000 {
        text.len()
    } else {
        5000
    };
    let body = slice_chars(&text, 0, n);
    assert(body@ =~= p.plain_text@.take(n as int));
    Entry {
        slug: p.slug.clone(),
        title: p.title.clone(),
        description: p.description.clone(),
        tags,
        body: string_from_chars(&body),
    }
}


// ---------------------------------------------------------------------------
// Tag pages
// ---------------------------------------------------------------------------

/// Each tag of each post, with the post's index, posts in order and each
/// post's tags in order (a tag listed twice occurs twice).
pub open spec fn occurrences(posts: Seq<Post>) -> Seq<(int, Seq<char>)>
    decreases posts.len(),
{
    if posts.len() == 0 {
        seq![]
    } else {
        occurrences(posts.drop_last()) + posts.last().tags@.map_values(
            |t: String| ((posts.len() - 1) as int, t@),
        )
    }
}

/// The posts that tag occurrences `occ` give the tag `t`, in order, once
/// per occurrence.
pub open spec fn posts_tagged(occ: Seq<(int, Seq<char>)>, t: Seq<char>) -> Seq<int>
    decreases occ.len(),
{
    if occ.len() == 0 {
        seq![]
    } else {
        posts_tagged(occ.drop_last(), t) + if occ.last().1 == t {
            seq![occ.last().0]
        } else {
            seq![]
        }
    }
}

/// `pages` are the tag pages of `posts`: one for each tag that some post
/// has, in code point order of the tags, each listing the posts with that
/// tag in listing order (a post once per time it names the tag).
pub open spec fn is_tag_pages(posts: Seq<Post>, pages: Seq<(Seq<char>, Seq<int>)>) -> bool {
    &&& forall|k: int, l: int| 0 <= k < l < pages.len() ==> chars_lt(#[trigger] pages[k].0, #[trigger] pages[l].0)
    &&& forall|k: int| 0 <= k < pages.len() ==> #[trigger] pages[k].1 == posts_tagged(occurrences(posts), pages[k].0)
    &&& forall|k: int| 0 <= k < pages.len() ==> #[trigger] pages[k].1.len() > 0
    &&& forall|o: int| 0 <= o < occurrences(posts).len() ==> has_page(pages, #[trigger] occurrences(posts)[o].1)
}

/// One of `pages` is the page of tag `t`.
pub open spec fn has_page(pages: Seq<(Seq<char>, Seq<int>)>, t: Seq<char>) -> bool {
    exists|k: int| 0 <= k < pages.len() && #[trigger] pages[k].0 == t
}

proof fn lemma_occurrence_of(posts: Seq<Post>, i: int, j: int)
    requires
        0 <= i < posts.len(),
        0 <= j < posts[i].tags@.len(),
    ensures
        exists|o: int| 0 <= o < occurrences(posts).len() && #[trigger] occurrences(posts)[o] == (i, posts[i].tags@[j]@),
    decreases posts.len(),
{
    let occ = occurrences(posts);
    let init = posts.drop_last();
    let prev = occurrences(init);
    let chunk = posts.last().tags@.map_values(|t: String| ((posts.len() - 1) as int, t@));
    assert(occ == prev + chunk);
    if i == posts.len() - 1 {
        let o = prev.len() + j;
        assert(occ[o] == chunk[j]);
    } else {
        assert(init[i] == posts[i]);
        lemma_occurrence_of(init, i, j);
        let o = choose|o: int| 0 <= o < prev.len() && #[trigger] prev[o] == (i, init[i].tags@[j]@);
        assert(occ[o] == prev[o]);
    }
}

proof fn lemma_posts_tagged_has(occ: Seq<(int, Seq<char>)>, o: int)
    requires
        0 <= o < occ.len(),
    ensures
        posts_tagged(occ, occ[o].1).contains(occ[o].0),
    decreases occ.len(),
{
    let t = occ[o].1;
    let init = occ.drop_last();
    let extra: Seq<int> = if occ.last().1 == t {
        seq![occ.last().0]
    } else {
        seq![]
    };
    assert(posts_tagged(occ, t) == posts_tagged(init, t) + extra);
    if o == occ.len() - 1 {
        assert(occ.last() == occ[o]);
        assert(posts_tagged(occ, t)[posts_tagged(init, t).len() as int] == occ[o].0);
    } else {
        assert(init[o] == occ[o]);
        lemma_posts_tagged_has(init, o);
        let k = choose|k: int| 0 <= k < posts_tagged(init, t).len() && posts_tagged(init, t)[k] == occ[o].0;
        assert(posts_tagged(occ, t)[k] == occ[o].0);
    }
}

/// Every post is listed on the page of each of its tags.
pub proof fn law_post_is_on_its_tag_pages(
    posts: Seq<Post>,
    pages: Seq<(Seq<char>, Seq<int>)>,
    i: int,
    j: int,
)
    requires
        is_tag_pages(posts, pages),
        0 <= i < posts.len(),
        0 <= j < posts[i].tags@.len(),
    ensures
        exists|k: int|
            0 <= k < pages.len() && #[trigger] pages[k].0 == posts[i].tags@[j]@ && pages[k].1.contains(i),
{
    let occ = occurrences(posts);
    lemma_occurrence_of(posts, i, j);
    let o = choose|o: int| 0 <= o < occ.len() && #[trigger] occ[o] == (i, posts[i].tags@[j]@);
    assert(has_page(pages, occ[o].1));
    let k = choose|k: int| 0 <= k < pages.len() && #[trigger] pages[k].0 == occ[o].1;
    lemma_posts_tagged_has(occ, o);
    assert(pages[k].1 == posts_tagged(occ, pages[k].0));
}

/// Normalizing a base URL leaves no trailing slash, and normalizing again
/// changes nothing.
pub proof fn law_base_url_normalized(s: Seq<char>)
    ensures
        trim_end_char(s, '/').len() == 0 || trim_end_char(s, '/').last() != '/',
        trim_end_char(trim_end_char(s, '/'), '/') == trim_end_char(s, '/'),
    decreases s.len(),
{
    if s.len() > 0 && s.last() == '/' {
        law_base_url_normalized(s.drop_last());
    }
}

/// A tag page: the tag and the indices of the posts that have it.
pub struct TagPage {
    pub tag: String,
    pub posts: Vec<usize>,
}

pub open spec fn tag_page_view(p: TagPage) -> (Seq<char>, Seq<int>) {
    (p.tag@, p.posts@.map_values(|i: usize| i as int))
}

pub proof fn lemma_posts_tagged_absent(occ: Seq<(int, Seq<char>)>, t: Seq<char>)
    requires
        forall|o: int| 0 <= o < occ.len() ==> #[trigger] occ[o].1 != t,
    ensures
        posts_tagged(occ, t) == Seq::<int>::empty(),
    decreases occ.len(),
{
    if occ.len() > 0 {
        assert forall|o: int| 0 <= o < occ.drop_last().len() implies #[trigger] occ.drop_last()[o].1 != t by {
            assert(occ.drop_last()[o] == occ[o]);
        }
        lemma_posts_tagged_absent(occ.drop_last(), t);
        assert(occ.last() == occ[occ.len() - 1]);
        assert(posts_tagged(occ, t) =~= Seq::<int>::empty());
    }
}

/// The tag occurrences of `posts`.
fn tag_occurrences(posts: &Vec<Post>) -> (r: Vec<(usize, Vec<char>)>)
    ensures
        r@.map_values(|o: (usize, Vec<char>)| (o.0 as int, o.1@)) == occurrences(posts@),
        forall|o: int| 0 <= o < r@.len() ==> #[trigger] r@[o].0 < posts@.len(),
{
    let mut r: Vec<(usize, Vec<char>)> = Vec::new();
    let mut i: usize = 0;
    while i < posts.len()
        invariant
            i <= posts@.len(),
            r@.map_values(|o: (usize, Vec<char>)| (o.0 as int, o.1@)) == occurrences(posts@.take(i as int)),
            forall|o: int| 0 <= o < r@.len() ==> #[trigger] r@[o].0 < posts@.len(),
        decreases posts@.len() - i,
    {
        let ghost base = r@.map_values(|o: (usize, Vec<char>)| (o.0 as int, o.1@));
        let tags = &posts[i].tags;
        let ghost tv = tags@.map_values(|t: String| (i as int, t@));
        let mut j: usize = 0;
        while j < tags.len()
            invariant
                i < posts@.len(),
                tags == &posts@[i as int].tags,
                tv == tags@.map_values(|t: String| (i as int, t@)),
                j <= tags@.len(),
                r@.map_values(|o: (usize, Vec<char>)| (o.0 as int, o.1@)) == base + tv.take(j as int),
                forall|o: int| 0 <= o < r@.len() ==> #[trigger] r@[o].0 < posts@.len(),
            decreases tags@.len() - j,
        {
            let ghost before = r@;
            let c = chars_of(tags[j].as_str());
            assert(tv[j as int] == (i as int, c@));
            r.push((i, c));
            assert(r@.map_values(|o: (usize, Vec<char>)| (o.0 as int, o.1@)) =~= before.map_values(|o: (usize, Vec<char>)| (o.0 as int, o.1@)).push((i as int, c@)));
            assert(tv.take(j + 1) =~= tv.take(j as int).push(tv[j as int]));
            j += 1;
        }
        assert(tv.take(j as int) =~= tv);
        assert(posts@.take(i + 1).drop_last() =~= posts@.take(i as int));
        assert(posts@.take(i + 1).last() == posts@[i as int]);
        i += 1;
    }
    assert(posts@.take(i as int) =~= posts@);
    r
}

/// The tag pages of the site: each tag that a post has, in code point
/// order, with the posts (their indices in `posts`) that have it, in order.
pub fn tag_pages(posts: &Vec<Post>) -> (r: Vec<TagPage>)
    ensures
        is_tag_pages(posts@, r@.map_values(|p: TagPage| tag_page_view(p))),
        forall|k: int, l: int| 0 <= k < r@.len() && 0 <= l < r@[k].posts@.len() ==> #[trigger] r@[k].posts@[l] < posts@.len(),
{
    let occ = tag_occurrences(posts);
    let ghost ov = occ@.map_values(|o: (usize, Vec<char>)| (o.0 as int, o.1@));
    let mut pages: Vec<(Vec<char>, Vec<usize>)> = Vec::new();
    let mut m: usize = 0;
    while m < occ.len()
        invariant
            m <= occ@.len(),
            ov == occ@.map_values(|o: (usize, Vec<char>)| (o.0 as int, o.1@)),
            ov == occurrences(posts@),
            forall|o: int| 0 <= o < occ@.len() ==> #[trigger] occ@[o].0 < posts@.len(),
            forall|k: int, l: int| 0 <= k < l < pages@.len() ==> chars_lt(#[trigger] pages@[k].0@, #[trigger] pages@[l].0@),
            forall|k: int| #![trigger pages@[k]] 0 <= k < pages@.len() ==> pages@[k].1@.map_values(|i: usize| i as int) == posts_tagged(ov.take(m as int), pages@[k].0@),
            forall|k: int| 0 <= k < pages@.len() ==> #[trigger] pages@[k].1@.len() > 0,
            forall|k: int, l: int| 0 <= k < pages@.len() && 0 <= l < pages@[k].1@.len() ==> #[trigger] pages@[k].1@[l] < posts@.len(),
            forall|o: int| 0 <= o < m ==> exists|k: int| 0 <= k < pages@.len() && #[trigger] pages@[k].0@ == #[trigger] ov[o].1,
        decreases occ@.len() - m,
    {
        let idx = occ[m].0;
        let t = &occ[m].1;
        let ghost tm = t@;
        assert(ov[m as int] == (idx as int, tm));
        assert(ov.take(m + 1).drop_last() =~= ov.take(m as int));
        assert(ov.take(m + 1).last() == (idx as int, tm));
        let mut p: usize = 0;
        while p < pages.len() && chars_less(&pages[p].0, t)
            invariant
                p <= pages@.len(),
                t@ == tm,
                forall|k: int| 0 <= k < p ==> chars_lt(#[trigger] pages@[k].0@, tm),
            decreases pages@.len() - p,
        {
            p += 1;
        }
        let ghost old_pages = pages@;
        if p < pages.len() && chars_eq(&pages[p].0, t) {
            let (tag, mut list) = pages.remove(p);
            let ghost old_list = list@;
            list.push(idx);
            pages.insert(p, (tag, list));
            assert forall|k: int| #![trigger pages@[k]] 0 <= k < pages@.len() implies pages@[k].1@.map_values(|i: usize| i as int) == posts_tagged(ov.take(m + 1), pages@[k].0@) by {
                if k == p {
                    assert(pages@[k].1@.map_values(|i: usize| i as int) =~= old_list.map_values(|i: usize| i as int).push(idx as int));
                } else {
                    assert(pages@[k] == old_pages[k]);
                    assert(old_pages[k].0@ != tm) by {
                        if k < p {
                            lemma_chars_lt_irreflexive(tm);
                        } else {
                            assert(chars_lt(old_pages[p as int].0@, old_pages[k].0@));
                            lemma_chars_lt_irreflexive(tm);
                        }
                    }
                    assert(posts_tagged(ov.take(m + 1), pages@[k].0@) =~= posts_tagged(ov.take(m as int), pages@[k].0@));
                }
            }
            assert forall|k: int, l: int| 0 <= k < l < pages@.len() implies chars_lt(#[trigger] pages@[k].0@, #[trigger] pages@[l].0@) by {
                assert(pages@[k].0 == old_pages[k].0 && pages@[l].0 == old_pages[l].0);
            }
            assert forall|k: int, l: int| 0 <= k < pages@.len() && 0 <= l < pages@[k].1@.len() implies #[trigger] pages@[k].1@[l] < posts@.len() by {
                if k != p {
                    assert(pages@[k] == old_pages[k]);
                } else if l < old_list.len() {
                    assert(pages@[k].1@[l] == old_list[l]);
                }
            }
            assert forall|o: int| 0 <= o < m + 1 implies exists|k: int| 0 <= k < pages@.len() && #[trigger] pages@[k].0@ == #[trigger] ov[o].1 by {
                if o == m {
                    assert(pages@[p as int].0@ == ov[o].1);
                } else {
                    let k = choose|k: int| 0 <= k < old_pages.len() && #[trigger] old_pages[k].0@ == ov[o].1;
                    assert(pages@[k].0 == old_pages[k].0);
                }
            }
        } else {
            proof {
                if p < old_pages.len() {
                    lemma_chars_lt_total(old_pages[p as int].0@, tm);
                    assert forall|k: int| p <= k < old_pages.len() implies chars_lt(tm, #[trigger] old_pages[k].0@) by {
                        if k > p {
                            assert(chars_lt(old_pages[p as int].0@, old_pages[k].0@));
                            lemma_chars_lt_transitive(tm, old_pages[p as int].0@, old_pages[k].0@);
                        }
                    }
                }
                assert forall|o: int| 0 <= o < ov.take(m as int).len() implies #[trigger] ov.take(m as int)[o].1 != tm by {
                    assert(ov.take(m as int)[o] == ov[o]);
                    if ov[o].1 == tm {
                        let k = choose|k: int| 0 <= k < old_pages.len() && #[trigger] old_pages[k].0@ == #[trigger] ov[o].1;
                        if k < p {
                            lemma_chars_lt_irreflexive(tm);
                        } else {
                            lemma_chars_lt_irreflexive(tm);
                        }
                    }
                }
                lemma_posts_tagged_absent(ov.take(m as int), tm);
            }
            let mut list: Vec<usize> = Vec::new();
            list.push(idx);
            let tag = slice_chars(t, 0, t.len());
            assert(tag@ =~= tm);
            pages.insert(p, (tag, list));
            assert forall|k: int| #![trigger pages@[k]] 0 <= k < pages@.len() implies pages@[k].1@.map_values(|i: usize| i as int) == posts_tagged(ov.take(m + 1), pages@[k].0@) by {
                if k == p {
                    assert(pages@[k].1@.map_values(|i: usize| i as int) =~= seq![idx as int]);
                    assert(posts_tagged(ov.take(m + 1), tm) =~= seq![idx as int]);
                } else {
                    let j = if k < p { k } else { k - 1 };
                    assert(pages@[k] == old_pages[j]);
                    assert(old_pages[j].0@ != tm) by {
                        lemma_chars_lt_irreflexive(tm);
                    }
                    assert(posts_tagged(ov.take(m + 1), pages@[k].0@) =~= posts_tagged(ov.take(m as int), pages@[k].0@));
                }
            }
            assert forall|k: int, l: int| 0 <= k < l < pages@.len() implies chars_lt(#[trigger] pages@[k].0@, #[trigger] pages@[l].0@) by {
                if l < p {
                    assert(pages@[k] == old_pages[k] && pages@[l] == old_pages[l]);
                } else if l == p {
                    assert(pages@[k] == old_pages[k]);
                } else if k == p {
                    assert(pages@[l] == old_pages[l - 1]);
                } else if k < p {
                    assert(pages@[k] == old_pages[k] && pages@[l] == old_pages[l - 1]);
                } else {
                    assert(pages@[k] == old_pages[k - 1] && pages@[l] == old_pages[l - 1]);
                }
            }
            assert forall|k: int| 0 <= k < pages@.len() implies #[trigger] pages@[k].1@.len() > 0 by {
                if k < p {
                    assert(pages@[k] == old_pages[k]);
                } else if k > p {
                    assert(pages@[k] == old_pages[k - 1]);
                }
            }
            assert forall|k: int, l: int| 0 <= k < pages@.len() && 0 <= l < pages@[k].1@.len() implies #[trigger] pages@[k].1@[l] < posts@.len() by {
                if k < p {
                    assert(pages@[k] == old_pages[k]);
                } else if k > p {
                    assert(pages@[k] == old_pages[k - 1]);
                }
            }
            assert forall|o: int| 0 <= o < m + 1 implies exists|k: int| 0 <= k < pages@.len() && #[trigger] pages@[k].0@ == #[trigger] ov[o].1 by {
                if o == m {
                    assert(pages@[p as int].0@ == ov[o].1);
                } else {
                    let k = choose|k: int| 0 <= k < old_pages.len() && #[trigger] old_pages[k].0@ == ov[o].1;
                    if k < p {
                        assert(pages@[k] == old_pages[k]);
                    } else {
                        assert(pages@[k + 1] == old_pages[k]);
                    }
                }
            }
        }
        m += 1;
    }
    assert(ov.take(m as int) =~= ov);
    let mut r: Vec<TagPage> = Vec::new();
    let mut k: usize = 0;
    while k < pages.len()
        invariant
            k <= pages@.len(),
            r@.len() == k,
            forall|l: int| #![trigger r@[l]] 0 <= l < k ==> r@[l].tag@ == pages@[l].0@ && r@[l].posts@ == pages@[l].1@,
        decreases pages@.len() - k,
    {
        let tag = string_from_chars(&pages[k].0);
        let list = slice_usizes(&pages[k].1);
        r.push(TagPage { tag, posts: list });
        k += 1;
    }
    let ghost rv = r@.map_values(|p: TagPage| tag_page_view(p));
    assert forall|k: int| #![trigger rv[k]] 0 <= k < rv.len() implies rv[k].0 == pages@[k].0@ && rv[k].1 == pages@[k].1@.map_values(|i: usize| i as int) by {
        let pk = r@[k];
        assert(pk.tag@ == pages@[k].0@);
    }
    assert(rv.len() == pages@.len());
    assert forall|k: int, l: int| 0 <= k < l < rv.len() implies chars_lt(#[trigger] rv[k].0, #[trigger] rv[l].0) by {
        let a = rv[k];
        let b = rv[l];
        assert(chars_lt(pages@[k].0@, pages@[l].0@));
    }
    assert forall|k: int| #![trigger rv[k]] 0 <= k < rv.len() implies rv[k].1 == posts_tagged(ov, rv[k].0) && rv[k].1.len() > 0 by {
        assert(pages@[k].1@.map_values(|i: usize| i as int) == posts_tagged(ov.take(m as int), pages@[k].0@));
        assert(pages@[k].1@.len() > 0);
    }
    assert forall|o: int| 0 <= o < ov.len() implies exists|k: int| 0 <= k < rv.len() && #[trigger] rv[k].0 == #[trigger] ov[o].1 by {
        let k = choose|k: int| 0 <= k < pages@.len() && #[trigger] pages@[k].0@ == #[trigger] ov[o].1;
        assert(rv[k].0 == pages@[k].0@);
    }
    assert(forall|k: int, l: int| 0 <= k < l < rv.len() ==> chars_lt(#[trigger] rv[k].0, #[trigger] rv[l].0));
    assert(forall|k: int| 0 <= k < rv.len() ==> #[trigger] rv[k].1 == posts_tagged(occurrences(posts@), rv[k].0));
    assert(forall|k: int| 0 <= k < rv.len() ==> #[trigger] rv[k].1.len() > 0);
    assert forall|k: int, l: int| 0 <= k < r@.len() && 0 <= l < r@[k].posts@.len() implies #[trigger] r@[k].posts@[l] < posts@.len() by {
        let pk = r@[k];
        assert(pk.posts@ == pages@[k].1@);
        assert(pages@[k].1@[l] < posts@.len());
    }
    assert(is_tag_pages(posts@, rv)) by {
        assert forall|o: int| 0 <= o < occurrences(posts@).len() implies has_page(rv, #[trigger] occurrences(posts@)[o].1) by {
            assert(ov[o] == occurrences(posts@)[o]);
            let k = choose|k: int| 0 <= k < pages@.len() && #[trigger] pages@[k].0@ == #[trigger] ov[o].1;
            assert(rv[k].0 == pages@[k].0@);
            assert(0 <= k < rv.len() && rv[k].0 == occurrences(posts@)[o].1);
        }
    }
    r
}

/// A copy of `v`.
fn slice_usizes(v: &Vec<usize>) -> (r: Vec<usize>)
    ensures
        r@ == v@,
{
    let mut r: Vec<usize> = Vec::new();
    let mut i: usize = 0;
    while i < v.len()
        invariant
            i <= v@.len(),
            r@ == v@.take(i as int),
        decreases v@.len() - i,
    {
        r.push(v[i]);
        i += 1;
        assert(r@ =~= v@.take(i as int));
    }
    assert(v@.take(i as int) =~= v@);
    r
}

} // verus!
