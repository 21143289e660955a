//! Posts: the frontmatter block, the plain text of a Markdown body, reading
//! time, XML escaping and feed dates.
use vstd::prelude::*;

use vstd::string::{StrSliceExecFns, StringExecFns};

use crate::text::{
    contains, chars_of, matches_at, slice_chars, has_prefix, is_ws, lemma_skip_step,
    lemma_trim_end_shape, lemma_trim_start_shape, lines, lines_from, split_lines, strip_cr, split_words, starts_with,
    string_from_chars, trim, trim_chars, trim_end, trim_end_chars, trim_start, trim_start_chars, words,
};

verus! {

// ---------------------------------------------------------------------------
// XML escaping
// ---------------------------------------------------------------------------

/// What `c` becomes in escaped XML text.
pub open spec fn xml_entity(c: char) -> Seq<char> {
    if c == '&' {
        seq!['&', 'a', 'm', 'p', ';']
    } else if c == '<' {
        seq!['&', 'l', 't', ';']
    } else if c == '>' {
        seq!['&', 'g', 't', ';']
    } else if c == '"' {
        seq!['&', 'q', 'u', 'o', 't', ';']
    } else if c == '\'' {
        seq!['&', 'a', 'p', 'o', 's', ';']
    } else {
        seq![c]
    }
}

/// `s` with each of `& < > " '` replaced by its XML entity.
pub open spec fn xml_escaped(s: Seq<char>) -> Seq<char>
    decreases s.len(),
{
    if s.len() == 0 {
        seq![]
    } else {
        xml_entity(s[0]) + xml_escaped(s.drop_first())
    }
}

/// Escapes `& < > " '` for use in XML text and attribute values.
pub fn escape_xml(s: &str) -> (r: String)
    ensures
        r@ == xml_escaped(s@),
{
    let v = chars_of(s);
    let mut out: Vec<char> = Vec::new();
    let mut i: usize = 0;
    assert(v@.skip(0) =~= v@);
    while i < v.len()
        invariant
            i <= v@.len(),
            v@ == s@,
            out@ + xml_escaped(v@.skip(i as int)) == xml_escaped(v@),
        decreases v@.len() - i,
    {
        proof {
            lemma_skip_step(v@, i as int);
        }
        let ghost before = out@;
        let c = v[i];
        if c == '&' {
            out.push('&');
            out.push('a');
            out.push('m');
            out.push('p');
            out.push(';');
        } else if c == '<' {
            out.push('&');
            out.push('l');
            out.push('t');
            out.push(';');
        } else if c == '>' {
            out.push('&');
            out.push('g');
            out.push('t');
            out.push(';');
        } else if c == '"' {
            out.push('&');
            out.push('q');
            out.push('u');
            out.push('o');
            out.push('t');
            out.push(';');
        } else if c == '\'' {
            out.push('&');
            out.push('a');
            out.push('p');
            out.push('o');
            out.push('s');
            out.push(';');
        } else {
            out.push(c);
        }
        assert(out@ =~= before + xml_entity(c));
        assert(before + xml_escaped(v@.skip(i as int)) =~= out@ + xml_escaped(v@.skip(i + 1)));
        i += 1;
    }
    assert(out@ =~= out@ + xml_escaped(v@.skip(i as int)));
    string_from_chars(&out)
}

/// `s` holds none of the characters that XML text must not hold bare.
pub open spec fn xml_safe(s: Seq<char>) -> bool {
    forall|i: int| 0 <= i < s.len() ==> #[trigger] s[i] != '<' && s[i] != '>' && s[i] != '"' && s[i] != '\''
}

/// Escaped text holds no `<`, `>`, `"` or `'`.
pub proof fn law_escaped_xml_is_safe(s: Seq<char>)
    ensures
        xml_safe(xml_escaped(s)),
    decreases s.len(),
{
    if s.len() > 0 {
        law_escaped_xml_is_safe(s.drop_first());
        let e = xml_entity(s[0]);
        let r = xml_escaped(s.drop_first());
        assert(xml_safe(e));
        assert forall|i: int| 0 <= i < (e + r).len() implies #[trigger] (e + r)[i] != '<' && (e
            + r)[i] != '>' && (e + r)[i] != '"' && (e + r)[i] != '\'' by {
            if i < e.len() {
                assert((e + r)[i] == e[i]);
            } else {
                assert((e + r)[i] == r[i - e.len()]);
            }
        }
    }
}

pub open spec fn amp() -> Seq<char> {
    seq!['&', 'a', 'm', 'p', ';']
}

pub open spec fn lt() -> Seq<char> {
    seq!['&', 'l', 't', ';']
}

pub open spec fn gt() -> Seq<char> {
    seq!['&', 'g', 't', ';']
}

pub open spec fn quot() -> Seq<char> {
    seq!['&', 'q', 'u', 'o', 't', ';']
}

pub open spec fn apos() -> Seq<char> {
    seq!['&', 'a', 'p', 'o', 's', ';']
}

/// XML text with the five entities that escaping writes turned back into
/// their characters.
pub open spec fn xml_unescaped(s: Seq<char>) -> Seq<char>
    decreases s.len(),
{
    if s.len() == 0 {
        seq![]
    } else if has_prefix(s, amp()) {
        seq!['&'] + xml_unescaped(s.skip(5))
    } else if has_prefix(s, lt()) {
        seq!['<'] + xml_unescaped(s.skip(4))
    } else if has_prefix(s, gt()) {
        seq!['>'] + xml_unescaped(s.skip(4))
    } else if has_prefix(s, quot()) {
        seq!['"'] + xml_unescaped(s.skip(6))
    } else if has_prefix(s, apos()) {
        seq!['\''] + xml_unescaped(s.skip(6))
    } else {
        seq![s[0]] + xml_unescaped(s.drop_first())
    }
}

/// A pattern `p` of the entity list matches `e + r` exactly where it is `e`.
proof fn lemma_entity_prefix(e: Seq<char>, r: Seq<char>, p: Seq<char>)
    requires
        e.len() > 0,
        p.len() > 1,
        p[0] == '&',
        e == amp() || e == lt() || e == gt() || e == quot() || e == apos() || (e.len() == 1 && e[0]
            != '&'),
        p == amp() || p == lt() || p == gt() || p == quot() || p == apos(),
    ensures
        has_prefix(e + r, p) <==> e == p,
{
    let s = e + r;
    if e == p {
        assert(s.subrange(0, p.len() as int) =~= p);
    } else if has_prefix(s, p) {
        assert(s.subrange(0, p.len() as int)[0] == s[0]);
        assert(s[0] == e[0]);
        assert(s.subrange(0, p.len() as int)[1] == s[1]);
        assert(s.subrange(0, p.len() as int)[2] == s[2]);
        if e.len() > 2 {
            assert(s[1] == e[1]);
            assert(s[2] == e[2]);
        }
        assert(false);
    }
}

/// Unescaping what escaping wrote gives the text back.
pub proof fn law_escape_xml_round_trip(s: Seq<char>)
    ensures
        xml_unescaped(xml_escaped(s)) == s,
    decreases s.len(),
{
    if s.len() > 0 {
        law_escape_xml_round_trip(s.drop_first());
        let c = s[0];
        let e = xml_entity(c);
        let r = xml_escaped(s.drop_first());
        let t = e + r;
        assert(xml_escaped(s) == t);
        lemma_entity_prefix(e, r, amp());
        lemma_entity_prefix(e, r, lt());
        lemma_entity_prefix(e, r, gt());
        lemma_entity_prefix(e, r, quot());
        lemma_entity_prefix(e, r, apos());
        assert(t.skip(e.len() as int) =~= r);
        if c == '&' {
            assert(e == amp());
        } else if c == '<' {
            assert(e != amp());
            assert(e == lt());
        } else if c == '>' {
            assert(e != amp() && e != lt());
        } else if c == '"' {
            assert(e != amp() && e != lt() && e != gt());
        } else if c == '\'' {
            assert(e != amp() && e != lt() && e != gt() && e != quot());
        } else {
            assert(e != amp() && e != lt() && e != gt() && e != quot() && e != apos());
            assert(t[0] == c);
            assert(t.drop_first() =~= r);
        }
        assert(xml_unescaped(t) =~= seq![c] + s.drop_first());
        assert(s =~= seq![c] + s.drop_first());
    }
}

/// Escaping never maps two texts to the same XML.
pub proof fn law_escape_xml_injective(a: Seq<char>, b: Seq<char>)
    requires
        xml_escaped(a) == xml_escaped(b),
    ensures
        a == b,
{
    law_escape_xml_round_trip(a);
    law_escape_xml_round_trip(b);
}

/// Escaping two texts one after the other is escaping each of them.
pub proof fn law_escape_xml_concat(a: Seq<char>, b: Seq<char>)
    ensures
        xml_escaped(a + b) == xml_escaped(a) + xml_escaped(b),
    decreases a.len(),
{
    if a.len() == 0 {
        assert(a + b =~= b);
        assert(xml_escaped(a) + xml_escaped(b) =~= xml_escaped(b));
    } else {
        law_escape_xml_concat(a.drop_first(), b);
        assert((a + b)[0] == a[0]);
        assert((a + b).drop_first() =~= a.drop_first() + b);
        assert(xml_entity(a[0]) + (xml_escaped(a.drop_first()) + xml_escaped(b)) =~= (xml_entity(
            a[0],
        ) + xml_escaped(a.drop_first())) + xml_escaped(b));
    }
}

// ---------------------------------------------------------------------------
// Reading time
// ---------------------------------------------------------------------------

/// Minutes to read a text of `words` words at 220 words a minute, never
/// less than one.
pub open spec fn minutes_for(words: nat) -> u32 {
    let w = (words as u32) / 220;
    if w < 1 {
        1
    } else {
        w
    }
}

/// A text with more words never has a shorter reading time, up to
/// `u32::MAX` words (beyond that the count wraps, as a `u32` count does).
pub proof fn law_reading_time_grows_with_words(a: Seq<char>, b: Seq<char>)
    requires
        words(a).len() <= words(b).len() <= u32::MAX,
    ensures
        minutes_for(words(a).len()) <= minutes_for(words(b).len()),
{
    let x = words(a).len();
    let y = words(b).len();
    assert(x as u32 == x);
    assert(y as u32 == y);
    assert((x as u32) / 220 <= (y as u32) / 220) by (nonlinear_arith)
        requires
            x as u32 <= y as u32,
    ;
}

/// The reading time of `w` words is the whole minutes they take at 220
/// words a minute, rounded down, and one minute for fewer than 220 words
/// (for up to `u32::MAX` words; beyond that the count wraps, as a `u32`
/// count does).
pub proof fn law_reading_time_is_whole_minutes(w: nat)
    requires
        w <= u32::MAX,
    ensures
        minutes_for(w) >= 1,
        w < 220 ==> minutes_for(w) == 1,
        w >= 220 ==> 220 * minutes_for(w) <= w < 220 * (minutes_for(w) + 1),
{
    assert(w as u32 == w);
}

/// Estimated reading time of a plain text, in whole minutes, at least 1.
pub fn reading_time_min(plain: &str) -> (m: u32)
    ensures
        m == minutes_for(words(plain@).len()),
        m >= 1,
        words(plain@).len() <= u32::MAX ==> {
            let w = words(plain@).len();
            &&& w < 220 ==> m == 1
            &&& w >= 220 ==> 220 * m <= w < 220 * (m + 1)
        },
{
    let v = chars_of(plain);
    let ws = split_words(&v);
    assert(ws@.len() == ws@.map_values(|w: Vec<char>| w@).len());
    let words = ws.len() as u32;
    let m = words / 220;
    if m < 1 {
        1
    } else {
        m
    }
}

// ---------------------------------------------------------------------------
// Plain text of a Markdown body
// ---------------------------------------------------------------------------

/// The Markdown punctuation that the plain text leaves out.
pub open spec fn is_markup(c: char) -> bool {
    c == '#' || c == '*' || c == '_' || c == '`' || c == '>' || c == '[' || c == ']' || c == '('
        || c == ')'
}

/// `s` without its Markdown punctuation.
pub open spec fn strip_markup(s: Seq<char>) -> Seq<char>
    decreases s.len(),
{
    if s.len() == 0 {
        seq![]
    } else {
        (if is_markup(s[0]) {
            seq![]
        } else {
            seq![s[0]]
        }) + strip_markup(s.drop_first())
    }
}

/// Whether `line` opens or closes a code fence: after its indentation it
/// starts with three backticks or three tildes.
pub open spec fn is_fence(line: Seq<char>) -> bool {
    has_prefix(trim_start(line), seq!['`', '`', '`']) || has_prefix(
        trim_start(line),
        seq!['~', '~', '~'],
    )
}

/// What one line outside code fences adds to the plain text: its text
/// without markup and surrounding whitespace, then a space; nothing if that
/// text is empty.
pub open spec fn plain_piece(line: Seq<char>) -> Seq<char> {
    let c = trim(strip_markup(line));
    if c.len() == 0 {
        seq![]
    } else {
        c.push(' ')
    }
}

/// The plain text of `ls`, read with `in_fence` telling whether a code
/// fence is open: fence lines switch it, lines inside a fence are skipped.
pub open spec fn plain_lines(ls: Seq<Seq<char>>, in_fence: bool) -> Seq<char>
    decreases ls.len(),
{
    if ls.len() == 0 {
        seq![]
    } else if is_fence(ls[0]) {
        plain_lines(ls.drop_first(), !in_fence)
    } else if in_fence {
        plain_lines(ls.drop_first(), in_fence)
    } else {
        plain_piece(ls[0]) + plain_lines(ls.drop_first(), in_fence)
    }
}

/// The plain text of a Markdown body, as used for search and reading time.
pub open spec fn plain_of(markdown: Seq<char>) -> Seq<char> {
    trim_end(plain_lines(lines(markdown), false))
}

/// `s` holds no Markdown punctuation.
pub open spec fn markup_free(s: Seq<char>) -> bool {
    forall|i: int| 0 <= i < s.len() ==> !is_markup(#[trigger] s[i])
}

proof fn lemma_markup_free_concat(a: Seq<char>, b: Seq<char>)
    requires
        markup_free(a),
        markup_free(b),
    ensures
        markup_free(a + b),
{
    assert forall|i: int| 0 <= i < (a + b).len() implies !is_markup(#[trigger] (a + b)[i]) by {
        if i < a.len() {
            assert((a + b)[i] == a[i]);
        } else {
            assert((a + b)[i] == b[i - a.len()]);
        }
    }
}

proof fn lemma_strip_markup_free(s: Seq<char>)
    ensures
        markup_free(strip_markup(s)),
    decreases s.len(),
{
    if s.len() > 0 {
        lemma_strip_markup_free(s.drop_first());
        let h: Seq<char> = if is_markup(s[0]) {
            seq![]
        } else {
            seq![s[0]]
        };
        lemma_markup_free_concat(h, strip_markup(s.drop_first()));
    }
}

proof fn lemma_trim_keeps_markup_free(s: Seq<char>)
    requires
        markup_free(s),
    ensures
        markup_free(trim_start(s)),
        markup_free(trim_end(s)),
    decreases s.len(),
{
    if s.len() > 0 {
        assert(markup_free(s.drop_first()));
        assert(markup_free(s.drop_last()));
        lemma_trim_keeps_markup_free(s.drop_first());
        lemma_trim_keeps_markup_free(s.drop_last());
    }
}

proof fn lemma_plain_lines_markup_free(ls: Seq<Seq<char>>, in_fence: bool)
    ensures
        markup_free(plain_lines(ls, in_fence)),
    decreases ls.len(),
{
    if ls.len() > 0 {
        lemma_plain_lines_markup_free(ls.drop_first(), !in_fence);
        lemma_plain_lines_markup_free(ls.drop_first(), in_fence);
        if !is_fence(ls[0]) && !in_fence {
            let st = strip_markup(ls[0]);
            lemma_strip_markup_free(ls[0]);
            lemma_trim_keeps_markup_free(st);
            lemma_trim_keeps_markup_free(trim_start(st));
            let c = trim(st);
            if c.len() > 0 {
                lemma_markup_free_concat(c, seq![' ']);
                assert(c + seq![' '] =~= c.push(' '));
            }
            lemma_markup_free_concat(plain_piece(ls[0]), plain_lines(ls.drop_first(), in_fence));
        }
    }
}

/// The plain text of a body holds none of `# * _ ` > [ ] ( )`.
pub proof fn law_plain_text_is_markup_free(markdown: Seq<char>)
    ensures
        markup_free(plain_of(markdown)),
{
    lemma_plain_lines_markup_free(lines(markdown), false);
    lemma_trim_keeps_markup_free(plain_lines(lines(markdown), false));
}

/// `s` holds no line break.
pub open spec fn no_newline(s: Seq<char>) -> bool {
    forall|i: int| 0 <= i < s.len() ==> #[trigger] s[i] != '\n'
}

/// Without a line break, a text is one line (or none, when empty).
proof fn lemma_lines_of_one_line(s: Seq<char>, cur: Seq<char>)
    requires
        no_newline(s),
    ensures
        lines_from(s, cur) == (if (cur + s).len() == 0 {
            Seq::<Seq<char>>::empty()
        } else {
            seq![cur + s]
        }),
    decreases s.len(),
{
    if s.len() == 0 {
        assert(cur + s =~= cur);
    } else {
        assert(s[0] != '\n');
        assert(no_newline(s.drop_first())) by {
            assert forall|i: int| 0 <= i < s.drop_first().len() implies #[trigger] s.drop_first()[i]
                != '\n' by {
                assert(s.drop_first()[i] == s[i + 1]);
            }
        }
        lemma_lines_of_one_line(s.drop_first(), cur.push(s[0]));
        assert(cur.push(s[0]) + s.drop_first() =~= cur + s);
    }
}

/// The lines of a text hold no line break.
proof fn lemma_lines_have_no_newline(s: Seq<char>, cur: Seq<char>)
    requires
        no_newline(cur),
    ensures
        forall|k: int| 0 <= k < lines_from(s, cur).len() ==> no_newline(#[trigger] lines_from(s, cur)[k]),
    decreases s.len(),
{
    if s.len() > 0 {
        if s[0] == '\n' {
            lemma_lines_have_no_newline(s.drop_first(), seq![]);
            let c = strip_cr(cur);
            assert(no_newline(c)) by {
                assert forall|i: int| 0 <= i < c.len() implies #[trigger] c[i] != '\n' by {
                    assert(c[i] == cur[i]);
                }
            }
            let rest = lines_from(s.drop_first(), seq![]);
            assert(lines_from(s, cur) == seq![c] + rest);
            assert forall|k: int| 0 <= k < lines_from(s, cur).len() implies no_newline(
                #[trigger] lines_from(s, cur)[k],
            ) by {
                if k > 0 {
                    assert(lines_from(s, cur)[k] == rest[k - 1]);
                } else {
                    assert(lines_from(s, cur)[k] == c);
                }
            }
        } else {
            let c = cur.push(s[0]);
            assert(no_newline(c)) by {
                assert forall|i: int| 0 <= i < c.len() implies #[trigger] c[i] != '\n' by {
                    if i < cur.len() {
                        assert(c[i] == cur[i]);
                    }
                }
            }
            lemma_lines_have_no_newline(s.drop_first(), c);
            assert(lines_from(s, cur) == lines_from(s.drop_first(), c));
        }
    } else if cur.len() > 0 {
        assert(lines_from(s, cur) =~= seq![cur]);
    }
}

proof fn lemma_no_newline_concat(a: Seq<char>, b: Seq<char>)
    requires
        no_newline(a),
        no_newline(b),
    ensures
        no_newline(a + b),
{
    assert forall|i: int| 0 <= i < (a + b).len() implies #[trigger] (a + b)[i] != '\n' by {
        if i < a.len() {
            assert((a + b)[i] == a[i]);
        } else {
            assert((a + b)[i] == b[i - a.len()]);
        }
    }
}

proof fn lemma_strip_markup_no_newline(s: Seq<char>)
    requires
        no_newline(s),
    ensures
        no_newline(strip_markup(s)),
    decreases s.len(),
{
    if s.len() > 0 {
        assert(no_newline(s.drop_first())) by {
            assert forall|i: int| 0 <= i < s.drop_first().len() implies #[trigger] s.drop_first()[i]
                != '\n' by {
                assert(s.drop_first()[i] == s[i + 1]);
            }
        }
        lemma_strip_markup_no_newline(s.drop_first());
        let h: Seq<char> = if is_markup(s[0]) {
            seq![]
        } else {
            seq![s[0]]
        };
        lemma_no_newline_concat(h, strip_markup(s.drop_first()));
    }
}

/// Trimming keeps a text free of line breaks.
proof fn lemma_trim_no_newline(s: Seq<char>)
    requires
        no_newline(s),
    ensures
        no_newline(trim_start(s)),
        no_newline(trim_end(s)),
{
    lemma_trim_start_shape(s);
    lemma_trim_end_shape(s);
    let a = trim_start(s);
    let k = s.len() - a.len();
    assert forall|i: int| 0 <= i < a.len() implies #[trigger] a[i] != '\n' by {
        assert(a[i] == s[k + i]);
    }
    let b = trim_end(s);
    assert forall|i: int| 0 <= i < b.len() implies #[trigger] b[i] != '\n' by {
        assert(b[i] == s[i]);
    }
}

/// The text that a line gives, when there is any, starts with a
/// non-whitespace character.
proof fn lemma_plain_piece_shape(line: Seq<char>)
    ensures
        plain_piece(line).len() > 0 ==> !is_ws(plain_piece(line)[0]),
        no_newline(line) ==> no_newline(plain_piece(line)),
{
    let st = strip_markup(line);
    let a = trim_start(st);
    lemma_trim_start_shape(st);
    lemma_trim_end_shape(a);
    let c = trim(st);
    if c.len() > 0 {
        assert(c[0] == a[0]);
        assert(c.push(' ')[0] == c[0]);
    }
    if no_newline(line) {
        lemma_strip_markup_no_newline(line);
        lemma_trim_no_newline(st);
        lemma_trim_no_newline(a);
        if c.len() > 0 {
            lemma_no_newline_concat(c, seq![' ']);
            assert(c + seq![' '] =~= c.push(' '));
        }
    }
}

/// The plain text of lines starts with a non-whitespace character, and
/// holds no line break when the lines hold none.
proof fn lemma_plain_lines_shape(ls: Seq<Seq<char>>, in_fence: bool)
    ensures
        plain_lines(ls, in_fence).len() > 0 ==> !is_ws(plain_lines(ls, in_fence)[0]),
        (forall|k: int| 0 <= k < ls.len() ==> no_newline(#[trigger] ls[k])) ==> no_newline(
            plain_lines(ls, in_fence),
        ),
    decreases ls.len(),
{
    if ls.len() > 0 {
        let rest = ls.drop_first();
        lemma_plain_lines_shape(rest, !in_fence);
        lemma_plain_lines_shape(rest, in_fence);
        if forall|k: int| 0 <= k < ls.len() ==> no_newline(#[trigger] ls[k]) {
            assert forall|k: int| 0 <= k < rest.len() implies no_newline(#[trigger] rest[k]) by {
                assert(rest[k] == ls[k + 1]);
            }
            assert(no_newline(ls[0]));
        }
        if !is_fence(ls[0]) && !in_fence {
            let piece = plain_piece(ls[0]);
            let tail = plain_lines(rest, in_fence);
            lemma_plain_piece_shape(ls[0]);
            if piece.len() == 0 {
                assert(piece + tail =~= tail);
            } else {
                assert((piece + tail)[0] == piece[0]);
            }
            if no_newline(ls[0]) && no_newline(tail) {
                lemma_no_newline_concat(piece, tail);
            }
        }
    }
}

/// Text without Markdown punctuation is left as it is by `strip_markup`.
proof fn lemma_strip_markup_keeps_free(s: Seq<char>)
    requires
        markup_free(s),
    ensures
        strip_markup(s) == s,
    decreases s.len(),
{
    if s.len() > 0 {
        assert(!is_markup(s[0]));
        assert(markup_free(s.drop_first())) by {
            assert forall|i: int| 0 <= i < s.drop_first().len() implies !is_markup(
                #[trigger] s.drop_first()[i],
            ) by {
                assert(s.drop_first()[i] == s[i + 1]);
            }
        }
        lemma_strip_markup_keeps_free(s.drop_first());
        assert(seq![s[0]] + s.drop_first() =~= s);
    }
}

/// A line without markup, line breaks or surrounding whitespace, that does
/// not open a tilde fence, is its own plain text.
proof fn lemma_plain_of_clean_line(p: Seq<char>)
    requires
        markup_free(p),
        no_newline(p),
        p.len() > 0 ==> !is_ws(p[0]) && !is_ws(p.last()),
        !has_prefix(p, seq!['~', '~', '~']),
    ensures
        plain_of(p) == p,
{
    lemma_lines_of_one_line(p, seq![]);
    assert(Seq::<char>::empty() + p =~= p);
    if p.len() == 0 {
        assert(lines(p) =~= Seq::<Seq<char>>::empty());
        assert(plain_lines(lines(p), false) =~= Seq::<char>::empty());
    } else {
        assert(trim_start(p) == p);
        assert(!has_prefix(p, seq!['`', '`', '`'])) by {
            if has_prefix(p, seq!['`', '`', '`']) {
                assert(p.subrange(0, 3)[0] == p[0]);
                assert(is_markup(p[0]));
            }
        }
        assert(!is_fence(p));
        let one = lines(p);
        assert(one == seq![p]);
        assert(one.drop_first() =~= Seq::<Seq<char>>::empty());
        lemma_strip_markup_keeps_free(p);
        assert(trim_end(p) == p);
        assert(trim(strip_markup(p)) == p);
        assert(plain_piece(p) == p.push(' '));
        assert(plain_lines(one, false) == plain_piece(p) + plain_lines(one.drop_first(), false));
        assert(plain_lines(one, false) =~= p.push(' '));
        assert(p.push(' ').drop_last() =~= p);
    }
}

/// Cleaning a plain text again gives it back unchanged, unless it starts
/// with `~~~` (which opens a code fence when read as Markdown).
pub proof fn law_plain_text_is_idempotent(markdown: Seq<char>)
    requires
        !has_prefix(plain_of(markdown), seq!['~', '~', '~']),
    ensures
        plain_of(plain_of(markdown)) == plain_of(markdown),
{
    let ls = lines(markdown);
    let whole = plain_lines(ls, false);
    let p = plain_of(markdown);
    law_plain_text_is_markup_free(markdown);
    lemma_lines_have_no_newline(markdown, seq![]);
    lemma_plain_lines_shape(ls, false);
    lemma_trim_no_newline(whole);
    lemma_trim_end_shape(whole);
    if p.len() > 0 {
        assert(p[0] == whole[0]);
    }
    lemma_plain_of_clean_line(p);
}

/// Only `# * _ ` > [ ] ( )` are taken out: a one-line text that holds none
/// of them, no line break and no surrounding whitespace, and that does not
/// open a tilde fence, is its own plain text, every other character (digits,
/// letters, other punctuation) kept.
pub proof fn law_plain_text_keeps_other_characters(line: Seq<char>)
    requires
        forall|i: int|
            0 <= i < line.len() ==> {
                let c = #[trigger] line[i];
                &&& c != '#'
                &&& c != '*'
                &&& c != '_'
                &&& c != '`'
                &&& c != '>'
                &&& c != '['
                &&& c != ']'
                &&& c != '('
                &&& c != ')'
                &&& c != '\n'
            },
        line.len() > 0 ==> !is_ws(line[0]) && !is_ws(line.last()),
        !has_prefix(line, seq!['~', '~', '~']),
    ensures
        plain_of(line) == line,
{
    assert(markup_free(line));
    assert(no_newline(line));
    lemma_plain_of_clean_line(line);
}

/// Whether a character stays in the plain text: all but `# * _ ` > [ ] ( )`.
pub open spec fn kept_in_plain_text(c: char) -> bool {
    &&& c != '#'
    &&& c != '*'
    &&& c != '_'
    &&& c != '`'
    &&& c != '>'
    &&& c != '['
    &&& c != ']'
    &&& c != '('
    &&& c != ')'
}

/// Dropping the markup of a text keeps the other characters, in order.
proof fn lemma_strip_markup_is_filter(s: Seq<char>)
    ensures
        strip_markup(s) == s.filter(|c: char| kept_in_plain_text(c)),
    decreases s.len(),
{
    let keep = |c: char| kept_in_plain_text(c);
    s.lemma_filter_eq_filter_alt(keep);
    if s.len() > 0 {
        lemma_strip_markup_is_filter(s.drop_first());
        assert(s.first() == s[0]);
        if kept_in_plain_text(s[0]) {
            assert(strip_markup(s) =~= seq![s[0]] + s.drop_first().filter(keep));
        } else {
            assert(strip_markup(s) =~= s.drop_first().filter(keep));
        }
    }
}

/// The plain text of one line that is not a code fence: the line without
/// `# * _ ` > [ ] ( )`, other characters kept in order, without its
/// leading and trailing whitespace.
pub proof fn law_plain_text_of_a_line(line: Seq<char>)
    requires
        forall|i: int| 0 <= i < line.len() ==> #[trigger] line[i] != '\n',
        !has_prefix(trim_start(line), seq!['`', '`', '`']),
        !has_prefix(trim_start(line), seq!['~', '~', '~']),
    ensures
        plain_of(line) == trim(line.filter(|c: char| kept_in_plain_text(c))),
{
    assert(no_newline(line));
    lemma_lines_of_one_line(line, seq![]);
    assert(Seq::<char>::empty() + line =~= line);
    lemma_strip_markup_is_filter(line);
    let c = trim(strip_markup(line));
    lemma_trim_end_shape(trim_start(strip_markup(line)));
    if line.len() == 0 {
        assert(lines(line) =~= Seq::<Seq<char>>::empty());
        assert(plain_lines(lines(line), false) =~= Seq::<char>::empty());
        assert(strip_markup(line) =~= Seq::<char>::empty());
        assert(trim_start(Seq::<char>::empty()) =~= Seq::<char>::empty());
        assert(trim_end(Seq::<char>::empty()) =~= Seq::<char>::empty());
    } else {
        let one = lines(line);
        assert(one == seq![line]);
        assert(!is_fence(line));
        assert(one.drop_first() =~= Seq::<Seq<char>>::empty());
        assert(plain_lines(one, false) == plain_piece(line) + plain_lines(one.drop_first(), false));
        if c.len() == 0 {
            assert(plain_lines(one, false) =~= Seq::<char>::empty());
            assert(trim_end(Seq::<char>::empty()) =~= Seq::<char>::empty());
        } else {
            assert(plain_lines(one, false) =~= c.push(' '));
            assert(c.push(' ').drop_last() =~= c);
            assert(trim_end(c) == c);
        }
    }
}

/// A line ended by `'\n'` is read as one line, then reading starts afresh.
proof fn lemma_lines_after_line(a: Seq<char>, b: Seq<char>, cur: Seq<char>)
    requires
        no_newline(a),
    ensures
        lines_from(a + seq!['\n'] + b, cur) == seq![strip_cr(cur + a)] + lines_from(b, seq![]),
    decreases a.len(),
{
    let s = a + seq!['\n'] + b;
    if a.len() == 0 {
        assert(s =~= seq!['\n'] + b);
        assert(s.drop_first() =~= b);
        assert(cur + a =~= cur);
    } else {
        assert(s[0] == a[0]);
        assert(a[0] != '\n');
        assert(no_newline(a.drop_first())) by {
            assert forall|i: int| 0 <= i < a.drop_first().len() implies #[trigger] a.drop_first()[i]
                != '\n' by {
                assert(a.drop_first()[i] == a[i + 1]);
            }
        }
        assert(s.drop_first() =~= a.drop_first() + seq!['\n'] + b);
        lemma_lines_after_line(a.drop_first(), b, cur.push(a[0]));
        assert(cur.push(a[0]) + a.drop_first() =~= cur + a);
    }
}

/// Whether `line` opens or closes a code fence, written out: after its
/// leading whitespace it starts with three backticks or three tildes.
pub open spec fn fence_line(line: Seq<char>) -> bool {
    has_prefix(trim_start(line), seq!['`', '`', '`']) || has_prefix(trim_start(line), seq!['~', '~', '~'])
}

/// A code line between an opening and a closing fence line adds nothing to
/// the plain text: the text reads as what follows the closing fence.
pub proof fn law_fenced_code_is_skipped(
    open: Seq<char>,
    code: Seq<char>,
    close: Seq<char>,
    rest: Seq<char>,
)
    requires
        forall|i: int| 0 <= i < open.len() ==> #[trigger] open[i] != '\n' && open[i] != '\r',
        forall|i: int| 0 <= i < code.len() ==> #[trigger] code[i] != '\n' && code[i] != '\r',
        forall|i: int| 0 <= i < close.len() ==> #[trigger] close[i] != '\n' && close[i] != '\r',
        fence_line(open),
        !fence_line(code),
        fence_line(close),
    ensures
        plain_of(open + seq!['\n'] + code + seq!['\n'] + close + seq!['\n'] + rest) == plain_of(rest),
{
    let e = Seq::<char>::empty();
    assert(no_newline(open));
    assert(no_newline(code));
    assert(no_newline(close));
    let t3 = close + seq!['\n'] + rest;
    let t2 = code + seq!['\n'] + t3;
    let t1 = open + seq!['\n'] + t2;
    assert(open + seq!['\n'] + code + seq!['\n'] + close + seq!['\n'] + rest =~= t1);
    lemma_lines_after_line(open, t2, e);
    lemma_lines_after_line(code, t3, e);
    lemma_lines_after_line(close, rest, e);
    assert(e + open =~= open);
    assert(e + code =~= code);
    assert(e + close =~= close);
    assert(strip_cr(open) == open) by {
        if open.len() > 0 {
            assert(open[open.len() - 1] != '\r');
        }
    }
    assert(strip_cr(code) == code) by {
        if code.len() > 0 {
            assert(code[code.len() - 1] != '\r');
        }
    }
    assert(strip_cr(close) == close) by {
        if close.len() > 0 {
            assert(close[close.len() - 1] != '\r');
        }
    }
    let l3 = seq![close] + lines(rest);
    let l2 = seq![code] + l3;
    let l1 = seq![open] + l2;
    assert(lines(t1) == l1);
    assert(l1[0] == open && l1.drop_first() =~= l2);
    assert(l2[0] == code && l2.drop_first() =~= l3);
    assert(l3[0] == close && l3.drop_first() =~= lines(rest));
    assert(plain_lines(l1, false) == plain_lines(l2, true));
    assert(plain_lines(l2, true) == plain_lines(l3, true));
    assert(plain_lines(l3, true) == plain_lines(lines(rest), false));
}

/// `line` without its Markdown punctuation.
fn strip_markup_chars(line: &[char]) -> (r: Vec<char>)
    ensures
        r@ == strip_markup(line@),
{
    let mut out: Vec<char> = Vec::new();
    let mut j: usize = 0;
    assert(line@.skip(0) =~= line@);
    while j < line.len()
        invariant
            j <= line@.len(),
            out@ + strip_markup(line@.skip(j as int)) == strip_markup(line@),
        decreases line@.len() - j,
    {
        proof {
            lemma_skip_step(line@, j as int);
        }
        let ghost before = out@;
        let c = line[j];
        if !(c == '#' || c == '*' || c == '_' || c == '`' || c == '>' || c == '[' || c == ']' || c
            == '(' || c == ')') {
            out.push(c);
        }
        assert(before + strip_markup(line@.skip(j as int)) =~= out@ + strip_markup(
            line@.skip(j + 1),
        ));
        j += 1;
    }
    assert(out@ =~= out@ + strip_markup(line@.skip(j as int)));
    out
}

/// The text of a Markdown body without code blocks and markup characters,
/// one space between the lines that keep any text.
pub fn plain_text(markdown: &str) -> (r: String)
    ensures
        r@ == plain_of(markdown@),
{
    let v = chars_of(markdown);
    let ls = split_lines(&v);
    let ghost all = ls@.map_values(|l: Vec<char>| l@);
    let mut out: Vec<char> = Vec::new();
    let mut in_fence = false;
    let mut i: usize = 0;
    assert(all.skip(0) =~= all);
    while i < ls.len()
        invariant
            i <= ls@.len(),
            all == ls@.map_values(|l: Vec<char>| l@),
            all == lines(markdown@),
            out@ + plain_lines(all.skip(i as int), in_fence) == plain_lines(all, false),
        decreases ls@.len() - i,
    {
        let ghost rest = all.skip(i as int);
        assert(rest[0] == ls@[i as int]@);
        assert(rest.drop_first() =~= all.skip(i + 1));
        let ghost before = out@;
        let line = &ls[i];
        let trimmed = trim_start_chars(line);
        let backticks = ['`', '`', '`'];
        let tildes = ['~', '~', '~'];
        assert(backticks@ =~= seq!['`', '`', '`']);
        assert(tildes@ =~= seq!['~', '~', '~']);
        if starts_with(&trimmed, &backticks) || starts_with(&trimmed, &tildes) {
            in_fence = !in_fence;
        } else if !in_fence {
            let stripped = strip_markup_chars(line);
            let cleaned = trim_chars(&stripped);
            if cleaned.len() > 0 {
                let ghost c = cleaned@;
                let mut k: usize = 0;
                while k < cleaned.len()
                    invariant
                        k <= cleaned@.len(),
                        out@ == before + cleaned@.subrange(0, k as int),
                    decreases cleaned@.len() - k,
                {
                    out.push(cleaned[k]);
                    k += 1;
                    assert(out@ =~= before + cleaned@.subrange(0, k as int));
                }
                out.push(' ');
                assert(out@ =~= before + c.push(' '));
            }
            assert(out@ =~= before + plain_piece(rest[0]));
            assert(before + plain_lines(rest, in_fence) =~= out@ + plain_lines(
                all.skip(i + 1),
                in_fence,
            ));
        }
        i += 1;
    }
    assert(all.skip(i as int).len() == 0);
    assert(out@ =~= out@ + plain_lines(all.skip(i as int), in_fence));
    let t = trim_end_chars(&out);
    string_from_chars(&t)
}


// ---------------------------------------------------------------------------
// The frontmatter block
// ---------------------------------------------------------------------------

/// Why a post's source has no usable frontmatter.
pub enum FrontmatterError {
    /// The source does not start with a `---` line.
    Missing,
    /// No line starting with `---` closes the block.
    Unterminated,
    /// The block is not valid YAML for a frontmatter; the text says why.
    Invalid(String),
}

impl FrontmatterError {
    /// The text of this error as the build reports it.
    pub open spec fn spec_message(&self) -> Seq<char> {
        match self {
            FrontmatterError::Missing => "missing frontmatter: file must start with ---"@,
            FrontmatterError::Unterminated => "unterminated frontmatter: closing --- not found"@,
            FrontmatterError::Invalid(e) => "invalid frontmatter: "@ + e@,
        }
    }

    /// The text of this error as the build reports it.
    pub fn message(&self) -> (m: String)
        ensures
            m@ == self.spec_message(),
    {
        match self {
            FrontmatterError::Missing => "missing frontmatter: file must start with ---".to_owned(),
            FrontmatterError::Unterminated => "unterminated frontmatter: closing --- not found".to_owned(),
            FrontmatterError::Invalid(e) => {
                let mut m = "invalid frontmatter: ".to_owned();
                m.append(e.as_str());
                m
            },
        }
    }
}

/// The byte order mark that a source may start with.
pub open spec fn bom() -> char {
    '\u{feff}'
}

pub open spec fn dashes() -> Seq<char> {
    seq!['-', '-', '-']
}

/// The pattern that closes the frontmatter block: a line starting with `---`.
pub open spec fn closing() -> Seq<char> {
    seq!['\n', '-', '-', '-']
}

/// `s` without a leading byte order mark.
pub open spec fn strip_bom(s: Seq<char>) -> Seq<char> {
    if s.len() > 0 && s[0] == bom() {
        s.drop_first()
    } else {
        s
    }
}

/// What follows the opening `---` line (ended by `"\n"` or `"\r\n"`), if the
/// source starts with one.
pub open spec fn after_opening(s: Seq<char>) -> Option<Seq<char>> {
    let t = strip_bom(s);
    if has_prefix(t, dashes()) {
        let r = t.skip(3);
        if has_prefix(r, seq!['\n']) {
            Some(r.skip(1))
        } else if has_prefix(r, seq!['\r', '\n']) {
            Some(r.skip(2))
        } else {
            None
        }
    } else {
        None
    }
}

/// The first position at or after `i` where `n` occurs in `h`.
pub open spec fn find_from(h: Seq<char>, n: Seq<char>, i: int) -> Option<int>
    decreases h.len() + 1 - i,
{
    if i < 0 || i + n.len() > h.len() {
        None
    } else if h.subrange(i, i + n.len()) == n {
        Some(i)
    } else {
        find_from(h, n, i + 1)
    }
}

/// `s` without the copies of `c` it starts with.
pub open spec fn trim_start_char(s: Seq<char>, c: char) -> Seq<char>
    decreases s.len(),
{
    if s.len() > 0 && s[0] == c {
        trim_start_char(s.drop_first(), c)
    } else {
        s
    }
}

/// `s` without the copies of `---` it starts with.
pub open spec fn trim_start_dashes(s: Seq<char>) -> Seq<char>
    decreases s.len(),
{
    if s.len() >= 3 && has_prefix(s, dashes()) {
        trim_start_dashes(s.skip(3))
    } else {
        s
    }
}

/// The body that follows the closing line, given the text from the `'\n'`
/// that starts it: newlines, then `---`s, then carriage returns, then
/// newlines are dropped from its front.
pub open spec fn body_after(s: Seq<char>) -> Seq<char> {
    trim_start_char(trim_start_char(trim_start_dashes(trim_start_char(s, '\n')), '\r'), '\n')
}

/// The frontmatter block and the body of a post's source.
pub open spec fn frontmatter_parts(s: Seq<char>) -> Result<(Seq<char>, Seq<char>), FrontmatterError> {
    match after_opening(s) {
        None => Err(FrontmatterError::Missing),
        Some(rest) => match find_from(rest, closing(), 0) {
            None => Err(FrontmatterError::Unterminated),
            Some(e) => Ok((rest.subrange(0, e), body_after(rest.skip(e)))),
        },
    }
}

/// Scanning on from `i`, the first occurrence is at `k` when nothing
/// matches before it.
proof fn lemma_find_from_at(h: Seq<char>, n: Seq<char>, i: int, k: int)
    requires
        0 <= i <= k,
        k + n.len() <= h.len(),
        h.subrange(k, k + n.len()) == n,
        forall|j: int| i <= j < k ==> #[trigger] h.subrange(j, j + n.len()) != n,
    ensures
        find_from(h, n, i) == Some(k),
    decreases k - i,
{
    if i < k {
        lemma_find_from_at(h, n, i + 1, k);
    }
}

/// The source of a post written with frontmatter block `yaml` and body
/// `body`.
pub open spec fn post_source(yaml: Seq<char>, body: Seq<char>) -> Seq<char> {
    seq!['-', '-', '-', '\n'] + yaml + seq!['\n', '-', '-', '-', '\n'] + body
}

/// One leading byte order mark changes nothing: a source and the same
/// source after a byte order mark split alike, or fail alike.
pub proof fn law_frontmatter_ignores_one_bom(s: Seq<char>)
    requires
        !(s.len() > 0 && s[0] == bom()),
    ensures
        frontmatter_parts(seq![bom()] + s) == frontmatter_parts(s),
{
    let t = seq![bom()] + s;
    assert(t[0] == bom());
    assert(t.drop_first() =~= s);
    assert(strip_bom(t) == strip_bom(s));
    assert(after_opening(t) == after_opening(s));
}

/// Splitting a source written as `---`, the block, `---` and the body gives
/// the block and the body back, where the block has no line that starts
/// with `---` and the body does not start with a newline.
pub proof fn law_frontmatter_round_trip(yaml: Seq<char>, body: Seq<char>)
    requires
        !contains(yaml, closing()),
        !(body.len() > 0 && body[0] == '\n'),
    ensures
        frontmatter_parts(post_source(yaml, body)) == Ok::<(Seq<char>, Seq<char>), FrontmatterError>((yaml, body)),
{
    let src = post_source(yaml, body);
    let y = yaml.len() as int;
    let tail = seq!['\n', '-', '-', '-', '\n'] + body;
    let rest = yaml + tail;
    assert(src =~= seq!['-', '-', '-', '\n'] + rest);
    assert(strip_bom(src) == src);
    assert(src.subrange(0, 3) =~= dashes());
    let r = src.skip(3);
    assert(r =~= seq!['\n'] + rest);
    assert(r.subrange(0, 1) =~= seq!['\n']);
    assert(r.skip(1) =~= rest);
    assert(after_opening(src) == Some(rest));
    assert(rest.subrange(y, y + 4) =~= closing());
    assert forall|j: int| 0 <= j < y implies #[trigger] rest.subrange(j, j + closing().len()) != closing() by {
        if j + 4 <= y {
            assert(rest.subrange(j, j + 4) =~= yaml.subrange(j, j + 4));
            if yaml.subrange(j, j + 4) == closing() {
                assert(yaml.subrange(j, j + closing().len()) == closing());
                assert(contains(yaml, closing()));
            }
        } else {
            assert(rest[y] == '\n');
            assert(rest.subrange(j, j + 4)[y - j] == rest[y]);
            assert(closing()[y - j] == '-');
        }
    }
    lemma_find_from_at(rest, closing(), 0, y);
    assert(rest.subrange(0, y) =~= yaml);
    assert(rest.skip(y) =~= tail);
    let t1 = seq!['-', '-', '-', '\n'] + body;
    assert(tail.drop_first() =~= t1);
    assert(t1[0] == '-');
    assert(trim_start_char(t1, '\n') == t1);
    assert(trim_start_char(tail, '\n') == t1);
    let t2 = seq!['\n'] + body;
    assert(t1.subrange(0, 3) =~= dashes());
    assert(t1.skip(3) =~= t2);
    assert(!has_prefix(t2, dashes())) by {
        if has_prefix(t2, dashes()) {
            assert(t2.subrange(0, 3)[0] == t2[0]);
        }
    }
    assert(trim_start_dashes(t2) == t2);
    assert(trim_start_dashes(t1) == t2);
    assert(trim_start_char(t2, '\r') == t2);
    assert(t2.drop_first() =~= body);
    assert(trim_start_char(body, '\n') == body);
    assert(trim_start_char(t2, '\n') == body);
    assert(body_after(tail) == body);
}

/// Where the text after the opening `---` line starts in `v`, if `v` opens
/// with one.
fn opening_end(v: &Vec<char>) -> (r: Option<usize>)
    ensures
        match r {
            Some(rs) => rs <= v@.len() && after_opening(v@) == Some(v@.skip(rs as int)),
            None => after_opening(v@) is None,
        },
{
    let n = v.len();
    let start: usize = if n > 0 && v[0] == '\u{feff}' { 1 } else { 0 };
    let ghost t = strip_bom(v@);
    assert(t =~= v@.skip(start as int));
    let d = ['-', '-', '-'];
    assert(d@ =~= dashes());
    if !matches_at(v, &d, start) {
        assert(!has_prefix(t, dashes())) by {
            if has_prefix(t, dashes()) {
                assert(v@.subrange(start as int, start + 3) =~= t.subrange(0, 3));
            }
        }
        return None;
    }
    assert(t.subrange(0, 3) =~= v@.subrange(start as int, start + 3));
    let after = start + 3;
    let ghost r3 = t.skip(3);
    assert(r3 =~= v@.skip(after as int));
    let nl = ['\n'];
    let crlf = ['\r', '\n'];
    assert(nl@ =~= seq!['\n']);
    assert(crlf@ =~= seq!['\r', '\n']);
    let nl_here = matches_at(v, &nl, after);
    assert(nl_here == has_prefix(r3, seq!['\n'])) by {
        if after + 1 <= n {
            assert(r3.subrange(0, 1) =~= v@.subrange(after as int, after + 1));
        }
    }
    if nl_here {
        assert(r3.skip(1) =~= v@.skip(after + 1));
        return Some(after + 1);
    }
    let crlf_here = matches_at(v, &crlf, after);
    assert(crlf_here == has_prefix(r3, seq!['\r', '\n'])) by {
        if after + 2 <= n {
            assert(r3.subrange(0, 2) =~= v@.subrange(after as int, after + 2));
        }
    }
    if crlf_here {
        assert(r3.skip(2) =~= v@.skip(after + 2));
        return Some(after + 2);
    }
    None
}

/// The first position of the closing pattern in `rest`.
fn find_closing(rest: &Vec<char>) -> (r: Option<usize>)
    ensures
        match r {
            Some(e) => e <= rest@.len() && find_from(rest@, closing(), 0) == Some(e as int),
            None => find_from(rest@, closing(), 0) is None,
        },
{
    let pat = ['\n', '-', '-', '-'];
    assert(pat@ =~= closing());
    let m = rest.len();
    let mut e: usize = 0;
    loop
        invariant
            m == rest@.len(),
            e <= m,
            pat@ == closing(),
            find_from(rest@, closing(), 0) == find_from(rest@, closing(), e as int),
        decreases m - e,
    {
        if m - e < 4 {
            return None;
        }
        if matches_at(rest, &pat, e) {
            return Some(e);
        }
        e += 1;
    }
}

/// Where the body starts in `rest`, the closing line starting at `e`.
fn body_start(rest: &Vec<char>, e: usize) -> (p: usize)
    requires
        e <= rest@.len(),
    ensures
        e <= p <= rest@.len(),
        rest@.skip(p as int) == body_after(rest@.skip(e as int)),
{
    let m = rest.len();
    let d = ['-', '-', '-'];
    assert(d@ =~= dashes());
    let mut p: usize = e;
    let ghost tail = rest@.skip(e as int);
    while p < m && rest[p] == '\n'
        invariant
            m == rest@.len(),
            e <= p <= m,
            trim_start_char(tail, '\n') == trim_start_char(rest@.skip(p as int), '\n'),
        decreases m - p,
    {
        proof {
            lemma_skip_step(rest@, p as int);
        }
        p += 1;
    }
    let ghost s1 = rest@.skip(p as int);
    assert(trim_start_char(tail, '\n') == s1) by {
        if p < m {
            lemma_skip_step(rest@, p as int);
        }
    }
    while m - p >= 3 && matches_at(rest, &d, p)
        invariant
            m == rest@.len(),
            e <= p <= m,
            d@ == dashes(),
            trim_start_dashes(s1) == trim_start_dashes(rest@.skip(p as int)),
        decreases m - p,
    {
        assert(rest@.skip(p as int).subrange(0, 3) =~= rest@.subrange(p as int, p + 3));
        assert(rest@.skip(p as int).skip(3) =~= rest@.skip(p + 3));
        p += 3;
    }
    let ghost s2 = rest@.skip(p as int);
    assert(trim_start_dashes(s1) == s2) by {
        if m - p >= 3 {
            assert(rest@.skip(p as int).subrange(0, 3) =~= rest@.subrange(p as int, p + 3));
        }
    }
    while p < m && rest[p] == '\r'
        invariant
            m == rest@.len(),
            e <= p <= m,
            trim_start_char(s2, '\r') == trim_start_char(rest@.skip(p as int), '\r'),
        decreases m - p,
    {
        proof {
            lemma_skip_step(rest@, p as int);
        }
        p += 1;
    }
    let ghost s3 = rest@.skip(p as int);
    assert(trim_start_char(s2, '\r') == s3) by {
        if p < m {
            lemma_skip_step(rest@, p as int);
        }
    }
    while p < m && rest[p] == '\n'
        invariant
            m == rest@.len(),
            e <= p <= m,
            trim_start_char(s3, '\n') == trim_start_char(rest@.skip(p as int), '\n'),
        decreases m - p,
    {
        proof {
            lemma_skip_step(rest@, p as int);
        }
        p += 1;
    }
    assert(trim_start_char(s3, '\n') == rest@.skip(p as int)) by {
        if p < m {
            lemma_skip_step(rest@, p as int);
        }
    }
    p
}

/// Splits a post's source into its YAML frontmatter block and its Markdown
/// body. The source must start with a `---` line (after an optional byte
/// order mark); the block ends at the first line that starts with `---`.
pub fn split_frontmatter(source: &str) -> (r: Result<(&str, &str), FrontmatterError>)
    ensures
        match frontmatter_parts(source@) {
            Ok((yaml, body)) => r matches Ok((y, b)) && y@ == yaml && b@ == body,
            Err(FrontmatterError::Missing) => r matches Err(FrontmatterError::Missing),
            Err(_) => r matches Err(FrontmatterError::Unterminated),
        },
{
    let v = chars_of(source);
    let n = v.len();
    let rs = match opening_end(&v) {
        Some(rs) => rs,
        None => return Err(FrontmatterError::Missing),
    };
    let rest = slice_chars(&v, rs, n);
    assert(rest@ =~= v@.skip(rs as int));
    let e = match find_closing(&rest) {
        Some(e) => e,
        None => return Err(FrontmatterError::Unterminated),
    };
    let p = body_start(&rest, e);
    let yaml = source.substring_char(rs, rs + e);
    let body = source.substring_char(rs + p, n);
    assert(yaml@ =~= rest@.subrange(0, e as int));
    assert(body@ =~= rest@.skip(p as int));
    Ok((yaml, body))
}


// ---------------------------------------------------------------------------
// Dates
// ---------------------------------------------------------------------------

/// The first year that a date may have.
pub open spec fn min_year() -> int {
    -262143
}

/// The last year that a date may have.
pub open spec fn max_year() -> int {
    262142
}

/// Leap years of the proleptic Gregorian calendar.
pub open spec fn is_leap(y: int) -> bool {
    (y % 4 == 0 && y % 100 != 0) || y % 400 == 0
}

pub open spec fn days_in_month(y: int, m: int) -> int {
    if m == 2 {
        if is_leap(y) {
            29
        } else {
            28
        }
    } else if m == 4 || m == 6 || m == 9 || m == 11 {
        30
    } else {
        31
    }
}

/// A calendar day that exists, in the range of years that dates cover.
pub open spec fn valid_date(y: int, m: int, d: int) -> bool {
    &&& min_year() <= y <= max_year()
    &&& 1 <= m <= 12
    &&& 1 <= d <= days_in_month(y, m)
}

/// A calendar date (year, month, day) of the proleptic Gregorian calendar.
#[derive(Clone, Copy, Debug)]
pub struct Date {
    year: i32,
    month: u32,
    day: u32,
}

impl View for Date {
    type V = (int, int, int);

    /// The year, month (1 to 12) and day of the month (from 1).
    closed spec fn view(&self) -> (int, int, int) {
        (self.year as int, self.month as int, self.day as int)
    }
}

impl Date {
    #[verifier::type_invariant]
    closed spec fn wf(self) -> bool {
        valid_date(self.year as int, self.month as int, self.day as int)
    }

    /// The date with the given year, month and day, if that day exists.
    #[verifier::spinoff_prover]
    pub fn from_ymd(year: i32, month: u32, day: u32) -> (r: Option<Date>)
        ensures
            r is Some <==> valid_date(year as int, month as int, day as int),
            r matches Some(d) ==> d@ == (year as int, month as int, day as int),
    {
        if year < -262143 || year > 262142 || month < 1 || month > 12 || day < 1 {
            return None;
        }
        let leap = (year % 4 == 0 && year % 100 != 0) || year % 400 == 0;
        assert(leap == is_leap(year as int)) by (nonlinear_arith)
            requires
                leap == ((year % 4 == 0 && year % 100 != 0) || year % 400 == 0),
                -262143 <= year <= 262142,
        {
        }
        let last: u32 = if month == 2 {
            if leap {
                29
            } else {
                28
            }
        } else if month == 4 || month == 6 || month == 9 || month == 11 {
            30
        } else {
            31
        };
        if day > last {
            return None;
        }
        Some(Date { year, month, day })
    }

    /// The year.
    pub fn year(&self) -> (y: i32)
        ensures
            y as int == self@.0,
            min_year() <= y <= max_year(),
    {
        proof {
            use_type_invariant(self);
        }
        self.year
    }

    /// The month, from 1 to 12.
    pub fn month(&self) -> (m: u32)
        ensures
            m as int == self@.1,
            1 <= m <= 12,
    {
        proof {
            use_type_invariant(self);
        }
        self.month
    }

    /// The day of the month, from 1.
    pub fn day(&self) -> (d: u32)
        ensures
            d as int == self@.2,
            valid_date(self@.0, self@.1, self@.2),
    {
        proof {
            use_type_invariant(self);
        }
        self.day
    }
}

/// The character of the decimal digit `n`.
pub open spec fn digit(n: int) -> char {
    (n + 48) as char
}

/// The decimal digits of `n`.
pub open spec fn decimal(n: nat) -> Seq<char>
    decreases n,
{
    if n < 10 {
        seq![digit(n as int)]
    } else {
        decimal(n / 10).push(digit((n % 10) as int))
    }
}

/// `s` with zeros in front, to at least `w` characters.
pub open spec fn zero_pad(s: Seq<char>, w: nat) -> Seq<char> {
    if s.len() < w {
        Seq::new((w - s.len()) as nat, |i: int| '0') + s
    } else {
        s
    }
}

/// A year as `%Y` writes it: four digits at least, with a sign before years
/// outside 0 to 9999.
pub open spec fn year_text(y: int) -> Seq<char> {
    if 0 <= y <= 9999 {
        zero_pad(decimal(y as nat), 4)
    } else if y > 9999 {
        seq!['+'] + decimal(y as nat)
    } else {
        seq!['-'] + zero_pad(decimal((-y) as nat), 4)
    }
}

/// The three-letter English name of month `m`.
pub open spec fn month_abbr(m: int) -> Seq<char> {
    if m == 1 {
        seq!['J', 'a', 'n']
    } else if m == 2 {
        seq!['F', 'e', 'b']
    } else if m == 3 {
        seq!['M', 'a', 'r']
    } else if m == 4 {
        seq!['A', 'p', 'r']
    } else if m == 5 {
        seq!['M', 'a', 'y']
    } else if m == 6 {
        seq!['J', 'u', 'n']
    } else if m == 7 {
        seq!['J', 'u', 'l']
    } else if m == 8 {
        seq!['A', 'u', 'g']
    } else if m == 9 {
        seq!['S', 'e', 'p']
    } else if m == 10 {
        seq!['O', 'c', 't']
    } else if m == 11 {
        seq!['N', 'o', 'v']
    } else {
        seq!['D', 'e', 'c']
    }
}

/// The three-letter English names of the days of the week, Monday first.
pub open spec fn weekday_abbrs() -> Seq<Seq<char>> {
    seq![
        seq!['M', 'o', 'n'],
        seq!['T', 'u', 'e'],
        seq!['W', 'e', 'd'],
        seq!['T', 'h', 'u'],
        seq!['F', 'r', 'i'],
        seq!['S', 'a', 't'],
        seq!['S', 'u', 'n'],
    ]
}

/// The time and zone that follow the date in a feed date.
pub open spec fn midnight_gmt() -> Seq<char> {
    seq![' ', '0', '0', ':', '0', '0', ':', '0', '0', ' ', 'G', 'M', 'T']
}

/// The number of days from 1970-01-01 to the date `(y, m, d)` of the
/// proleptic Gregorian calendar (negative before it).
pub open spec fn days_from_civil(y: int, m: int, d: int) -> int {
    let yy = if m <= 2 {
        y - 1
    } else {
        y
    };
    let era = yy / 400;
    let yoe = yy - era * 400;
    let mp = if m > 2 {
        m - 3
    } else {
        m + 9
    };
    let doy = (153 * mp + 2) / 5 + d - 1;
    let doe = yoe * 365 + yoe / 4 - yoe / 100 + doy;
    era * 146097 + doe - 719468
}

/// The day of the week of `(y, m, d)`, 0 for Monday: 1970-01-01 was a
/// Thursday.
pub open spec fn weekday_index(y: int, m: int, d: int) -> int {
    (days_from_civil(y, m, d) + 3) % 7
}

/// A number as `%d` or `%m` writes it: two digits at least.
pub open spec fn two_digits(n: int) -> Seq<char> {
    zero_pad(decimal(n as nat), 2)
}

/// The format of a feed date.
pub open spec fn rfc2822_format() -> Seq<char> {
    seq![
        '%', 'a', ',', ' ', '%', 'd', ' ', '%', 'b', ' ', '%', 'Y', ' ', '0', '0', ':', '0', '0', ':',
        '0', '0', ' ', 'G', 'M', 'T',
    ]
}

/// The format of a date in a page: `%Y-%m-%d`.
pub open spec fn iso_format() -> Seq<char> {
    seq!['%', 'Y', '-', '%', 'm', '-', '%', 'd']
}

/// The date `(y, m, d)` in the format `"%a, %d %b %Y 00:00:00 GMT"`: the
/// weekday's and the month's three-letter English names, the day in two
/// digits, the year as `%Y` writes it.
pub open spec fn rfc2822_of(y: int, m: int, d: int) -> Seq<char> {
    weekday_abbrs()[weekday_index(y, m, d)] + seq![',', ' '] + two_digits(d) + seq![' ']
        + month_abbr(m) + seq![' '] + year_text(y) + midnight_gmt()
}

/// The date `(y, m, d)` in the format `%Y-%m-%d`.
pub open spec fn iso_date_of(y: int, m: int, d: int) -> Seq<char> {
    year_text(y) + seq!['-'] + two_digits(m) + seq!['-'] + two_digits(d)
}

/// `NaiveDate::from_ymd_opt`, then `NaiveDate::format` with `fmt`, written
/// out with `to_string`. For the two formats this library uses, the text is
/// what chrono's format documentation gives: `%a` and `%b` the English
/// three-letter names of the weekday and month, `%d` and `%m` two digits,
/// `%Y` the year as `year_text` writes it. Other formats are not admitted: a
/// format that chrono cannot write makes `to_string` panic.
#[verifier::external_body]
fn chrono_format(year: i32, month: u32, day: u32, fmt: &str) -> (s: String)
    requires
        valid_date(year as int, month as int, day as int),
        fmt@ == rfc2822_format() || fmt@ == iso_format(),
    ensures
        fmt@ == rfc2822_format() ==> s@ == rfc2822_of(year as int, month as int, day as int),
        fmt@ == iso_format() ==> s@ == iso_date_of(year as int, month as int, day as int),
{
    chrono::NaiveDate::from_ymd_opt(year, month, day).unwrap().format(fmt).to_string()
}

/// The date as RSS `pubDate` writes it, midnight GMT:
/// `"Fri, 02 Jan 2026 00:00:00 GMT"`.
pub fn rfc2822_date(date: &Date) -> (s: String)
    ensures
        s@ == rfc2822_of(date@.0, date@.1, date@.2),
{
    let fmt = "%a, %d %b %Y 00:00:00 GMT";
    proof {
        reveal_strlit("%a, %d %b %Y 00:00:00 GMT");
    }
    assert(fmt@ =~= rfc2822_format());
    let y = date.year();
    let m = date.month();
    let d = date.day();
    chrono_format(y, m, d, fmt)
}

/// The date as pages show it: `"2026-01-02"`.
pub fn date_text(date: &Date) -> (s: String)
    ensures
        s@ == iso_date_of(date@.0, date@.1, date@.2),
{
    let fmt = "%Y-%m-%d";
    proof {
        reveal_strlit("%Y-%m-%d");
    }
    assert(fmt@ =~= iso_format());
    let y = date.year();
    let m = date.month();
    let d = date.day();
    chrono_format(y, m, d, fmt)
}


// ---------------------------------------------------------------------------
// Posts
// ---------------------------------------------------------------------------

/// What a post's frontmatter block declares.
pub struct Frontmatter {
    pub title: String,
    pub date: Date,
    /// Empty where the block names no tags.
    pub tags: Vec<String>,
    /// Empty where the block has no description.
    pub description: String,
    /// False where the block does not say.
    pub draft: bool,
}

/// A post, ready to be rendered.
pub struct Post {
    /// The file name without its `.md` extension.
    pub slug: String,
    pub title: String,
    pub date: Date,
    pub tags: Vec<String>,
    pub description: String,
    /// The body rendered to HTML.
    pub html: String,
    /// The body as plain text (see `plain_text`).
    pub plain_text: String,
    pub reading_time_min: u32,
}

/// How post bodies are rendered: the comrak extensions that are on, the
/// prefix of heading ids (`None`: no ids), and the syntect theme of code
/// blocks (one of syntect's default themes, see `is_default_theme`).
pub struct MarkdownOptions {
    pub table: bool,
    pub strikethrough: bool,
    pub autolink: bool,
    pub footnotes: bool,
    pub tasklist: bool,
    pub shortcodes: bool,
    pub header_id_prefix: Option<String>,
    pub code_theme: String,
}

/// What a [`MarkdownOptions`] holds, as plain values.
pub struct MarkdownOptionsView {
    pub table: bool,
    pub strikethrough: bool,
    pub autolink: bool,
    pub footnotes: bool,
    pub tasklist: bool,
    pub shortcodes: bool,
    pub header_id_prefix: Option<Seq<char>>,
    pub code_theme: Seq<char>,
}

impl View for MarkdownOptions {
    type V = MarkdownOptionsView;

    open spec fn view(&self) -> MarkdownOptionsView {
        MarkdownOptionsView {
            table: self.table,
            strikethrough: self.strikethrough,
            autolink: self.autolink,
            footnotes: self.footnotes,
            tasklist: self.tasklist,
            shortcodes: self.shortcodes,
            header_id_prefix: match self.header_id_prefix {
                Some(p) => Some(p@),
                None => None,
            },
            code_theme: self.code_theme@,
        }
    }
}

/// The options of this site: tables, strikethrough, autolinks, footnotes,
/// task lists and emoji shortcodes on, heading ids without a prefix, code
/// highlighted in the `base16-ocean.dark` theme.
pub open spec fn site_markdown_view() -> MarkdownOptionsView {
    MarkdownOptionsView {
        table: true,
        strikethrough: true,
        autolink: true,
        footnotes: true,
        tasklist: true,
        shortcodes: true,
        header_id_prefix: Some(Seq::empty()),
        code_theme: "base16-ocean.dark"@,
    }
}

/// The Markdown options of this site.
pub fn site_markdown_options() -> (o: MarkdownOptions)
    ensures
        o@ == site_markdown_view(),
        is_default_theme(o@.code_theme),
{
    let prefix = "";
    proof {
        reveal_strlit("");
    }
    let prefix = prefix.to_owned();
    let theme = "base16-ocean.dark".to_owned();
    assert(prefix@ =~= Seq::<char>::empty());
    let o = MarkdownOptions {
        table: true,
        strikethrough: true,
        autolink: true,
        footnotes: true,
        tasklist: true,
        shortcodes: true,
        header_id_prefix: Some(prefix),
        code_theme: theme,
    };
    assert(o@.header_id_prefix == Some(Seq::<char>::empty()));
    o
}

/// The HTML that comrak renders for the Markdown text `md` with `options`.
pub uninterp spec fn markdown_html(md: Seq<char>, options: MarkdownOptionsView) -> Seq<char>;

/// The themes that syntect's `ThemeSet::load_defaults` holds:
/// `base16-ocean.dark`, `base16-eighties.dark`, `base16-mocha.dark`,
/// `base16-ocean.light`, `InspiredGitHub`, `Solarized (dark)` and
/// `Solarized (light)`.
pub open spec fn is_default_theme(name: Seq<char>) -> bool {
    ||| name == "base16-ocean.dark"@
    ||| name == "base16-eighties.dark"@
    ||| name == "base16-mocha.dark"@
    ||| name == "base16-ocean.light"@
    ||| name == "InspiredGitHub"@
    ||| name == "Solarized (dark)"@
    ||| name == "Solarized (light)"@
}

/// `comrak::markdown_to_html_with_plugins` with the extensions and heading
/// id prefix of `options` set on `comrak::Options::default()`, and syntect's
/// highlighter in the theme `options.code_theme` as the code fence plugin.
/// The theme must be one of syntect's default themes: the highlighter looks
/// it up by indexing its theme map, which panics on any other name. The HTML
/// is named, not stated: it is claimed to depend on the text and the options
/// alone.
#[verifier::external_body]
fn render_markdown(md: &str, o: &MarkdownOptions) -> (html: String)
    requires
        is_default_theme(o@.code_theme),
    ensures
        html@ == markdown_html(md@, o@),
{
    let adapter = comrak::plugins::syntect::SyntectAdapter::new(Some(&o.code_theme));
    let mut options = comrak::Options::default();
    options.extension.table = o.table;
    options.extension.strikethrough = o.strikethrough;
    options.extension.autolink = o.autolink;
    options.extension.footnotes = o.footnotes;
    options.extension.tasklist = o.tasklist;
    options.extension.header_id_prefix = o.header_id_prefix.clone();
    options.extension.shortcodes = o.shortcodes;
    let mut plugins = comrak::options::Plugins::default();
    plugins.render.codefence_syntax_highlighter = Some(&adapter);
    comrak::markdown_to_html_with_plugins(md, &options, &plugins)
}

/// Whether a post with this frontmatter is built: drafts only when asked for.
pub open spec fn is_published(fm: &Frontmatter, include_drafts: bool) -> bool {
    !fm.draft || include_drafts
}

/// The post that the file `slug` with frontmatter `fm` and Markdown `body`
/// becomes; `None` for a draft unless drafts are included.
pub fn post_from_parts(slug: String, fm: Frontmatter, body: &str, include_drafts: bool) -> (r:
    Option<Post>)
    ensures
        r is Some <==> is_published(&fm, include_drafts),
        r matches Some(p) ==> {
            &&& p.slug == slug
            &&& p.title == fm.title
            &&& p.date == fm.date
            &&& p.tags == fm.tags
            &&& p.description == fm.description
            &&& p.html@ == markdown_html(body@, site_markdown_view())
            &&& p.plain_text@ == plain_of(body@)
            &&& p.reading_time_min == minutes_for(words(plain_of(body@)).len())
        },
{
    if fm.draft && !include_drafts {
        return None;
    }
    let plain = plain_text(body);
    let html = render_markdown(body, &site_markdown_options());
    let minutes = reading_time_min(plain.as_str());
    Some(
        Post {
            slug,
            title: fm.title,
            date: fm.date,
            tags: fm.tags,
            description: fm.description,
            html,
            reading_time_min: minutes,
            plain_text: plain,
        },
    )
}

} // verus!
