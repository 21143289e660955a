//! Character-level text model: Unicode whitespace, trimming, splitting into
//! lines and words, and substring search, all stated over `Seq<char>`.
use vstd::prelude::*;

verus! {

// ---------------------------------------------------------------------------
// Specifications
// ---------------------------------------------------------------------------

/// The Unicode `White_Space` property, which is what `char::is_whitespace`
/// tests: U+0009..U+000D, U+0020, U+0085, U+00A0, U+1680, U+2000..U+200A,
/// U+2028, U+2029, U+202F, U+205F and U+3000.
pub open spec fn is_ws(c: char) -> bool {
    let u = c as u32;
    ||| 0x9 <= u <= 0xd
    ||| u == 0x20
    ||| u == 0x85
    ||| u == 0xa0
    ||| u == 0x1680
    ||| 0x2000 <= u <= 0x200a
    ||| u == 0x2028
    ||| u == 0x2029
    ||| u == 0x202f
    ||| u == 0x205f
    ||| u == 0x3000
}

/// `s` without its leading whitespace.
pub open spec fn trim_start(s: Seq<char>) -> Seq<char>
    decreases s.len(),
{
    if s.len() > 0 && is_ws(s[0]) {
        trim_start(s.drop_first())
    } else {
        s
    }
}

/// `s` without its trailing whitespace.
pub open spec fn trim_end(s: Seq<char>) -> Seq<char>
    decreases s.len(),
{
    if s.len() > 0 && is_ws(s.last()) {
        trim_end(s.drop_last())
    } else {
        s
    }
}

/// `s` without leading and trailing whitespace.
pub open spec fn trim(s: Seq<char>) -> Seq<char> {
    trim_end(trim_start(s))
}

/// Whether `s` starts with `p`.
pub open spec fn has_prefix(s: Seq<char>, p: Seq<char>) -> bool {
    p.len() <= s.len() && s.subrange(0, p.len() as int) == p
}

/// A line that ended at a `'\n'`, without the `'\r'` of a `"\r\n"` ending.
pub open spec fn strip_cr(line: Seq<char>) -> Seq<char> {
    if line.len() > 0 && line.last() == '\r' {
        line.drop_last()
    } else {
        line
    }
}

/// The lines of `s`, given that `cur` holds the characters of the line that
/// is being read: lines end at `'\n'`, a `'\r'` just before it is dropped,
/// and a final line ending is optional.
pub open spec fn lines_from(s: Seq<char>, cur: Seq<char>) -> Seq<Seq<char>>
    decreases s.len(),
{
    if s.len() == 0 {
        if cur.len() == 0 {
            seq![]
        } else {
            seq![cur]
        }
    } else if s[0] == '\n' {
        seq![strip_cr(cur)] + lines_from(s.drop_first(), seq![])
    } else {
        lines_from(s.drop_first(), cur.push(s[0]))
    }
}

/// The lines of `s`, as `str::lines` yields them.
pub open spec fn lines(s: Seq<char>) -> Seq<Seq<char>> {
    lines_from(s, seq![])
}

/// The words of `s` (maximal runs of non-whitespace), given that `cur` holds
/// the characters of the word being read.
pub open spec fn words_from(s: Seq<char>, cur: Seq<char>) -> Seq<Seq<char>>
    decreases s.len(),
{
    if s.len() == 0 {
        if cur.len() == 0 {
            seq![]
        } else {
            seq![cur]
        }
    } else if is_ws(s[0]) {
        (if cur.len() == 0 {
            seq![]
        } else {
            seq![cur]
        }) + words_from(s.drop_first(), seq![])
    } else {
        words_from(s.drop_first(), cur.push(s[0]))
    }
}

/// The words of `s`, as `str::split_whitespace` yields them.
pub open spec fn words(s: Seq<char>) -> Seq<Seq<char>> {
    words_from(s, seq![])
}

/// Whether `n` occurs in `h` (the empty sequence occurs everywhere).
pub open spec fn contains(h: Seq<char>, n: Seq<char>) -> bool {
    exists|i: int| 0 <= i <= h.len() - n.len() && #[trigger] h.subrange(i, i + n.len()) == n
}

/// The number of non-overlapping occurrences of `n` in `h`, found from the
/// left as `str::matches` finds them; the empty pattern matches at each of the
/// `h.len() + 1` positions between characters.
pub open spec fn match_count(h: Seq<char>, n: Seq<char>) -> nat
    decreases h.len(),
{
    if n.len() == 0 {
        h.len() + 1
    } else if h.len() < n.len() {
        0
    } else if h.subrange(0, n.len() as int) == n {
        1 + match_count(h.skip(n.len() as int), n)
    } else {
        match_count(h.drop_first(), n)
    }
}

// ---------------------------------------------------------------------------
// Lemmas
// ---------------------------------------------------------------------------

/// Unfolding a definition that reads `s` from the front, one position on.
pub proof fn lemma_skip_step(s: Seq<char>, i: int)
    requires
        0 <= i < s.len(),
    ensures
        s.skip(i)[0] == s[i],
        s.skip(i).drop_first() == s.skip(i + 1),
        s.skip(i).len() > 0,
{
    assert(s.skip(i).drop_first() =~= s.skip(i + 1));
}

/// Every character of `s` is whitespace.
pub open spec fn all_ws(s: Seq<char>) -> bool {
    forall|i: int| 0 <= i < s.len() ==> is_ws(#[trigger] s[i])
}

/// Leading whitespace removed: nothing is left exactly when `s` is all
/// whitespace, and what is left starts with a non-whitespace character.
pub proof fn lemma_trim_start_shape(s: Seq<char>)
    ensures
        (trim_start(s).len() == 0) == all_ws(s),
        trim_start(s).len() > 0 ==> !is_ws(trim_start(s)[0]),
        trim_start(s).len() <= s.len(),
        trim_start(s) == s.skip(s.len() - trim_start(s).len()),
    decreases s.len(),
{
    if s.len() > 0 && is_ws(s[0]) {
        lemma_trim_start_shape(s.drop_first());
        if !all_ws(s) {
            let i = choose|i: int| 0 <= i < s.len() && !is_ws(s[i]);
            assert(s.drop_first()[i - 1] == s[i]);
        }
        assert(s.drop_first().skip(s.drop_first().len() - trim_start(s).len()) =~= s.skip(
            s.len() - trim_start(s).len(),
        ));
    } else if s.len() > 0 {
        assert(!all_ws(s));
        assert(s.skip(0) =~= s);
    } else {
        assert(s.skip(0) =~= s);
    }
}

/// Trailing whitespace removed: what is left is a prefix of `s`, ending in
/// a non-whitespace character, and it is not empty when `s` starts with one.
pub proof fn lemma_trim_end_shape(s: Seq<char>)
    ensures
        trim_end(s).len() <= s.len(),
        trim_end(s) == s.take(trim_end(s).len() as int),
        trim_end(s).len() > 0 ==> !is_ws(trim_end(s).last()),
        s.len() > 0 && !is_ws(s[0]) ==> trim_end(s).len() > 0,
    decreases s.len(),
{
    if s.len() > 0 && is_ws(s.last()) {
        lemma_trim_end_shape(s.drop_last());
        assert(s.drop_last().take(trim_end(s).len() as int) =~= s.take(trim_end(s).len() as int));
        if s.len() > 0 && !is_ws(s[0]) {
            assert(s.len() > 1);
            assert(s.drop_last()[0] == s[0]);
        }
    } else {
        assert(s.take(s.len() as int) =~= s);
    }
}

/// `words_from` yields nothing exactly when no word is being read and the
/// rest is all whitespace.
proof fn lemma_words_from_empty(s: Seq<char>, cur: Seq<char>)
    ensures
        (words_from(s, cur).len() == 0) == (cur.len() == 0 && all_ws(s)),
    decreases s.len(),
{
    if s.len() > 0 {
        if is_ws(s[0]) {
            lemma_words_from_empty(s.drop_first(), seq![]);
        } else {
            lemma_words_from_empty(s.drop_first(), cur.push(s[0]));
            assert(cur.push(s[0]).len() > 0);
        }
        if all_ws(s) {
            assert forall|i: int| 0 <= i < s.drop_first().len() implies is_ws(
                #[trigger] s.drop_first()[i],
            ) by {
                assert(s.drop_first()[i] == s[i + 1]);
            }
        }
        if all_ws(s.drop_first()) && is_ws(s[0]) {
            assert forall|i: int| 0 <= i < s.len() implies is_ws(#[trigger] s[i]) by {
                if i > 0 {
                    assert(s[i] == s.drop_first()[i - 1]);
                }
            }
        }
    }
}

/// A text trims to nothing exactly when it has no words.
pub proof fn lemma_blank_iff_no_words(s: Seq<char>)
    ensures
        (trim(s).len() == 0) == (words(s).len() == 0),
{
    lemma_trim_start_shape(s);
    lemma_trim_end_shape(trim_start(s));
    lemma_words_from_empty(s, seq![]);
}

// ---------------------------------------------------------------------------
// Trusted conversions between `String` and its characters
// ---------------------------------------------------------------------------

/// `String::from_iter` over characters: the string holds exactly the given
/// characters, in order.
#[verifier::external_body]
pub(crate) fn string_from_chars(v: &[char]) -> (s: String)
    ensures
        s@ == v@,
{
    v.iter().collect()
}

// ---------------------------------------------------------------------------
// Executable operations
// ---------------------------------------------------------------------------

/// The characters of `s`, in order.
pub fn chars_of(s: &str) -> (v: Vec<char>)
    ensures
        v@ == s@,
{
    let mut v: Vec<char> = Vec::new();
    for c in it: s.chars()
        invariant
            v@ == it.seq().take(it.index() as int),
    {
        v.push(c);
    }
    v
}

/// `char::is_whitespace`.
pub fn is_whitespace(c: char) -> (b: bool)
    ensures
        b == is_ws(c),
{
    let u = c as u32;
    (0x9 <= u && u <= 0xd) || u == 0x20 || u == 0x85 || u == 0xa0 || u == 0x1680 || (0x2000 <= u
        && u <= 0x200a) || u == 0x2028 || u == 0x2029 || u == 0x202f || u == 0x205f || u == 0x3000
}

/// A copy of `v[lo..hi]`.
pub fn slice_chars(v: &[char], lo: usize, hi: usize) -> (r: Vec<char>)
    requires
        lo <= hi <= v@.len(),
    ensures
        r@ == v@.subrange(lo as int, hi as int),
{
    let mut r: Vec<char> = Vec::new();
    let mut i = lo;
    while i < hi
        invariant
            lo <= i <= hi <= v@.len(),
            r@ == v@.subrange(lo as int, i as int),
        decreases hi - i,
    {
        r.push(v[i]);
        i += 1;
        assert(r@ =~= v@.subrange(lo as int, i as int));
    }
    r
}

/// Whether `a` and `b` hold the same characters.
pub fn chars_eq(a: &[char], b: &[char]) -> (r: bool)
    ensures
        r == (a@ == b@),
{
    if a.len() != b.len() {
        return false;
    }
    let mut i: usize = 0;
    while i < a.len()
        invariant
            a@.len() == b@.len(),
            0 <= i <= a@.len(),
            forall|j: int| 0 <= j < i ==> a@[j] == b@[j],
        decreases a@.len() - i,
    {
        if a[i] != b[i] {
            return false;
        }
        i += 1;
    }
    assert(a@ =~= b@);
    true
}

/// Whether `n` occurs in `h` at position `at`.
pub fn matches_at(h: &[char], n: &[char], at: usize) -> (r: bool)
    requires
        at <= h@.len(),
    ensures
        r == (at + n@.len() <= h@.len() && h@.subrange(at as int, at + n@.len()) == n@),
{
    if n.len() > h.len() - at {
        return false;
    }
    let mut j: usize = 0;
    while j < n.len()
        invariant
            at + n@.len() <= h@.len(),
            h@.len() == h.len(),
            0 <= j <= n@.len(),
            forall|k: int| 0 <= k < j ==> h@[at + k] == n@[k],
        decreases n@.len() - j,
    {
        if h[at + j] != n[j] {
            assert(h@.subrange(at as int, at + n@.len())[j as int] != n@[j as int]);
            return false;
        }
        j += 1;
    }
    assert(h@.subrange(at as int, at + n@.len()) =~= n@);
    true
}

/// Whether `s` starts with `p`.
pub fn starts_with(s: &[char], p: &[char]) -> (r: bool)
    ensures
        r == has_prefix(s@, p@),
{
    matches_at(s, p, 0)
}

/// `str::contains` on characters.
pub fn contains_chars(h: &[char], n: &[char]) -> (r: bool)
    ensures
        r == contains(h@, n@),
{
    if n.len() > h.len() {
        return false;
    }
    if n.len() == 0 {
        assert(h@.subrange(0int, 0int + n@.len()) =~= n@);
        return true;
    }
    let last = h.len() - n.len();
    let mut i: usize = 0;
    while i <= last
        invariant
            last == h@.len() - n@.len(),
            n@.len() > 0,
            h@.len() <= usize::MAX,
            0 <= i <= last + 1,
            forall|k: int| 0 <= k < i ==> #[trigger] h@.subrange(k, k + n@.len()) != n@,
        decreases last + 1 - i,
    {
        if matches_at(h, n, i) {
            assert(h@.subrange(i as int, i + n@.len()) == n@);
            return true;
        }
        i += 1;
    }
    false
}

/// The number of non-overlapping occurrences of `n` in `h`, capped at `cap`.
pub fn match_count_capped(h: &[char], n: &[char], cap: usize) -> (r: usize)
    ensures
        r == if match_count(h@, n@) < cap { match_count(h@, n@) } else { cap as nat },
{
    if n.len() == 0 {
        if h.len() < cap {
            return h.len() + 1;
        } else {
            return cap;
        }
    }
    let mut count: usize = 0;
    let mut i: usize = 0;
    assert(h@.skip(0) =~= h@);
    while count < cap && i <= h.len() && n.len() <= h.len() - i
        invariant
            n@.len() > 0,
            i <= h@.len(),
            count <= cap,
            count + match_count(h@.skip(i as int), n@) == match_count(h@, n@),
        decreases h@.len() - i, cap - count,
    {
        let ghost rest = h@.skip(i as int);
        if matches_at(h, n, i) {
            assert(rest.subrange(0, n@.len() as int) =~= h@.subrange(i as int, i + n@.len()));
            assert(rest.skip(n@.len() as int) =~= h@.skip(i + n@.len()));
            count += 1;
            i += n.len();
        } else {
            assert(rest.subrange(0, n@.len() as int) =~= h@.subrange(i as int, i + n@.len()));
            assert(rest.drop_first() =~= h@.skip(i + 1));
            i += 1;
        }
    }
    count
}

/// The bounds of `trim(v)` inside `v`.
pub fn trim_bounds(v: &[char]) -> (r: (usize, usize))
    ensures
        r.0 <= r.1 <= v@.len(),
        v@.subrange(r.0 as int, r.1 as int) == trim(v@),
        v@.subrange(r.0 as int, v@.len() as int) == trim_start(v@),
{
    let n = v.len();
    let mut lo: usize = 0;
    assert(v@.subrange(0, n as int) =~= v@);
    while lo < n && is_whitespace(v[lo])
        invariant
            n == v@.len(),
            lo <= n,
            trim_start(v@) == trim_start(v@.subrange(lo as int, n as int)),
        decreases n - lo,
    {
        assert(v@.subrange(lo as int, n as int).drop_first() =~= v@.subrange(lo + 1, n as int));
        lo += 1;
    }
    let mut hi: usize = n;
    while hi > lo && is_whitespace(v[hi - 1])
        invariant
            n == v@.len(),
            lo <= hi <= n,
            trim_start(v@) == v@.subrange(lo as int, n as int),
            trim_end(trim_start(v@)) == trim_end(v@.subrange(lo as int, hi as int)),
        decreases hi - lo,
    {
        assert(v@.subrange(lo as int, hi as int).drop_last() =~= v@.subrange(
            lo as int,
            hi - 1,
        ));
        hi -= 1;
    }
    (lo, hi)
}

/// `v` without leading whitespace.
pub fn trim_start_chars(v: &[char]) -> (r: Vec<char>)
    ensures
        r@ == trim_start(v@),
{
    let (lo, _hi) = trim_bounds(v);
    slice_chars(v, lo, v.len())
}

/// `v` without leading and trailing whitespace.
pub fn trim_chars(v: &[char]) -> (r: Vec<char>)
    ensures
        r@ == trim(v@),
{
    let (lo, hi) = trim_bounds(v);
    slice_chars(v, lo, hi)
}

/// `v` without trailing whitespace.
pub fn trim_end_chars(v: &[char]) -> (r: Vec<char>)
    ensures
        r@ == trim_end(v@),
{
    let mut hi: usize = v.len();
    assert(v@.subrange(0, hi as int) =~= v@);
    while hi > 0 && is_whitespace(v[hi - 1])
        invariant
            hi <= v@.len(),
            trim_end(v@) == trim_end(v@.subrange(0, hi as int)),
        decreases hi,
    {
        assert(v@.subrange(0, hi as int).drop_last() =~= v@.subrange(0, hi - 1));
        hi -= 1;
    }
    slice_chars(v, 0, hi)
}

/// The lines of `v`, as `str::lines` yields them.
pub fn split_lines(v: &[char]) -> (r: Vec<Vec<char>>)
    ensures
        r@.map_values(|l: Vec<char>| l@) == lines(v@),
{
    let mut r: Vec<Vec<char>> = Vec::new();
    let mut cur: Vec<char> = Vec::new();
    let mut i: usize = 0;
    assert(v@.skip(0) =~= v@);
    while i < v.len()
        invariant
            i <= v@.len(),
            r@.map_values(|l: Vec<char>| l@) + lines_from(v@.skip(i as int), cur@) == lines(v@),
        decreases v@.len() - i,
    {
        proof {
            lemma_skip_step(v@, i as int);
        }
        let ghost before = r@.map_values(|l: Vec<char>| l@);
        if v[i] == '\n' {
            let line = if cur.len() > 0 && cur[cur.len() - 1] == '\r' {
                slice_chars(&cur, 0, cur.len() - 1)
            } else {
                cur
            };
            assert(line@ == strip_cr(cur@));
            r.push(line);
            cur = Vec::new();
            assert(r@.map_values(|l: Vec<char>| l@) =~= before.push(line@));
            assert(before + (seq![line@] + lines_from(v@.skip(i + 1), seq![])) =~= before.push(
                line@,
            ) + lines_from(v@.skip(i + 1), seq![]));
        } else {
            cur.push(v[i]);
        }
        i += 1;
    }
    if cur.len() > 0 {
        let ghost before = r@.map_values(|l: Vec<char>| l@);
        r.push(cur);
        assert(r@.map_values(|l: Vec<char>| l@) =~= before + lines_from(v@.skip(i as int), cur@))
            by {
            assert(v@.skip(i as int).len() == 0);
        }
    } else {
        assert(r@.map_values(|l: Vec<char>| l@) =~= r@.map_values(|l: Vec<char>| l@) + lines_from(
            v@.skip(i as int),
            cur@,
        )) by {
            assert(v@.skip(i as int).len() == 0);
        }
    }
    r
}

/// The words of `v`, as `str::split_whitespace` yields them.
pub fn split_words(v: &[char]) -> (r: Vec<Vec<char>>)
    ensures
        r@.map_values(|w: Vec<char>| w@) == words(v@),
{
    let mut r: Vec<Vec<char>> = Vec::new();
    let mut cur: Vec<char> = Vec::new();
    let mut i: usize = 0;
    assert(v@.skip(0) =~= v@);
    while i < v.len()
        invariant
            i <= v@.len(),
            r@.map_values(|w: Vec<char>| w@) + words_from(v@.skip(i as int), cur@) == words(v@),
        decreases v@.len() - i,
    {
        proof {
            lemma_skip_step(v@, i as int);
        }
        let ghost before = r@.map_values(|w: Vec<char>| w@);
        let ghost old_cur = cur@;
        if is_whitespace(v[i]) {
            assert(words_from(v@.skip(i as int), old_cur) == (if old_cur.len() == 0 {
                seq![]
            } else {
                seq![old_cur]
            }) + words_from(v@.skip(i + 1), seq![]));
            if cur.len() > 0 {
                let ghost c = cur@;
                r.push(cur);
                cur = Vec::new();
                assert(r@.map_values(|w: Vec<char>| w@) =~= before.push(c));
                assert(before + (seq![c] + words_from(v@.skip(i + 1), seq![])) =~= before.push(c)
                    + words_from(v@.skip(i + 1), seq![]));
            } else {
                assert(cur@ =~= seq![]);
                assert(before + (Seq::<Seq<char>>::empty() + words_from(v@.skip(i + 1), seq![]))
                    =~= before + words_from(v@.skip(i + 1), seq![]));
            }
        } else {
            cur.push(v[i]);
        }
        i += 1;
    }
    if cur.len() > 0 {
        let ghost before = r@.map_values(|w: Vec<char>| w@);
        r.push(cur);
        assert(r@.map_values(|w: Vec<char>| w@) =~= before + words_from(v@.skip(i as int), cur@))
            by {
            assert(v@.skip(i as int).len() == 0);
        }
    } else {
        assert(r@.map_values(|w: Vec<char>| w@) =~= r@.map_values(|w: Vec<char>| w@) + words_from(
            v@.skip(i as int),
            cur@,
        )) by {
            assert(v@.skip(i as int).len() == 0);
        }
    }
    r
}

} // verus!
