//! Credential profiles and their sections in the shared credentials file.
use vstd::prelude::*;
use vstd::string::*;
use crate::text::{
    append_str, chars_of, contains, ends_with, find_first, first_occurrence, is_first_occurrence,
    lemma_first_occurrence_unique, occurs_at,
};

verus! {

/// One named credential set, as stored in a section of the credentials file.
pub struct Profile {
    pub name: String,
    pub access_key_id: String,
    pub secret_access_key: String,
    pub session_token: Option<String>,
    pub region: Option<String>,
}

/// The header line text `[name]` that opens the section of `name`.
pub open spec fn header_text(name: Seq<char>) -> Seq<char> {
    "["@ + name + "]"@
}

/// One `key = value` line, newline included.
pub open spec fn key_line(key: Seq<char>, value: Seq<char>) -> Seq<char> {
    key + " = "@ + value + "\n"@
}

/// The `key = value` line of an optional field, or nothing when it is absent.
pub open spec fn optional_line(key: Seq<char>, value: Option<String>) -> Seq<char> {
    match value {
        Some(v) => key_line(key, v@),
        None => Seq::empty(),
    }
}

/// The full text of the section that represents `p`.
pub open spec fn section_text(p: &Profile) -> Seq<char> {
    header_text(p.name@) + "\n"@
        + key_line("aws_access_key_id"@, p.access_key_id@)
        + key_line("aws_secret_access_key"@, p.secret_access_key@)
        + optional_line("aws_session_token"@, p.session_token)
        + optional_line("region"@, p.region)
}

/// Index `j` of `s` holds a `[` that begins a line.
pub open spec fn opens_section(s: Seq<char>, j: int) -> bool {
    0 < j < s.len() && s[j] == '[' && s[j - 1] == '\n'
}

/// `e` is where the span that starts at `k` stops: the first line at or after `k`
/// that begins with `[`, or the end of `s`.
pub open spec fn is_span_end(s: Seq<char>, k: int, e: int) -> bool {
    &&& k <= e <= s.len()
    &&& (e == s.len() || opens_section(s, e))
    &&& forall|j: int| k <= j < e ==> !opens_section(s, j)
}

/// The end of the span that starts at `k` (see `is_span_end`).
pub open spec fn span_end(s: Seq<char>, k: int) -> int {
    choose|e: int| is_span_end(s, k, e)
}

/// The file contents after writing `p` into `c`: the span from the first occurrence
/// of `p`'s header up to the next section line is replaced by the section and a blank
/// line; without such an occurrence the section is appended after a blank line.
pub open spec fn upserted(c: Seq<char>, p: &Profile) -> Seq<char> {
    let h = header_text(p.name@);
    if contains(c, h) {
        let i = first_occurrence(c, h);
        c.take(i) + section_text(p) + "\n"@ + c.skip(span_end(c, i + h.len()))
    } else {
        c + "\n\n"@ + section_text(p)
    }
}

/// A span end is unique.
pub proof fn lemma_span_end_unique(s: Seq<char>, k: int, e: int)
    requires
        is_span_end(s, k, e),
    ensures
        span_end(s, k) == e,
{
    let f = span_end(s, k);
    assert(is_span_end(s, k, f));
    if f < e {
        assert(!opens_section(s, f));
    } else if e < f {
        assert(!opens_section(s, e));
    }
}

/// The end of the span of `text` that starts at `k`.
fn find_span_end(text: &Vec<char>, k: usize) -> (e: usize)
    requires
        0 < k <= text.len(),
    ensures
        is_span_end(text@, k as int, e as int),
{
    let mut e: usize = k;
    while e < text.len()
        invariant
            0 < k <= e <= text.len(),
            forall|j: int| k <= j < e ==> !opens_section(text@, j),
        decreases text.len() - e,
    {
        if text[e] == '[' && text[e - 1] == '\n' {
            return e;
        }
        e += 1;
    }
    e
}

impl Profile {
    /// The header `[name]` of this profile's section.
    pub fn config_section_header(&self) -> (r: String)
        ensures
            r@ == header_text(self.name@),
    {
        let mut r = "[".to_owned();
        append_str(&mut r, self.name.as_str());
        append_str(&mut r, "]");
        r
    }

    /// The section text of this profile: the header line, then one `key = value`
    /// line per field that is present.
    pub fn config_section(&self) -> (r: String)
        ensures
            r@ == section_text(self),
    {
        let mut r = self.config_section_header();
        append_str(&mut r, "\n");
        append_str(&mut r, "aws_access_key_id");
        append_str(&mut r, " = ");
        append_str(&mut r, self.access_key_id.as_str());
        append_str(&mut r, "\n");
        append_str(&mut r, "aws_secret_access_key");
        append_str(&mut r, " = ");
        append_str(&mut r, self.secret_access_key.as_str());
        append_str(&mut r, "\n");
        let ghost fixed = r@;
        match &self.session_token {
            Some(t) => {
                append_str(&mut r, "aws_session_token");
                append_str(&mut r, " = ");
                append_str(&mut r, t.as_str());
                append_str(&mut r, "\n");
            },
            None => {},
        }
        assert(r@ =~= fixed + optional_line("aws_session_token"@, self.session_token));
        let ghost with_token = r@;
        match &self.region {
            Some(g) => {
                append_str(&mut r, "region");
                append_str(&mut r, " = ");
                append_str(&mut r, g.as_str());
                append_str(&mut r, "\n");
            },
            None => {},
        }
        assert(r@ =~= with_token + optional_line("region"@, self.region));
        r
    }
}

/// Writes `profile` into the credentials file contents `config`: replaces the span
/// that starts at the first occurrence of the profile's header, or appends the
/// section when the header does not occur.
pub fn update_profile(config: &str, profile: &Profile) -> (r: String)
    ensures
        r@ == upserted(config@, profile),
{
    let header = profile.config_section_header();
    let section = profile.config_section();
    let text = chars_of(config);
    let h = chars_of(header.as_str());
    match find_first(&text, &h) {
        None => {
            let mut r = config.to_owned();
            append_str(&mut r, "\n\n");
            append_str(&mut r, section.as_str());
            r
        },
        Some(i) => {
            let n = text.len();
            proof {
                lemma_first_occurrence_unique(config@, header@, i as int);
                reveal_strlit("[");
                assert(h@.len() > 0);
                assert(i + h@.len() <= n);
            }
            let e = find_span_end(&text, i + h.len());
            proof {
                lemma_span_end_unique(config@, i + h@.len(), e as int);
            }
            let mut r = config.substring_char(0, i).to_owned();
            append_str(&mut r, section.as_str());
            append_str(&mut r, "\n");
            append_str(&mut r, config.substring_char(e, n));
            r
        },
    }
}

/// No line of `s` but possibly its first begins with `[`.
pub open spec fn opens_no_section(s: Seq<char>) -> bool {
    forall|t: int| 1 <= t < s.len() ==> !(s[t - 1] == '\n' && #[trigger] s[t] == '[')
}

/// `v` holds no line break.
pub open spec fn single_line(v: Seq<char>) -> bool {
    forall|t: int| 0 <= t < v.len() ==> #[trigger] v[t] != '\n'
}

/// Every field of `p` fits on one line of the file.
pub open spec fn fields_single_line(p: &Profile) -> bool {
    &&& single_line(p.name@)
    &&& single_line(p.access_key_id@)
    &&& single_line(p.secret_access_key@)
    &&& (p.session_token matches Some(t) ==> single_line(t@))
    &&& (p.region matches Some(g) ==> single_line(g@))
}

proof fn lemma_opens_no_section_concat(a: Seq<char>, b: Seq<char>)
    requires
        opens_no_section(a),
        opens_no_section(b),
        a.len() > 0 && b.len() > 0 ==> b[0] != '[',
    ensures
        opens_no_section(a + b),
{
    assert forall|t: int| 1 <= t < (a + b).len() implies !((a + b)[t - 1] == '\n' && #[trigger] (a
        + b)[t] == '[') by {
        if t < a.len() {
            assert((a + b)[t] == a[t]);
        } else if t == a.len() {
            assert((a + b)[t] == b[0]);
        } else {
            assert((a + b)[t] == b[t - a.len()]);
            assert((a + b)[t - 1] == b[t - 1 - a.len()]);
        }
    }
}

/// A line whose only break is its last character opens no section after its start.
proof fn lemma_line_opens_no_section(s: Seq<char>)
    requires
        single_line(s.drop_last()),
    ensures
        opens_no_section(s),
{
    assert forall|t: int| 1 <= t < s.len() implies !(s[t - 1] == '\n' && #[trigger] s[t]
        == '[') by {
        assert(s.drop_last()[t - 1] == s[t - 1]);
    }
}

proof fn lemma_key_line(key: Seq<char>, value: Seq<char>)
    requires
        single_line(key),
        key.len() > 0,
        key[0] != '[',
        single_line(value),
    ensures
        opens_no_section(key_line(key, value)),
        key_line(key, value)[0] == key[0],
        key_line(key, value).len() > 0,
{
    reveal_strlit(" = ");
    reveal_strlit("\n");
    let l = key_line(key, value);
    assert(l.drop_last() =~= key + " = "@ + value);
    assert forall|t: int| 0 <= t < l.drop_last().len() implies #[trigger] l.drop_last()[t]
        != '\n' by {
        if t < key.len() {
            assert(l.drop_last()[t] == key[t]);
        } else if t < key.len() + 3 {
        } else {
            assert(l.drop_last()[t] == value[t - key.len() - 3]);
        }
    }
    lemma_line_opens_no_section(l);
}

proof fn lemma_optional_line(key: Seq<char>, value: Option<String>)
    requires
        single_line(key),
        key.len() > 0,
        key[0] != '[',
        value matches Some(v) ==> single_line(v@),
    ensures
        opens_no_section(optional_line(key, value)),
        optional_line(key, value).len() > 0 ==> optional_line(key, value)[0] == key[0],
{
    match value {
        Some(v) => lemma_key_line(key, v@),
        None => {},
    }
}

/// A section with one-line fields opens no further section inside it.
pub proof fn lemma_section_opens_no_section(p: &Profile)
    requires
        fields_single_line(p),
    ensures
        opens_no_section(section_text(p)),
        section_text(p).take(header_text(p.name@).len() as int) == header_text(p.name@),
        section_text(p).len() > header_text(p.name@).len(),
{
    reveal_strlit("[");
    reveal_strlit("]");
    reveal_strlit("\n");
    reveal_strlit("aws_access_key_id");
    reveal_strlit("aws_secret_access_key");
    reveal_strlit("aws_session_token");
    reveal_strlit("region");
    let h = header_text(p.name@);
    let first = h + "\n"@;
    assert(first.drop_last() =~= h);
    assert forall|t: int| 0 <= t < h.len() implies #[trigger] h[t] != '\n' by {
        if 0 < t < h.len() - 1 {
            assert(h[t] == p.name@[t - 1]);
        }
    }
    lemma_line_opens_no_section(first);
    assert(single_line("aws_access_key_id"@));
    assert(single_line("aws_secret_access_key"@));
    assert(single_line("aws_session_token"@));
    assert(single_line("region"@));
    lemma_key_line("aws_access_key_id"@, p.access_key_id@);
    lemma_key_line("aws_secret_access_key"@, p.secret_access_key@);
    lemma_optional_line("aws_session_token"@, p.session_token);
    lemma_optional_line("region"@, p.region);
    let l1 = key_line("aws_access_key_id"@, p.access_key_id@);
    let l2 = key_line("aws_secret_access_key"@, p.secret_access_key@);
    let o1 = optional_line("aws_session_token"@, p.session_token);
    let o2 = optional_line("region"@, p.region);
    lemma_opens_no_section_concat(first, l1);
    lemma_opens_no_section_concat(first + l1, l2);
    lemma_opens_no_section_concat(first + l1 + l2, o1);
    lemma_opens_no_section_concat(first + l1 + l2 + o1, o2);
    assert(section_text(p) == first + l1 + l2 + o1 + o2);
    assert(section_text(p).take(h.len() as int) =~= h);
}

/// When `t` occurs in `s`, it has a leftmost occurrence.
pub proof fn lemma_first_exists(s: Seq<char>, t: Seq<char>, i: int)
    requires
        occurs_at(s, t, i),
    ensures
        is_first_occurrence(s, t, first_occurrence(s, t)),
    decreases i,
{
    if forall|j: int| 0 <= j < i ==> !occurs_at(s, t, j) {
        assert(is_first_occurrence(s, t, i));
    } else {
        let j = choose|j: int| 0 <= j < i && occurs_at(s, t, j);
        lemma_first_exists(s, t, j);
    }
}

/// Every position of `s` has a span end.
pub proof fn lemma_span_end_exists(s: Seq<char>, k: int)
    requires
        0 <= k <= s.len(),
    ensures
        is_span_end(s, k, span_end(s, k)),
    decreases s.len() - k,
{
    if k == s.len() || opens_section(s, k) {
        assert(is_span_end(s, k, k));
    } else {
        lemma_span_end_exists(s, k + 1);
        assert(is_span_end(s, k, span_end(s, k + 1)));
    }
}

/// Writing a profile whose header does not occur in the contents keeps the contents
/// byte for byte as a prefix, and the result ends with a blank line and the
/// profile's section.
pub proof fn law_upsert_appends(c: Seq<char>, p: &Profile)
    requires
        !contains(c, header_text(p.name@)),
    ensures
        upserted(c, p) == c + "\n\n"@ + section_text(p),
        upserted(c, p).take(c.len() as int) == c,
        ends_with(upserted(c, p), section_text(p)),
{
    let r = upserted(c, p);
    assert(r.take(c.len() as int) =~= c);
    assert(r.subrange(r.len() - section_text(p).len(), r.len() as int) =~= section_text(p));
}

/// The contents `c` with the span `[i, e)` replaced by `sec` and a blank line.
pub open spec fn rewritten(c: Seq<char>, i: int, sec: Seq<char>, e: int) -> Seq<char> {
    c.take(i) + sec + "\n"@ + c.skip(e)
}

proof fn lemma_rewritten_index(c: Seq<char>, i: int, sec: Seq<char>, e: int)
    requires
        0 <= i <= e <= c.len(),
    ensures
        ({
            let r = rewritten(c, i, sec, e);
            &&& r.len() == i + sec.len() + 1 + (c.len() - e)
            &&& forall|m: int| 0 <= m < i ==> #[trigger] r[m] == c[m]
            &&& forall|m: int| i <= m < i + sec.len() ==> #[trigger] r[m] == sec[m - i]
            &&& r[i + sec.len()] == '\n'
            &&& forall|m: int|
                i + sec.len() + 1 <= m < r.len() ==> #[trigger] r[m] == c[m - (i + sec.len() + 1)
                    + e]
        }),
{
    reveal_strlit("\n");
    let r = rewritten(c, i, sec, e);
    assert forall|m: int| 0 <= m < i implies #[trigger] r[m] == c[m] by {
        assert(r[m] == c.take(i)[m]);
    }
    assert forall|m: int| i <= m < i + sec.len() implies #[trigger] r[m] == sec[m - i] by {
        assert(r[m] == (c.take(i) + sec)[m]);
    }
    assert(r[i + sec.len()] == (c.take(i) + sec + "\n"@)[i + sec.len()]);
    assert forall|m: int| i + sec.len() + 1 <= m < r.len() implies #[trigger] r[m] == c[m - (i
        + sec.len() + 1) + e] by {
        assert(r[m] == c.skip(e)[m - (i + sec.len() + 1)]);
    }
}

/// Rewriting the span of a header's first occurrence with a section that starts with
/// that header keeps it the first occurrence.
proof fn lemma_rewritten_first(c: Seq<char>, h: Seq<char>, i: int, sec: Seq<char>, e: int)
    requires
        is_first_occurrence(c, h, i),
        i + h.len() <= e <= c.len(),
        h.len() <= sec.len(),
        sec.take(h.len() as int) == h,
    ensures
        is_first_occurrence(rewritten(c, i, sec, e), h, i),
        forall|m: int| 0 <= m < i + h.len() ==> #[trigger] rewritten(c, i, sec, e)[m] == c[m],
{
    let r = rewritten(c, i, sec, e);
    lemma_rewritten_index(c, i, sec, e);
    assert forall|m: int| 0 <= m < i + h.len() implies #[trigger] r[m] == c[m] by {
        if m >= i {
            assert(sec.take(h.len() as int)[m - i] == h[m - i]);
            assert(c.subrange(i, i + h.len())[m - i] == h[m - i]);
        }
    }
    assert(r.subrange(i, i + h.len()) =~= h) by {
        assert forall|m: int| 0 <= m < h.len() implies #[trigger] r.subrange(i, i + h.len())[m]
            == h[m] by {
            assert(r[i + m] == c[i + m]);
            assert(c.subrange(i, i + h.len())[m] == h[m]);
        }
    }
    assert forall|j: int| 0 <= j < i implies !occurs_at(r, h, j) by {
        if occurs_at(r, h, j) {
            assert(c.subrange(j, j + h.len()) =~= r.subrange(j, j + h.len())) by {
                assert forall|m: int| 0 <= m < h.len() implies #[trigger] c.subrange(
                    j,
                    j + h.len(),
                )[m] == r.subrange(j, j + h.len())[m] by {
                    assert(r[j + m] == c[j + m]);
                }
            }
            assert(occurs_at(c, h, j));
        }
    }
}

/// After the rewrite, the span that starts behind the header ends right after the
/// written section and its blank line.
proof fn lemma_rewritten_span(c: Seq<char>, k: int, i: int, sec: Seq<char>, e: int)
    requires
        0 <= i < k <= i + sec.len(),
        is_span_end(c, k, e),
        i <= e,
        opens_no_section(sec),
    ensures
        is_span_end(rewritten(c, i, sec, e), k, i + sec.len() + 1),
{
    let r = rewritten(c, i, sec, e);
    lemma_rewritten_index(c, i, sec, e);
    let e2 = i + sec.len() + 1;
    assert forall|j: int| k <= j < e2 implies !opens_section(r, j) by {
        if j < i + sec.len() {
            assert(r[j] == sec[j - i]);
            assert(r[j - 1] == sec[j - 1 - i]);
        } else {
            assert(r[j] == '\n');
        }
    }
    if e < c.len() {
        assert(r[e2] == c[e]);
        assert(r[e2 - 1] == '\n');
    }
}

/// When `h` occurs in `c` only at `i`, it occurs neither before `i` nor from `e` on.
proof fn lemma_kept_parts_free(c: Seq<char>, h: Seq<char>, i: int, e: int)
    requires
        0 <= i < e <= c.len(),
        h.len() > 0,
    ensures
        (forall|j: int| occurs_at(c, h, j) ==> j == i) ==> !contains(c.take(i), h) && !contains(
            c.skip(e),
            h,
        ),
{
    if forall|j: int| occurs_at(c, h, j) ==> j == i {
        assert forall|j: int| !occurs_at(c.take(i), h, j) by {
            if occurs_at(c.take(i), h, j) {
                assert(c.subrange(j, j + h.len()) =~= c.take(i).subrange(j, j + h.len()));
                assert(occurs_at(c, h, j));
            }
        }
        assert forall|j: int| !occurs_at(c.skip(e), h, j) by {
            if occurs_at(c.skip(e), h, j) {
                assert(c.subrange(e + j, e + j + h.len()) =~= c.skip(e).subrange(j, j + h.len()));
                assert(occurs_at(c, h, e + j));
            }
        }
    }
}

/// Writing a profile whose header occurs in the contents rewrites only the span of
/// its first occurrence: what precedes the header and what follows the span (empty,
/// or starting with the next section's line) stay byte for byte. Writing the same
/// profile again then changes nothing; and when the contents held the header only
/// once, neither the kept prefix nor the kept suffix holds it.
pub proof fn law_upsert_idempotent(c: Seq<char>, p: &Profile)
    requires
        contains(c, header_text(p.name@)),
        fields_single_line(p),
    ensures
        ({
            let h = header_text(p.name@);
            let i = first_occurrence(c, h);
            let e = span_end(c, i + h.len());
            &&& upserted(c, p) == c.take(i) + section_text(p) + "\n"@ + c.skip(e)
            &&& e == c.len() || opens_section(c, e)
            &&& upserted(upserted(c, p), p) == upserted(c, p)
            &&& (forall|j: int| occurs_at(c, h, j) ==> j == i) ==> !contains(c.take(i), h)
                && !contains(c.skip(e), h)
        }),
{
    let h = header_text(p.name@);
    let sec = section_text(p);
    let i = first_occurrence(c, h);
    let j0 = choose|j: int| occurs_at(c, h, j);
    lemma_first_exists(c, h, j0);
    lemma_span_end_exists(c, i + h.len());
    let e = span_end(c, i + h.len());
    lemma_section_opens_no_section(p);
    reveal_strlit("[");
    let r = upserted(c, p);
    assert(r == rewritten(c, i, sec, e));
    lemma_rewritten_first(c, h, i, sec, e);
    lemma_first_occurrence_unique(r, h, i);
    lemma_rewritten_span(c, i + h.len(), i, sec, e);
    let e2 = i + sec.len() + 1;
    lemma_span_end_unique(r, i + h.len(), e2);
    lemma_rewritten_index(c, i, sec, e);
    assert(upserted(r, p) == r) by {
        assert(r.take(i) =~= c.take(i));
        assert(r.skip(e2) =~= c.skip(e));
        assert(rewritten(r, i, sec, e2) =~= r);
    }
    lemma_kept_parts_free(c, h, i, e);
}

/// A lowercase ASCII letter or an underscore.
pub open spec fn word_char(c: char) -> bool {
    ('a' <= c <= 'z') || c == '_'
}

/// `t` is made of word characters and `m` of none.
pub open spec fn separates(m: Seq<char>, t: Seq<char>) -> bool {
    &&& m.len() > 0
    &&& forall|k: int| 0 <= k < m.len() ==> !word_char(#[trigger] m[k])
    &&& forall|l: int| 0 <= l < t.len() ==> word_char(#[trigger] t[l])
}

/// A word cannot occur across a separator.
proof fn lemma_no_straddle(a: Seq<char>, m: Seq<char>, b: Seq<char>, t: Seq<char>)
    requires
        !contains(a, t),
        !contains(b, t),
        separates(m, t),
        t.len() > 0,
    ensures
        !contains(a + m + b, t),
{
    let s = a + m + b;
    assert forall|j: int| !occurs_at(s, t, j) by {
        if occurs_at(s, t, j) {
            if j + t.len() <= a.len() {
                assert(a.subrange(j, j + t.len()) =~= s.subrange(j, j + t.len()));
                assert(occurs_at(a, t, j));
            } else if j >= a.len() + m.len() {
                let jb = j - a.len() - m.len();
                assert(b.subrange(jb, jb + t.len()) =~= s.subrange(j, j + t.len()));
                assert(occurs_at(b, t, jb));
            } else {
                let q = if j < a.len() { a.len() as int } else { j };
                assert(s[q] == m[q - a.len()]);
                assert(s.subrange(j, j + t.len())[q - j] == t[q - j]);
                assert(word_char(t[q - j]));
            }
        }
    }
}

/// A word longer than `s` does not occur in it.
proof fn lemma_too_short(s: Seq<char>, t: Seq<char>)
    requires
        s.len() < t.len(),
    ensures
        !contains(s, t),
{
}

/// What no field other than the session token may spell for the section to name
/// a session token only when it has one.
pub open spec fn token_key_only_in_token(p: &Profile) -> bool {
    &&& !contains(p.name@, "aws_session_token"@)
    &&& !contains(p.access_key_id@, "aws_session_token"@)
    &&& !contains(p.secret_access_key@, "aws_session_token"@)
    &&& (p.region matches Some(g) ==> !contains(g@, "aws_session_token"@))
}

/// The section of `p` holds the lines `aws_access_key_id = {access key}` and
/// `aws_secret_access_key = {secret key}`, and `aws_session_token = {token}` when `p`
/// has a session token. When no other field spells `aws_session_token`, the section
/// mentions `aws_session_token` exactly when `p` has a session token.
pub proof fn law_section_fields(p: &Profile)
    ensures
        contains(section_text(p), "aws_access_key_id = "@ + p.access_key_id@),
        contains(section_text(p), "aws_secret_access_key = "@ + p.secret_access_key@),
        p.session_token matches Some(t) ==> contains(
            section_text(p),
            "aws_session_token = "@ + t@,
        ),
        token_key_only_in_token(p) ==> (contains(section_text(p), "aws_session_token"@)
            <==> p.session_token is Some),
{
    reveal_strlit("[");
    reveal_strlit("]");
    reveal_strlit("\n");
    reveal_strlit(" = ");
    reveal_strlit("aws_access_key_id");
    reveal_strlit("aws_secret_access_key");
    reveal_strlit("aws_session_token");
    reveal_strlit("region");
    reveal_strlit("aws_access_key_id = ");
    reveal_strlit("aws_secret_access_key = ");
    reveal_strlit("aws_session_token = ");
    let sec = section_text(p);
    let h1 = header_text(p.name@) + "\n"@;
    let l1 = key_line("aws_access_key_id"@, p.access_key_id@);
    let l2 = key_line("aws_secret_access_key"@, p.secret_access_key@);
    let o1 = optional_line("aws_session_token"@, p.session_token);
    let o2 = optional_line("region"@, p.region);
    assert(sec == h1 + l1 + l2 + o1 + o2);
    let w1 = "aws_access_key_id = "@ + p.access_key_id@;
    assert(sec.subrange(h1.len() as int, (h1.len() + w1.len()) as int) =~= w1);
    assert(occurs_at(sec, w1, h1.len() as int));
    let w2 = "aws_secret_access_key = "@ + p.secret_access_key@;
    let at2: int = (h1.len() + l1.len()) as int;
    assert(sec.subrange(at2, at2 + w2.len()) =~= w2);
    assert(occurs_at(sec, w2, at2));
    let at3: int = at2 + l2.len();
    if let Some(t) = p.session_token {
        let w3 = "aws_session_token = "@ + t@;
        assert(sec.subrange(at3, at3 + w3.len()) =~= w3);
        assert(occurs_at(sec, w3, at3));
        let k = "aws_session_token"@;
        assert(sec.subrange(at3, at3 + k.len()) =~= k);
        assert(occurs_at(sec, k, at3));
    }
    if token_key_only_in_token(p) && p.session_token is None {
        lemma_section_without_token(p);
    }
}

proof fn lemma_section_without_token(p: &Profile)
    requires
        token_key_only_in_token(p),
        p.session_token is None,
    ensures
        !contains(section_text(p), "aws_session_token"@),
{
    reveal_strlit("[");
    reveal_strlit("]");
    reveal_strlit("\n");
    reveal_strlit(" = ");
    reveal_strlit("aws_access_key_id");
    reveal_strlit("aws_secret_access_key");
    reveal_strlit("aws_session_token");
    reveal_strlit("region");
    let t = "aws_session_token"@;
    let e = Seq::<char>::empty();
    let nl = "\n"@;
    let eq = " = "@;
    assert(separates(nl, t));
    assert(separates(eq, t));
    assert(separates("["@, t));
    assert(separates("]"@ + nl, t));
    assert(!contains(e, t));
    // The region line, if any.
    let tail = optional_line("region"@, p.region);
    assert(!contains(tail, t)) by {
        if let Some(g) = p.region {
            lemma_no_straddle(g@, nl, e, t);
            assert(g@ + nl + e =~= g@ + nl);
            lemma_too_short("region"@, t);
            lemma_no_straddle("region"@, eq, g@ + nl, t);
            assert(tail =~= "region"@ + eq + (g@ + nl));
        }
    }
    // The secret key line.
    let w2 = "aws_secret_access_key"@;
    assert(!contains(w2, t)) by {
        assert forall|j: int| !occurs_at(w2, t, j) by {
            if occurs_at(w2, t, j) {
                assert(w2.subrange(j, j + t.len())[4] == t[4]);
                assert(w2.subrange(j, j + t.len())[5] == t[5]);
                assert(w2.subrange(j, j + t.len())[6] == t[6]);
            }
        }
    }
    lemma_no_straddle(p.secret_access_key@, nl, tail, t);
    let r2 = p.secret_access_key@ + nl + tail;
    lemma_no_straddle(w2, eq, r2, t);
    let r3 = w2 + eq + r2;
    // The access key line.
    let w1 = "aws_access_key_id"@;
    assert(!contains(w1, t)) by {
        assert forall|j: int| !occurs_at(w1, t, j) by {
            if occurs_at(w1, t, j) {
                assert(w1.subrange(j, j + t.len())[4] == t[4]);
            }
        }
    }
    lemma_no_straddle(p.access_key_id@, nl, r3, t);
    let r4 = p.access_key_id@ + nl + r3;
    lemma_no_straddle(w1, eq, r4, t);
    let r5 = w1 + eq + r4;
    // The header line.
    lemma_no_straddle(p.name@, "]"@ + nl, r5, t);
    let r6 = p.name@ + ("]"@ + nl) + r5;
    lemma_no_straddle(e, "["@, r6, t);
    assert(section_text(p) =~= e + "["@ + r6);
}

} // verus!
