//! Character-level helpers over string views: occurrence search and
//! string building.
use vstd::prelude::*;
use vstd::string::*;

verus! {

/// `t` occurs in `s` starting at index `i`.
pub open spec fn occurs_at(s: Seq<char>, t: Seq<char>, i: int) -> bool {
    0 <= i && i + t.len() <= s.len() && s.subrange(i, i + t.len()) == t
}

/// `t` occurs somewhere in `s`.
pub open spec fn contains(s: Seq<char>, t: Seq<char>) -> bool {
    exists|i: int| occurs_at(s, t, i)
}

/// `i` is the leftmost index at which `t` occurs in `s`.
pub open spec fn is_first_occurrence(s: Seq<char>, t: Seq<char>, i: int) -> bool {
    &&& occurs_at(s, t, i)
    &&& forall|j: int| 0 <= j < i ==> !occurs_at(s, t, j)
}

/// The leftmost index at which `t` occurs in `s` (meaningful when `contains(s, t)`).
pub open spec fn first_occurrence(s: Seq<char>, t: Seq<char>) -> int {
    choose|i: int| is_first_occurrence(s, t, i)
}

/// `s` ends with `t`.
pub open spec fn ends_with(s: Seq<char>, t: Seq<char>) -> bool {
    t.len() <= s.len() && s.subrange(s.len() - t.len(), s.len() as int) == t
}

/// A leftmost occurrence is unique.
pub proof fn lemma_first_occurrence_unique(s: Seq<char>, t: Seq<char>, i: int)
    requires
        is_first_occurrence(s, t, i),
    ensures
        first_occurrence(s, t) == i,
        contains(s, t),
{
    let j = first_occurrence(s, t);
    assert(is_first_occurrence(s, t, j));
    if j < i {
        assert(!occurs_at(s, t, j));
    } else if i < j {
        assert(!occurs_at(s, t, i));
    }
}

/// The characters of `s`, one by one.
pub fn chars_of(s: &str) -> (v: Vec<char>)
    ensures
        v@ == s@,
{
    let mut v: Vec<char> = Vec::new();
    for c in it: s.chars()
        invariant
            v@ == it.seq().take(it.index() as int),
    {
        v.push(c);
    }
    v
}

/// Appends `t` to `s`.
pub fn append_str(s: &mut String, t: &str)
    ensures
        final(s)@ == old(s)@ + t@,
{
    s.append(t);
}

/// Relies on `String::push`: appends the one character `c`.
#[verifier::external_body]
pub(crate) fn push_char(s: &mut String, c: char)
    ensures
        final(s)@ == old(s)@.push(c),
{
    s.push(c);
}

/// Whether `t` occurs in `text` at index `i`.
pub fn matches_at(text: &Vec<char>, t: &Vec<char>, i: usize) -> (b: bool)
    requires
        i + t.len() <= text.len(),
    ensures
        b == occurs_at(text@, t@, i as int),
{
    let mut k: usize = 0;
    while k < t.len()
        invariant
            i + t.len() <= text.len(),
            k <= t.len(),
            forall|m: int| 0 <= m < k ==> text@[i + m] == t@[m],
        decreases t.len() - k,
    {
        if text[i + k] != t[k] {
            assert(text@.subrange(i as int, i + t.len())[k as int] != t@[k as int]);
            return false;
        }
        k += 1;
    }
    assert(text@.subrange(i as int, i + t.len()) =~= t@);
    true
}

/// The leftmost index at which `t` occurs in `text`, if any.
pub fn find_first(text: &Vec<char>, t: &Vec<char>) -> (r: Option<usize>)
    ensures
        match r {
            Some(i) => is_first_occurrence(text@, t@, i as int),
            None => !contains(text@, t@),
        },
{
    if t.len() > text.len() {
        return None;
    }
    let last = text.len() - t.len();
    let mut i: usize = 0;
    loop
        invariant
            last == text.len() - t.len(),
            i <= last,
            forall|j: int| 0 <= j < i ==> !occurs_at(text@, t@, j),
        decreases last - i,
    {
        if matches_at(text, t, i) {
            return Some(i);
        }
        if i == last {
            return None;
        }
        i += 1;
    }
}

/// Whether `s` ends with `t`.
pub fn ends_with_chars(s: &Vec<char>, t: &Vec<char>) -> (b: bool)
    ensures
        b == ends_with(s@, t@),
{
    if t.len() > s.len() {
        return false;
    }
    let b = matches_at(s, t, s.len() - t.len());
    b
}

} // verus!
