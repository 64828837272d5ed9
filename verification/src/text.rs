use vstd::prelude::*;
use vstd::string::StrSliceExecFns;

verus! {

/// Characters with the Unicode `White_Space` property.
pub open spec fn is_white_space(c: char) -> bool {
    let u = c as u32;
    ||| 0x09 <= u <= 0x0d
    ||| u == 0x20
    ||| u == 0x85
    ||| u == 0xa0
    ||| u == 0x1680
    ||| 0x2000 <= u <= 0x200a
    ||| u == 0x2028
    ||| u == 0x2029
    ||| u == 0x202f
    ||| u == 0x205f
    ||| u == 0x3000
}

/// Whether the character has the Unicode `White_Space` property, the test that
/// `str::split_whitespace` splits at.
fn char_is_whitespace(c: char) -> (r: bool)
    ensures
        r == is_white_space(c),
{
    let u = c as u32;
    (0x09 <= u && u <= 0x0d) || u == 0x20 || u == 0x85 || u == 0xa0 || u == 0x1680 || (0x2000
        <= u && u <= 0x200a) || u == 0x2028 || u == 0x2029 || u == 0x202f || u == 0x205f || u
        == 0x3000
}

/// The characters of a string slice, in order.
pub fn chars_of(s: &str) -> (v: Vec<char>)
    ensures
        v@ == s@,
{
    let mut v: Vec<char> = Vec::new();
    for c in it: s.chars()
        invariant
            v@ == it.seq().take(it.index() as int),
    {
        v.push(c);
    }
    v
}

} // verus!

verus! {

/// The first index at or after `i` that does not hold a white-space character
/// (the length of `s` when there is none).
pub open spec fn skip_white(s: Seq<char>, i: int) -> int
    decreases s.len() - i,
{
    if 0 <= i < s.len() && is_white_space(s[i]) {
        skip_white(s, i + 1)
    } else {
        i
    }
}

/// The first index at or after `i` that holds a white-space character
/// (the length of `s` when there is none).
pub open spec fn word_end(s: Seq<char>, i: int) -> int
    decreases s.len() - i,
{
    if 0 <= i < s.len() && !is_white_space(s[i]) {
        word_end(s, i + 1)
    } else {
        i
    }
}

/// The bounds `(start, end)` of the first maximal run of non-white-space characters of `s`
/// at or after `i`, as `str::split_whitespace` yields them.
pub open spec fn next_word(s: Seq<char>, i: int) -> Option<(int, int)> {
    let a = skip_white(s, i);
    if a >= s.len() {
        None
    } else {
        Some((a, word_end(s, a)))
    }
}

/// The first index `j` with `i <= j` and `j + 1 < end` where `s` holds `'-'` followed by
/// `'>'`, or `end` when there is none.
pub open spec fn find_arrow(s: Seq<char>, i: int, end: int) -> int
    decreases end - i,
{
    if i + 1 < end {
        if s[i] == '-' && s[i + 1] == '>' {
            i
        } else {
            find_arrow(s, i + 1, end)
        }
    } else {
        end
    }
}

pub proof fn lemma_skip_white_bounds(s: Seq<char>, i: int)
    requires
        0 <= i <= s.len(),
    ensures
        i <= skip_white(s, i) <= s.len(),
        skip_white(s, i) < s.len() ==> !is_white_space(s[skip_white(s, i)]),
    decreases s.len() - i,
{
    if i < s.len() && is_white_space(s[i]) {
        lemma_skip_white_bounds(s, i + 1);
    }
}

pub proof fn lemma_word_end_bounds(s: Seq<char>, i: int)
    requires
        0 <= i <= s.len(),
    ensures
        i <= word_end(s, i) <= s.len(),
    decreases s.len() - i,
{
    if i < s.len() && !is_white_space(s[i]) {
        lemma_word_end_bounds(s, i + 1);
    }
}

pub proof fn lemma_find_arrow_bounds(s: Seq<char>, i: int, end: int)
    requires
        0 <= i <= end <= s.len(),
    ensures
        i <= find_arrow(s, i, end) <= end,
        find_arrow(s, i, end) < end ==> find_arrow(s, i, end) + 2 <= end,
    decreases end - i,
{
    if i + 1 < end && !(s[i] == '-' && s[i + 1] == '>') {
        lemma_find_arrow_bounds(s, i + 1, end);
    }
}

/// The index of the first non-white-space character of `chars` at or after `i`.
pub fn skip_white_from(chars: &Vec<char>, i: usize) -> (j: usize)
    requires
        i <= chars.len(),
    ensures
        j == skip_white(chars@, i as int),
        i <= j <= chars.len(),
{
    let mut j = i;
    while j < chars.len() && char_is_whitespace(chars[j])
        invariant
            i <= j <= chars.len(),
            skip_white(chars@, j as int) == skip_white(chars@, i as int),
        decreases chars.len() - j,
    {
        j = j + 1;
    }
    j
}

/// The index of the first white-space character of `chars` at or after `i`.
pub fn word_end_from(chars: &Vec<char>, i: usize) -> (j: usize)
    requires
        i <= chars.len(),
    ensures
        j == word_end(chars@, i as int),
        i <= j <= chars.len(),
{
    let mut j = i;
    while j < chars.len() && !char_is_whitespace(chars[j])
        invariant
            i <= j <= chars.len(),
            word_end(chars@, j as int) == word_end(chars@, i as int),
        decreases chars.len() - j,
    {
        j = j + 1;
    }
    j
}

/// The bounds of the next word of `chars` at or after `i`.
pub fn next_word_from(chars: &Vec<char>, i: usize) -> (r: Option<(usize, usize)>)
    requires
        i <= chars.len(),
    ensures
        match r {
            Some((a, b)) => next_word(chars@, i as int) == Some((a as int, b as int)) && a < b
                <= chars.len(),
            None => next_word(chars@, i as int) is None,
        },
{
    let a = skip_white_from(chars, i);
    if a >= chars.len() {
        None
    } else {
        proof {
            lemma_skip_white_bounds(chars@, i as int);
        }
        let b = word_end_from(chars, a);
        proof {
            lemma_word_end_bounds(chars@, a + 1);
        }
        Some((a, b))
    }
}

/// The first index of `"->"` in `chars[i..end]`, or `end`.
pub fn find_arrow_from(chars: &Vec<char>, i: usize, end: usize) -> (j: usize)
    requires
        i <= end <= chars.len(),
    ensures
        j == find_arrow(chars@, i as int, end as int),
        i <= j <= end,
{
    let mut j = i;
    while end - j > 1 && !(chars[j] == '-' && chars[j + 1] == '>')
        invariant
            i <= j <= end,
            end <= chars.len(),
            find_arrow(chars@, j as int, end as int) == find_arrow(chars@, i as int, end as int),
        decreases end - j,
    {
        j = j + 1;
    }
    if end - j > 1 {
        j
    } else {
        end
    }
}

/// Whether `chars[a..b]` starts with `pat`.
pub fn range_starts_with(chars: &Vec<char>, a: usize, b: usize, pat: &Vec<char>) -> (r: bool)
    requires
        a <= b <= chars.len(),
    ensures
        r == (pat.len() <= b - a && chars@.subrange(a as int, a + pat.len()) == pat@),
{
    if pat.len() > b - a {
        return false;
    }
    let mut k: usize = 0;
    while k < pat.len()
        invariant
            k <= pat.len(),
            pat.len() <= b - a,
            b <= chars.len(),
            forall|m: int| 0 <= m < k ==> chars@[a + m] == pat@[m],
        decreases pat.len() - k,
    {
        if chars[a + k] != pat[k] {
            assert(chars@.subrange(a as int, a + pat.len())[k as int] != pat@[k as int]);
            return false;
        }
        k = k + 1;
    }
    assert(chars@.subrange(a as int, a + pat.len()) =~= pat@);
    true
}

/// Whether `chars[a..b]` is exactly `pat`.
pub fn range_equals(chars: &Vec<char>, a: usize, b: usize, pat: &Vec<char>) -> (r: bool)
    requires
        a <= b <= chars.len(),
    ensures
        r == (chars@.subrange(a as int, b as int) == pat@),
{
    if pat.len() != b - a {
        assert(chars@.subrange(a as int, b as int).len() != pat@.len());
        return false;
    }
    range_starts_with(chars, a, b, pat)
}

/// An owned copy of the characters `from..to` of `s`.
pub fn substring(s: &str, from: usize, to: usize) -> (r: String)
    requires
        from <= to <= s@.len(),
    ensures
        r@ == s@.subrange(from as int, to as int),
{
    let part = s.substring_char(from, to);
    part.to_owned()
}

} // verus!
