//! Text of the page: characters, trimming, and the code in a label's
//! parentheses.

use vstd::prelude::*;
use vstd::slice::slice_subrange;

verus! {

/// Unicode `White_Space`: the characters that `str::trim` removes.
pub open spec fn is_white_space(c: char) -> bool {
    let u = c as u32;
    (0x9 <= u && u <= 0xd) || u == 0x20 || u == 0x85 || u == 0xa0 || u == 0x1680 || (0x2000 <= u
        && u <= 0x200a) || u == 0x2028 || u == 0x2029 || u == 0x202f || u == 0x205f || u == 0x3000
}

/// `s` without its leading white space.
pub open spec fn trim_start(s: Seq<char>) -> Seq<char>
    decreases s.len(),
{
    if s.len() > 0 && is_white_space(s[0]) {
        trim_start(s.drop_first())
    } else {
        s
    }
}

/// `s` without its trailing white space.
pub open spec fn trim_end(s: Seq<char>) -> Seq<char>
    decreases s.len(),
{
    if s.len() > 0 && is_white_space(s.last()) {
        trim_end(s.drop_last())
    } else {
        s
    }
}

/// `s` without white space at either end.
pub open spec fn trimmed(s: Seq<char>) -> Seq<char> {
    trim_end(trim_start(s))
}

/// The pieces, each trimmed, written one after the other with nothing between.
pub open spec fn join_trimmed(parts: Seq<Seq<char>>) -> Seq<char>
    decreases parts.len(),
{
    if parts.len() == 0 {
        Seq::empty()
    } else {
        join_trimmed(parts.drop_last()) + trimmed(parts.last())
    }
}

/// The characters of a string.
pub fn chars_of(s: &str) -> (r: Vec<char>)
    ensures
        r@ == s@,
{
    let mut r: Vec<char> = Vec::new();
    for c in it: s.chars()
        invariant
            r@ == it.seq().take(it.index() as int),
    {
        r.push(c);
    }
    r
}

/// Relies on `FromIterator<char> for String` (`Iterator::collect`): the string
/// holds the characters in order.
#[verifier::external_body]
pub(crate) fn string_of(cs: &[char]) -> (r: String)
    ensures
        r@ == cs@,
{
    cs.iter().collect()
}

/// The string made of the characters `cs[lo..hi]`.
pub(crate) fn string_of_range(cs: &Vec<char>, lo: usize, hi: usize) -> (r: String)
    requires
        lo <= hi <= cs@.len(),
    ensures
        r@ == cs@.subrange(lo as int, hi as int),
{
    let part = slice_subrange(cs.as_slice(), lo, hi);
    string_of(part)
}

/// Dropping one leading white space character trims to the same.
proof fn lemma_trim_start_step(s: Seq<char>, i: int)
    requires
        0 <= i < s.len(),
        is_white_space(s[i]),
    ensures
        trim_start(s.subrange(i, s.len() as int)) == trim_start(s.subrange(i + 1, s.len() as int)),
{
    assert(s.subrange(i, s.len() as int).drop_first() =~= s.subrange(i + 1, s.len() as int));
}

/// Dropping one trailing white space character trims to the same.
proof fn lemma_trim_end_step(s: Seq<char>, lo: int, j: int)
    requires
        0 <= lo < j <= s.len(),
        is_white_space(s[j - 1]),
    ensures
        trim_end(s.subrange(lo, j)) == trim_end(s.subrange(lo, j - 1)),
{
    assert(s.subrange(lo, j).drop_last() =~= s.subrange(lo, j - 1));
}

/// The bounds `lo..hi` of `cs` without white space at either end.
pub(crate) fn trim_bounds(cs: &Vec<char>) -> (r: (usize, usize))
    ensures
        r.0 <= r.1 <= cs@.len(),
        cs@.subrange(r.0 as int, r.1 as int) == trimmed(cs@),
{
    let n = cs.len();
    let mut i: usize = 0;
    assert(cs@ =~= cs@.subrange(0, n as int));
    while i < n && is_space(cs[i])
        invariant
            n == cs@.len(),
            i <= n,
            trim_start(cs@) == trim_start(cs@.subrange(i as int, n as int)),
        decreases n - i,
    {
        proof {
            lemma_trim_start_step(cs@, i as int);
        }
        i = i + 1;
    }
    let ghost rest = cs@.subrange(i as int, n as int);
    assert(trim_start(rest) == rest);
    let mut j: usize = n;
    while j > i && is_space(cs[j - 1])
        invariant
            n == cs@.len(),
            i <= j <= n,
            trim_end(rest) == trim_end(cs@.subrange(i as int, j as int)),
        decreases j,
    {
        proof {
            lemma_trim_end_step(cs@, i as int, j as int);
        }
        j = j - 1;
    }
    assert(rest =~= cs@.subrange(i as int, n as int));
    (i, j)
}

/// Whether `c` is Unicode white space.
pub fn is_space(c: char) -> (r: bool)
    ensures
        r == is_white_space(c),
{
    let u = c as u32;
    (0x9 <= u && u <= 0xd) || u == 0x20 || u == 0x85 || u == 0xa0 || u == 0x1680 || (0x2000 <= u
        && u <= 0x200a) || u == 0x2028 || u == 0x2029 || u == 0x202f || u == 0x205f || u == 0x3000
}

/// `s` without white space at either end.
pub fn trim(s: &str) -> (r: String)
    ensures
        r@ == trimmed(s@),
        trimmed(r@) == r@,
{
    proof {
        lemma_trimmed_is_tight(s@);
        lemma_trimmed_is_tight(trimmed(s@));
    }
    let cs = chars_of(s);
    let (lo, hi) = trim_bounds(&cs);
    string_of_range(&cs, lo, hi)
}

/// The text pieces of a region, each trimmed, concatenated in order.
pub fn join_trimmed_parts(parts: &Vec<String>) -> (r: String)
    ensures
        r@ == join_trimmed(parts@.map_values(|p: String| p@)),
        trimmed(r@) == r@,
{
    proof {
        lemma_join_trimmed_is_tight(parts@.map_values(|p: String| p@));
        lemma_trimmed_is_tight(join_trimmed(parts@.map_values(|p: String| p@)));
    }
    let ghost views = parts@.map_values(|p: String| p@);
    let mut r = String::new();
    let mut i: usize = 0;
    while i < parts.len()
        invariant
            i <= parts@.len(),
            views == parts@.map_values(|p: String| p@),
            r@ == join_trimmed(views.subrange(0, i as int)),
        decreases parts@.len() - i,
    {
        let t = trim(parts[i].as_str());
        r.append(t.as_str());
        assert(views.subrange(0, i + 1).drop_last() =~= views.subrange(0, i as int));
        i = i + 1;
    }
    assert(views.subrange(0, i as int) =~= views);
    r
}

/// The first index at or after `i` that holds `c`, or -1.
pub open spec fn index_of(s: Seq<char>, c: char, i: int) -> int
    decreases s.len() - i,
{
    if i < 0 || i >= s.len() {
        -1
    } else if s[i] == c {
        i
    } else {
        index_of(s, c, i + 1)
    }
}

/// The content of the first parenthesized group: the text between the first
/// `(` and the first `)` after it; none where `s` holds no such pair.
pub open spec fn paren_code(s: Seq<char>) -> Option<Seq<char>> {
    let i = index_of(s, '(', 0);
    let j = index_of(s, ')', i + 1);
    if i < 0 || j < 0 {
        None
    } else {
        Some(s.subrange(i + 1, j))
    }
}

/// The first index at or after `from` that holds `c`.
fn find_char(cs: &Vec<char>, c: char, from: usize) -> (r: Option<usize>)
    requires
        from <= cs@.len(),
    ensures
        match r {
            Some(j) => j as int == index_of(cs@, c, from as int) && from <= j < cs@.len() && j < cs.len(),
            None => index_of(cs@, c, from as int) == -1,
        },
{
    let mut k: usize = from;
    while k < cs.len()
        invariant
            from <= k <= cs@.len(),
            index_of(cs@, c, from as int) == index_of(cs@, c, k as int),
        decreases cs@.len() - k,
    {
        if cs[k] == c {
            return Some(k);
        }
        k = k + 1;
    }
    None
}

/// The content of the first parenthesized group of `s`, as a pollutant's code
/// sits in its display label (`"측정소(PM10)"` gives `"PM10"`); none if `s`
/// holds no such group.
pub fn unwrap_parenthesized(s: &str) -> (r: Option<String>)
    ensures
        match r {
            Some(t) => paren_code(s@) == Some(t@),
            None => paren_code(s@) is None,
        },
{
    let cs = chars_of(s);
    match find_char(&cs, '(', 0) {
        None => None,
        Some(i) => match find_char(&cs, ')', i + 1) {
            None => None,
            Some(j) => Some(string_of_range(&cs, i + 1, j)),
        },
    }
}

/// Whether `s` is empty or starts and ends with a character that is not white
/// space: what trimming leaves.
pub open spec fn is_tight(s: Seq<char>) -> bool {
    s.len() == 0 || (!is_white_space(s[0]) && !is_white_space(s.last()))
}

proof fn lemma_trim_start_tight(s: Seq<char>)
    ensures
        trim_start(s).len() == 0 || !is_white_space(trim_start(s)[0]),
    decreases s.len(),
{
    if s.len() > 0 && is_white_space(s[0]) {
        lemma_trim_start_tight(s.drop_first());
    }
}

proof fn lemma_trim_end_prefix(s: Seq<char>)
    ensures
        trim_end(s).len() <= s.len(),
        trim_end(s) == s.subrange(0, trim_end(s).len() as int),
        trim_end(s).len() == 0 || !is_white_space(trim_end(s).last()),
    decreases s.len(),
{
    if s.len() > 0 && is_white_space(s.last()) {
        lemma_trim_end_prefix(s.drop_last());
        assert(s.drop_last().subrange(0, trim_end(s).len() as int) =~= s.subrange(
            0,
            trim_end(s).len() as int,
        ));
    } else {
        assert(s.subrange(0, s.len() as int) =~= s);
    }
}

/// What trimming leaves is tight, and a tight text trims to itself.
pub proof fn lemma_trimmed_is_tight(s: Seq<char>)
    ensures
        is_tight(trimmed(s)),
        is_tight(s) ==> trimmed(s) == s,
{
    lemma_trim_start_tight(s);
    lemma_trim_end_prefix(trim_start(s));
    let t = trimmed(s);
    if t.len() > 0 {
        assert(t[0] == trim_start(s).subrange(0, t.len() as int)[0]);
    }
    if is_tight(s) && s.len() > 0 {
        assert(trim_start(s) == s);
        assert(trim_end(s) == s);
    }
}

proof fn lemma_join_trimmed_is_tight(parts: Seq<Seq<char>>)
    ensures
        is_tight(join_trimmed(parts)),
    decreases parts.len(),
{
    if parts.len() > 0 {
        let head = join_trimmed(parts.drop_last());
        let t = trimmed(parts.last());
        lemma_join_trimmed_is_tight(parts.drop_last());
        lemma_trimmed_is_tight(parts.last());
        let j = head + t;
        if head.len() == 0 {
            assert(j =~= t);
        } else if t.len() == 0 {
            assert(j =~= head);
        } else {
            assert(j[0] == head[0]);
            assert(j.last() == t.last());
        }
    }
}

} // verus!
