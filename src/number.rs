//! Which tokens of a script are number literals.

use vstd::prelude::*;

verus! {

// A reading stays the literal that the page printed. Whether a token is such a
// literal follows the grammar that std documents for parsing a float:
//
//     Float  ::= Sign? ( 'inf' | 'infinity' | 'nan' | Number )
//     Number ::= ( Digit+ | Digit+ '.' Digit* | Digit* '.' Digit+ ) Exp?
//     Exp    ::= 'e' Sign? Digit+
//     Sign   ::= [+-]
//     Digit  ::= [0-9]
//
// with letters in either case.

/// `[0-9]`
pub open spec fn is_digit(c: char) -> bool {
    '0' as u32 <= c as u32 && c as u32 <= '9' as u32
}

/// `Digit*`
pub open spec fn all_digits(s: Seq<char>) -> bool {
    forall|i: int| 0 <= i < s.len() ==> is_digit(#[trigger] s[i])
}

/// `[+-]`
pub open spec fn is_sign(c: char) -> bool {
    c == '+' || c == '-'
}

/// `s` without one leading sign.
pub open spec fn unsigned(s: Seq<char>) -> Seq<char> {
    if s.len() > 0 && is_sign(s[0]) {
        s.drop_first()
    } else {
        s
    }
}

/// `c` is the lower-case ASCII letter `l` in either case.
pub open spec fn same_letter(c: char, l: char) -> bool {
    c == l || c as u32 + 32 == l as u32
}

/// `s` spells the lower-case word `w`, in any mix of cases.
pub open spec fn spells(s: Seq<char>, w: Seq<char>) -> bool {
    s.len() == w.len() && forall|i: int| 0 <= i < s.len() ==> same_letter(#[trigger] s[i], w[i])
}

/// `Digit+ | Digit+ '.' Digit* | Digit* '.' Digit+`
pub open spec fn is_mantissa(m: Seq<char>) -> bool {
    (m.len() > 0 && all_digits(m)) || (m.len() > 1 && exists|d: int|
        0 <= d < m.len() && #[trigger] m[d] == '.' && all_digits(m.subrange(0, d)) && all_digits(
            m.subrange(d + 1, m.len() as int),
        ))
}

/// `'e' Sign? Digit+`
pub open spec fn is_exponent(x: Seq<char>) -> bool {
    x.len() > 0 && (x[0] == 'e' || x[0] == 'E') && unsigned(x.drop_first()).len() > 0
        && all_digits(unsigned(x.drop_first()))
}

/// `Mantissa Exp?`
pub open spec fn is_decimal(b: Seq<char>) -> bool {
    is_mantissa(b) || exists|k: int|
        0 < k < b.len() && is_mantissa(#[trigger] b.subrange(0, k)) && is_exponent(
            b.subrange(k, b.len() as int),
        )
}

/// Whether `s` is a literal that std parses as a float.
pub open spec fn is_float_literal(s: Seq<char>) -> bool {
    let b = unsigned(s);
    spells(b, seq!['i', 'n', 'f']) || spells(b, seq!['i', 'n', 'f', 'i', 'n', 'i', 't', 'y'])
        || spells(b, seq!['n', 'a', 'n']) || is_decimal(b)
}

/// Whether `c` is a decimal digit.
fn is_digit_char(c: char) -> (r: bool)
    ensures
        r == is_digit(c),
{
    '0' <= c && c <= '9'
}

/// The first index in `lo..hi` that holds no digit, or `hi`.
fn skip_digits(cs: &Vec<char>, lo: usize, hi: usize) -> (r: usize)
    requires
        lo <= hi <= cs@.len(),
    ensures
        lo <= r <= hi,
        all_digits(cs@.subrange(lo as int, r as int)),
        r < hi ==> !is_digit(cs@[r as int]),
{
    let mut k: usize = lo;
    while k < hi && is_digit_char(cs[k])
        invariant
            lo <= k <= hi <= cs@.len(),
            all_digits(cs@.subrange(lo as int, k as int)),
        decreases hi - k,
    {
        k = k + 1;
        assert(forall|i: int|
            0 <= i < k - lo ==> #[trigger] cs@.subrange(lo as int, k as int)[i] == cs@[lo + i]);
    }
    k
}

/// Whether `cs[lo..hi]` spells the lower-case word `w`.
fn spells_word(cs: &Vec<char>, lo: usize, hi: usize, w: &Vec<char>) -> (r: bool)
    requires
        lo <= hi <= cs@.len(),
    ensures
        r == spells(cs@.subrange(lo as int, hi as int), w@),
{
    if hi - lo != w.len() {
        return false;
    }
    let mut i: usize = 0;
    while i < w.len()
        invariant
            lo <= hi <= cs@.len(),
            hi - lo == w@.len(),
            i <= w@.len(),
            forall|k: int| 0 <= k < i ==> same_letter(cs@[lo + k], w@[k]),
        decreases w@.len() - i,
    {
        let c = cs[lo + i];
        let l = w[i];
        if !(c == l || (c as u32) as u64 + 32 == (l as u32) as u64) {
            assert(!same_letter(cs@.subrange(lo as int, hi as int)[i as int], w@[i as int]));
            return false;
        }
        i = i + 1;
    }
    true
}

/// A mantissa holds digits and a point only.
proof fn lemma_mantissa_chars(m: Seq<char>)
    requires
        is_mantissa(m),
    ensures
        forall|i: int| 0 <= i < m.len() ==> is_digit(#[trigger] m[i]) || m[i] == '.',
{
    if !(m.len() > 0 && all_digits(m)) {
        let d = choose|d: int|
            0 <= d < m.len() && #[trigger] m[d] == '.' && all_digits(m.subrange(0, d))
                && all_digits(m.subrange(d + 1, m.len() as int));
        assert forall|i: int| 0 <= i < m.len() implies is_digit(#[trigger] m[i]) || m[i] == '.' by {
            if i < d {
                assert(m.subrange(0, d)[i] == m[i]);
            } else if i > d {
                assert(m.subrange(d + 1, m.len() as int)[i - d - 1] == m[i]);
            }
        }
    }
}

/// Whether `cs[lo..hi]` is a mantissa.
fn mantissa_at(cs: &Vec<char>, lo: usize, hi: usize) -> (r: bool)
    requires
        lo <= hi <= cs@.len(),
    ensures
        r == is_mantissa(cs@.subrange(lo as int, hi as int)),
{
    let ghost m = cs@.subrange(lo as int, hi as int);
    let d = skip_digits(cs, lo, hi);
    if d == hi {
        assert(m =~= cs@.subrange(lo as int, d as int));
        return hi > lo;
    }
    assert(m[d - lo] == cs@[d as int]);
    if cs[d] != '.' {
        proof {
            if is_mantissa(m) {
                lemma_mantissa_chars(m);
            }
        }
        return false;
    }
    let e = skip_digits(cs, d + 1, hi);
    assert(m.subrange(0, d - lo) =~= cs@.subrange(lo as int, d as int));
    assert(m.subrange(d - lo + 1, m.len() as int) =~= cs@.subrange(d + 1, hi as int));
    if e == hi {
        assert(cs@.subrange(d + 1, hi as int) =~= cs@.subrange(d + 1, e as int));
        return hi - lo > 1;
    }
    proof {
        assert(m[e - lo] == cs@[e as int]);
        if is_mantissa(m) {
            lemma_mantissa_chars(m);
            assert(!all_digits(m)) by {
                assert(!is_digit(m[d - lo]));
            }
            let d2 = choose|d2: int|
                0 <= d2 < m.len() && #[trigger] m[d2] == '.' && all_digits(m.subrange(0, d2))
                    && all_digits(m.subrange(d2 + 1, m.len() as int));
            if d2 < d - lo {
                assert(m.subrange(0, d - lo)[d2] == m[d2]);
            } else if d2 > d - lo {
                assert(m.subrange(0, d2)[d - lo] == m[d - lo]);
            } else {
                assert(m.subrange(d2 + 1, m.len() as int)[e - d - 1] == m[e - lo]);
            }
        }
    }
    false
}

/// Whether `cs[lo..hi]` is an exponent.
fn exponent_at(cs: &Vec<char>, lo: usize, hi: usize) -> (r: bool)
    requires
        lo <= hi <= cs@.len(),
    ensures
        r == is_exponent(cs@.subrange(lo as int, hi as int)),
{
    let ghost x = cs@.subrange(lo as int, hi as int);
    if hi == lo {
        return false;
    }
    assert(x[0] == cs@[lo as int]);
    if !(cs[lo] == 'e' || cs[lo] == 'E') {
        return false;
    }
    let mut s: usize = lo + 1;
    assert(x.drop_first() =~= cs@.subrange(lo + 1, hi as int));
    if s < hi && (cs[s] == '+' || cs[s] == '-') {
        assert(x.drop_first()[0] == cs@[s as int]);
        s = s + 1;
        assert(x.drop_first().drop_first() =~= cs@.subrange(s as int, hi as int));
    } else {
        assert(s < hi ==> x.drop_first()[0] == cs@[s as int]);
    }
    assert(unsigned(x.drop_first()) =~= cs@.subrange(s as int, hi as int));
    if s == hi {
        return false;
    }
    let d = skip_digits(cs, s, hi);
    if d == hi {
        true
    } else {
        assert(cs@.subrange(s as int, hi as int)[d - s] == cs@[d as int]);
        false
    }
}

/// The first index in `lo..hi` that holds `e` or `E`, or `hi`.
fn find_exponent_mark(cs: &Vec<char>, lo: usize, hi: usize) -> (r: usize)
    requires
        lo <= hi <= cs@.len(),
    ensures
        lo <= r <= hi,
        forall|i: int| lo <= i < r ==> cs@[i] != 'e' && cs@[i] != 'E',
        r < hi ==> (cs@[r as int] == 'e' || cs@[r as int] == 'E'),
{
    let mut k: usize = lo;
    while k < hi && cs[k] != 'e' && cs[k] != 'E'
        invariant
            lo <= k <= hi <= cs@.len(),
            forall|i: int| lo <= i < k ==> cs@[i] != 'e' && cs@[i] != 'E',
        decreases hi - k,
    {
        k = k + 1;
    }
    k
}

/// Whether `cs[lo..hi]` is a mantissa with an optional exponent.
fn decimal_at(cs: &Vec<char>, lo: usize, hi: usize) -> (r: bool)
    requires
        lo <= hi <= cs@.len(),
    ensures
        r == is_decimal(cs@.subrange(lo as int, hi as int)),
{
    let ghost b = cs@.subrange(lo as int, hi as int);
    let k = find_exponent_mark(cs, lo, hi);
    proof {
        // A mantissa holds no exponent mark, so the mark at `k` is the only
        // place where a mantissa can end and an exponent begin.
        assert forall|k2: int|
            0 < k2 < b.len() && is_mantissa(#[trigger] b.subrange(0, k2)) && is_exponent(
                b.subrange(k2, b.len() as int),
            ) implies k2 == k - lo by {
            lemma_mantissa_chars(b.subrange(0, k2));
            assert(b.subrange(k2, b.len() as int)[0] == cs@[lo + k2]);
            if k2 > k - lo {
                assert(b.subrange(0, k2)[k - lo] == cs@[k as int]);
            }
        }
        if is_mantissa(b) && k < hi {
            lemma_mantissa_chars(b);
            assert(b[k - lo] == cs@[k as int]);
        }
    }
    if k == hi {
        return mantissa_at(cs, lo, hi);
    }
    assert(b.subrange(0, k - lo) =~= cs@.subrange(lo as int, k as int));
    assert(b.subrange(k - lo, b.len() as int) =~= cs@.subrange(k as int, hi as int));
    mantissa_at(cs, lo, k) && exponent_at(cs, k, hi)
}

/// Whether `cs[lo..hi]` is a literal that std parses as a float.
pub(crate) fn float_literal_at(cs: &Vec<char>, lo: usize, hi: usize) -> (r: bool)
    requires
        lo <= hi <= cs@.len(),
    ensures
        r == is_float_literal(cs@.subrange(lo as int, hi as int)),
{
    let ghost t = cs@.subrange(lo as int, hi as int);
    let mut s: usize = lo;
    if s < hi && (cs[s] == '+' || cs[s] == '-') {
        assert(t[0] == cs@[s as int]);
        s = s + 1;
    } else {
        assert(s < hi ==> t[0] == cs@[s as int]);
    }
    assert(unsigned(t) =~= cs@.subrange(s as int, hi as int));
    let inf = vec!['i', 'n', 'f'];
    let infinity = vec!['i', 'n', 'f', 'i', 'n', 'i', 't', 'y'];
    let nan = vec!['n', 'a', 'n'];
    assert(inf@ =~= seq!['i', 'n', 'f']);
    assert(infinity@ =~= seq!['i', 'n', 'f', 'i', 'n', 'i', 't', 'y']);
    assert(nan@ =~= seq!['n', 'a', 'n']);
    spells_word(cs, s, hi, &inf) || spells_word(cs, s, hi, &infinity) || spells_word(
        cs,
        s,
        hi,
        &nan,
    ) || decimal_at(cs, s, hi)
}

/// Whether `token` is a literal that std parses as a float: a decimal number
/// with an optional sign, fraction and exponent, or `inf`, `infinity` or `nan`
/// in any case. Surrounding white space is not allowed.
pub fn parses_as_number(token: &str) -> (r: bool)
    ensures
        r == is_float_literal(token@),
{
    let cs = crate::text::chars_of(token);
    assert(cs@.subrange(0, cs@.len() as int) =~= token@);
    float_literal_at(&cs, 0, cs.len())
}

} // verus!
