//! Character-level helpers on `str` and `String`, with their meaning stated over `Seq<char>`.
use vstd::prelude::*;

verus! {

/// What `char::is_alphanumeric` answers for a character (Unicode alphabetic or numeric).
pub uninterp spec fn char_is_alphanumeric(c: char) -> bool;

/// Calls `char::is_alphanumeric` (alphabetic or numeric); the answer is named by
/// `char_is_alphanumeric`. On ASCII it is claimed to hold exactly of the letters and digits,
/// which are the ASCII characters with the Alphabetic or Numeric property.
#[verifier::external_body]
pub(crate) fn is_alphanumeric(c: char) -> (r: bool)
    ensures
        r == char_is_alphanumeric(c),
        ('a' <= c <= 'z' || 'A' <= c <= 'Z' || '0' <= c <= '9') ==> r,
        ((c as u32) < 128 && !('a' <= c <= 'z' || 'A' <= c <= 'Z' || '0' <= c <= '9')) ==> !r,
{
    c.is_alphanumeric()
}

/// Calls `String::push`, which appends one character at the end of the string.
#[verifier::external_body]
pub(crate) fn push_char(s: &mut String, c: char)
    ensures
        final(s)@ == old(s)@.push(c),
{
    s.push(c)
}

/// ASCII lower-casing of one character: 'A'..='Z' map to 'a'..='z', all else is unchanged.
pub open spec fn ascii_lower(c: char) -> char {
    if 'A' <= c && c <= 'Z' {
        ((c as u32) + 32) as char
    } else {
        c
    }
}

/// ASCII lower-casing of a whole character sequence.
pub open spec fn ascii_lower_seq(s: Seq<char>) -> Seq<char> {
    Seq::new(s.len(), |i: int| ascii_lower(s[i]))
}

/// Lower-cases one ASCII letter.
pub fn ascii_lower_char(c: char) -> (r: char)
    ensures
        r == ascii_lower(c),
{
    if 'A' <= c && c <= 'Z' {
        let u: u32 = c as u32;
        assert(65 <= u <= 90);
        let l: u8 = (u + 32) as u8;
        l as char
    } else {
        c
    }
}

/// The characters of a string slice, in order.
pub fn chars_of(s: &str) -> (v: Vec<char>)
    ensures
        v@ == s@,
{
    let n = s.unicode_len();
    let mut v: Vec<char> = Vec::new();
    let mut i: usize = 0;
    while i < n
        invariant
            n == s@.len(),
            i <= n,
            v@ == s@.subrange(0, i as int),
        decreases n - i,
    {
        v.push(s.get_char(i));
        i = i + 1;
    }
    assert(v@ =~= s@);
    v
}

/// A string made of the given characters.
pub fn string_from_chars(cs: &Vec<char>) -> (s: String)
    ensures
        s@ == cs@,
{
    let mut s = String::new();
    let mut i: usize = 0;
    while i < cs.len()
        invariant
            i <= cs.len(),
            s@ == cs@.subrange(0, i as int),
        decreases cs.len() - i,
    {
        push_char(&mut s, cs[i]);
        assert(cs@.subrange(0, i + 1) =~= cs@.subrange(0, i as int).push(cs@[i as int]));
        i = i + 1;
    }
    assert(s@ =~= cs@);
    s
}

/// Whether two string slices hold the same characters.
pub fn str_eq(a: &str, b: &str) -> (r: bool)
    ensures
        r == (a@ == b@),
{
    let av = chars_of(a);
    let bv = chars_of(b);
    if av.len() != bv.len() {
        return false;
    }
    let mut i: usize = 0;
    while i < av.len()
        invariant
            av@ == a@,
            bv@ == b@,
            av.len() == bv.len(),
            i <= av.len(),
            forall|j: int| 0 <= j < i ==> av@[j] == bv@[j],
        decreases av.len() - i,
    {
        if av[i] != bv[i] {
            return false;
        }
        i = i + 1;
    }
    assert(a@ =~= b@);
    true
}

/// A copy of a path of child indices.
pub fn copy_path(p: &[u32]) -> (v: Vec<u32>)
    ensures
        v@ == p@,
{
    let mut v: Vec<u32> = Vec::new();
    let mut i: usize = 0;
    while i < p.len()
        invariant
            i <= p.len(),
            v@ == p@.subrange(0, i as int),
        decreases p.len() - i,
    {
        v.push(p[i]);
        i = i + 1;
    }
    assert(v@ =~= p@);
    v
}

/// `needle` occurs in `hay` at some position.
pub open spec fn contains_seq(hay: Seq<char>, needle: Seq<char>) -> bool {
    exists|k: int| 0 <= k && k + needle.len() <= hay.len() && #[trigger] hay.subrange(k, k + needle.len()) == needle
}

/// Whether `needle` occurs in `hay`.
pub fn contains_chars(hay: &Vec<char>, needle: &Vec<char>) -> (r: bool)
    ensures
        r == contains_seq(hay@, needle@),
{
    let n = needle.len();
    if n > hay.len() {
        return false;
    }
    let mut k: usize = 0;
    while k <= hay.len() - n
        invariant
            n == needle@.len(),
            n <= hay@.len(),
            k <= hay@.len() - n + 1,
            forall|j: int| 0 <= j < k ==> #[trigger] hay@.subrange(j, j + n) != needle@,
        decreases hay.len() - k,
    {
        let mut m: usize = 0;
        let mut same = true;
        while m < n
            invariant
                m <= n,
                k + n <= hay@.len(),
                k + n <= hay.len(),
                n == needle@.len(),
                same == (forall|t: int| 0 <= t < m ==> hay@[k + t] == needle@[t]),
            decreases n - m,
        {
            assert(k + m < k + n);
            if hay[k + m] != needle[m] {
                same = false;
            }
            m = m + 1;
        }
        if same {
            assert(hay@.subrange(k as int, k + n) =~= needle@);
            return true;
        }
        assert(hay@.subrange(k as int, k + n) != needle@) by {
            let t = choose|t: int| 0 <= t < n && hay@[k + t] != needle@[t];
            assert(hay@.subrange(k as int, k + n)[t] == hay@[k + t]);
        }
        k = k + 1;
    }
    assert forall|j: int| 0 <= j && j + n <= hay@.len() implies #[trigger] hay@.subrange(j, j + n) != needle@ by {
        assert(j < k);
    }
    false
}

/// Everything before the first `c` (all of `s` when there is none).
pub open spec fn before_char(s: Seq<char>, c: char) -> Seq<char>
    decreases s.len(),
{
    if s.len() == 0 || s[0] == c {
        Seq::empty()
    } else {
        seq![s[0]] + before_char(s.drop_first(), c)
    }
}

/// Everything after the first `c`, or `None` when there is no `c`.
pub open spec fn after_char(s: Seq<char>, c: char) -> Option<Seq<char>>
    decreases s.len(),
{
    if s.len() == 0 {
        None
    } else if s[0] == c {
        Some(s.drop_first())
    } else {
        after_char(s.drop_first(), c)
    }
}

/// Splits `cs` at the first `c`: the part before it, and the part after it if there is a `c`.
pub fn split_once_char(cs: &Vec<char>, c: char) -> (r: (Vec<char>, Option<Vec<char>>))
    ensures
        r.0@ == before_char(cs@, c),
        match after_char(cs@, c) {
            Some(t) => r.1 matches Some(v) && v@ == t,
            None => r.1 is None,
        },
{
    let mut head: Vec<char> = Vec::new();
    let mut i: usize = 0;
    assert(cs@.subrange(0, cs@.len() as int) =~= cs@);
    assert(head@ + before_char(cs@, c) =~= before_char(cs@, c));
    while i < cs.len()
        invariant
            i <= cs@.len(),
            head@ + before_char(cs@.subrange(i as int, cs@.len() as int), c) == before_char(cs@, c),
            after_char(cs@.subrange(i as int, cs@.len() as int), c) == after_char(cs@, c),
        decreases cs.len() - i,
    {
        let ghost rest = cs@.subrange(i as int, cs@.len() as int);
        assert(rest.drop_first() =~= cs@.subrange(i + 1, cs@.len() as int));
        if cs[i] == c {
            assert(head@ + Seq::<char>::empty() =~= head@);
            let mut tail: Vec<char> = Vec::new();
            let mut j: usize = i + 1;
            while j < cs.len()
                invariant
                    i + 1 <= j <= cs@.len(),
                    tail@ == cs@.subrange(i + 1, j as int),
                decreases cs.len() - j,
            {
                tail.push(cs[j]);
                assert(tail@ =~= cs@.subrange(i + 1, j + 1));
                j = j + 1;
            }
            return (head, Some(tail));
        }
        assert(head@.push(cs[i as int]) + before_char(rest.drop_first(), c) =~= head@ + (seq![cs[i as int]]
            + before_char(rest.drop_first(), c)));
        head.push(cs[i]);
        i = i + 1;
    }
    assert(cs@.subrange(i as int, cs@.len() as int) =~= Seq::<char>::empty());
    assert(head@ + Seq::<char>::empty() =~= head@);
    (head, None)
}

/// The Unicode `White_Space` characters (what `char::is_whitespace` accepts).
pub open spec fn is_white_space(c: char) -> bool {
    let u = c as u32;
    (0x9 <= u && u <= 0xD) || u == 0x20 || u == 0x85 || u == 0xA0 || u == 0x1680 || (0x2000 <= u && u <= 0x200A)
        || u == 0x2028 || u == 0x2029 || u == 0x202F || u == 0x205F || u == 0x3000
}

/// Whether `c` is Unicode white space.
pub fn white_space(c: char) -> (r: bool)
    ensures
        r == is_white_space(c),
{
    let u = c as u32;
    (0x9 <= u && u <= 0xD) || u == 0x20 || u == 0x85 || u == 0xA0 || u == 0x1680 || (0x2000 <= u && u <= 0x200A)
        || u == 0x2028 || u == 0x2029 || u == 0x202F || u == 0x205F || u == 0x3000
}

/// `s` without leading white space.
pub open spec fn trim_start(s: Seq<char>) -> Seq<char>
    decreases s.len(),
{
    if s.len() > 0 && is_white_space(s[0]) {
        trim_start(s.drop_first())
    } else {
        s
    }
}

/// `s` without trailing white space.
pub open spec fn trim_end(s: Seq<char>) -> Seq<char>
    decreases s.len(),
{
    if s.len() > 0 && is_white_space(s.last()) {
        trim_end(s.drop_last())
    } else {
        s
    }
}

/// `s` without leading and trailing white space (as `str::trim`).
pub open spec fn trimmed(s: Seq<char>) -> Seq<char> {
    trim_end(trim_start(s))
}

/// The characters of `cs` without leading and trailing white space.
pub fn trim_chars(cs: &Vec<char>) -> (r: Vec<char>)
    ensures
        r@ == trimmed(cs@),
{
    let mut a: usize = 0;
    assert(cs@.subrange(0, cs@.len() as int) =~= cs@);
    while a < cs.len() && white_space(cs[a])
        invariant
            a <= cs@.len(),
            trim_start(cs@) == trim_start(cs@.subrange(a as int, cs@.len() as int)),
        decreases cs.len() - a,
    {
        assert(cs@.subrange(a as int, cs@.len() as int).drop_first() =~= cs@.subrange(a + 1, cs@.len() as int));
        a = a + 1;
    }
    let ghost start = cs@.subrange(a as int, cs@.len() as int);
    assert(trim_start(cs@) == start);
    let mut b: usize = cs.len();
    assert(start.subrange(0, start.len() as int) =~= start);
    while b > a && white_space(cs[b - 1])
        invariant
            a <= b <= cs@.len(),
            start == cs@.subrange(a as int, cs@.len() as int),
            trim_end(start) == trim_end(cs@.subrange(a as int, b as int)),
        decreases b - a,
    {
        assert(cs@.subrange(a as int, b as int).drop_last() =~= cs@.subrange(a as int, b - 1));
        b = b - 1;
    }
    let mut out: Vec<char> = Vec::new();
    let mut i: usize = a;
    while i < b
        invariant
            a <= i <= b <= cs@.len(),
            out@ == cs@.subrange(a as int, i as int),
        decreases b - i,
    {
        out.push(cs[i]);
        assert(out@ =~= cs@.subrange(a as int, i + 1));
        i = i + 1;
    }
    out
}

/// Decimal value of a digit sequence.
pub open spec fn digits_value(s: Seq<char>) -> nat
    decreases s.len(),
{
    if s.len() == 0 {
        0
    } else {
        digits_value(s.drop_last()) * 10 + ((s.last() as u32) - ('0' as u32)) as nat
    }
}

/// Every character is an ASCII digit.
pub open spec fn all_digits(s: Seq<char>) -> bool {
    forall|i: int| 0 <= i < s.len() ==> '0' <= #[trigger] s[i] && s[i] <= '9'
}

/// What `u32::from_str` accepts: an optional `+`, then one or more ASCII digits, with a
/// value that fits.
pub open spec fn parse_u32_spec(s: Seq<char>) -> Option<u32> {
    let d = if s.len() > 0 && s[0] == '+' { s.drop_first() } else { s };
    if d.len() > 0 && all_digits(d) && digits_value(d) <= u32::MAX {
        Some(digits_value(d) as u32)
    } else {
        None
    }
}

/// The value of a digit string is at least that of each of its prefixes.
proof fn lemma_digits_value_grows(d: Seq<char>, i: int)
    requires
        0 <= i <= d.len(),
        all_digits(d),
    ensures
        digits_value(d) >= digits_value(d.subrange(0, i)),
    decreases d.len() - i,
{
    if i < d.len() {
        lemma_digits_value_grows(d, i + 1);
        let p = d.subrange(0, i + 1);
        assert(p.drop_last() =~= d.subrange(0, i));
    } else {
        assert(d.subrange(0, i) =~= d);
    }
}

/// Parses a decimal `u32` as `u32::from_str` does.
pub fn parse_u32(cs: &Vec<char>) -> (r: Option<u32>)
    ensures
        r == parse_u32_spec(cs@),
{
    let start: usize = if cs.len() > 0 && cs[0] == '+' { 1 } else { 0 };
    let ghost d = if cs@.len() > 0 && cs@[0] == '+' { cs@.drop_first() } else { cs@ };
    assert(d =~= cs@.subrange(start as int, cs@.len() as int));
    if start >= cs.len() {
        return None;
    }
    let mut i: usize = start;
    let mut acc: u64 = 0;
    while i < cs.len()
        invariant
            start <= i <= cs@.len(),
            d == cs@.subrange(start as int, cs@.len() as int),
            d == (if cs@.len() > 0 && cs@[0] == '+' { cs@.drop_first() } else { cs@ }),
            d.len() > 0,
            acc as nat == digits_value(d.subrange(0, i - start)),
            acc <= u32::MAX,
            all_digits(d.subrange(0, i - start)),
        decreases cs.len() - i,
    {
        let c = cs[i];
        let ghost p = d.subrange(0, i + 1 - start);
        assert(p.drop_last() =~= d.subrange(0, i - start));
        if c < '0' || c > '9' {
            assert(!all_digits(d)) by {
                assert(d[i - start] == c);
            }
            return None;
        }
        let v: u64 = (c as u32 - '0' as u32) as u64;
        acc = acc * 10 + v;
        assert(all_digits(p)) by {
            assert forall|t: int| 0 <= t < p.len() implies '0' <= #[trigger] p[t] && p[t] <= '9' by {
                if t < p.len() - 1 {
                    assert(p[t] == d.subrange(0, i - start)[t]);
                }
            }
        }
        if acc > 0xffff_ffffu64 {
            proof {
                if all_digits(d) {
                    lemma_digits_value_grows(d, i + 1 - start);
                }
            }
            return None;
        }
        i = i + 1;
    }
    assert(d.subrange(0, i - start) =~= d);
    Some(acc as u32)
}

/// What follows the first `c` is shorter than the whole.
pub proof fn lemma_after_char_shorter(s: Seq<char>, c: char)
    ensures
        after_char(s, c) matches Some(t) ==> t.len() < s.len(),
    decreases s.len(),
{
    if s.len() > 0 && s[0] != c {
        lemma_after_char_shorter(s.drop_first(), c);
    }
}

/// The part before the first `c` of `a` followed by `c` and anything is `a`, when `a` holds
/// no `c`; and the whole of `a` when nothing follows.
pub proof fn lemma_before_char_prefix(a: Seq<char>, c: char, rest: Seq<char>)
    requires
        forall|i: int| 0 <= i < a.len() ==> a[i] != c,
    ensures
        before_char(a + seq![c] + rest, c) == a,
        before_char(a, c) == a,
    decreases a.len(),
{
    if a.len() == 0 {
        assert((a + seq![c] + rest)[0] == c);
    } else {
        let t = a.drop_first();
        lemma_before_char_prefix(t, c, rest);
        assert((a + seq![c] + rest).drop_first() =~= t + seq![c] + rest);
        assert(seq![a[0]] + t =~= a);
    }
}

} // verus!
