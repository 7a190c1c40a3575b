//! Character-level text helpers: whitespace trimming and substring search,
//! stated over the `Seq<char>` view of Rust strings.
use vstd::prelude::*;
use vstd::utf8::{encode_scalar, encode_utf8};

verus! {

/// The Unicode `White_Space` property, which `char::is_whitespace` tests.
pub open spec fn is_whitespace_char(c: char) -> bool {
    ||| c == ' '
    ||| ('\u{9}' <= c && c <= '\u{d}')
    ||| c == '\u{85}'
    ||| c == '\u{a0}'
    ||| c == '\u{1680}'
    ||| ('\u{2000}' <= c && c <= '\u{200a}')
    ||| c == '\u{2028}'
    ||| c == '\u{2029}'
    ||| c == '\u{202f}'
    ||| c == '\u{205f}'
    ||| c == '\u{3000}'
}

/// `s` with its leading whitespace removed.
pub open spec fn trim_start(s: Seq<char>) -> Seq<char>
    decreases s.len(),
{
    if s.len() > 0 && is_whitespace_char(s[0]) {
        trim_start(s.drop_first())
    } else {
        s
    }
}

/// `s` with its trailing whitespace removed.
pub open spec fn trim_end(s: Seq<char>) -> Seq<char>
    decreases s.len(),
{
    if s.len() > 0 && is_whitespace_char(s.last()) {
        trim_end(s.drop_last())
    } else {
        s
    }
}

/// `s` with leading and trailing whitespace removed, as `str::trim` does.
pub open spec fn trim(s: Seq<char>) -> Seq<char> {
    trim_end(trim_start(s))
}

/// `pat` occurs in `s` starting at character index `i`.
pub open spec fn matches_at(s: Seq<char>, pat: Seq<char>, i: int) -> bool {
    &&& 0 <= i
    &&& i + pat.len() <= s.len()
    &&& s.subrange(i, i + pat.len()) == pat
}

/// `pat` occurs somewhere in `s`.
pub open spec fn occurs_in(s: Seq<char>, pat: Seq<char>) -> bool {
    exists|i: int| matches_at(s, pat, i)
}

/// `i` is the index of the first occurrence of `pat` in `s`.
pub open spec fn first_match_at(s: Seq<char>, pat: Seq<char>, i: int) -> bool {
    &&& matches_at(s, pat, i)
    &&& forall|j: int| 0 <= j < i ==> !matches_at(s, pat, j)
}

/// Removing leading whitespace twice removes no more than once.
pub proof fn lemma_trim_start_idempotent(s: Seq<char>)
    ensures
        trim_start(trim_start(s)) == trim_start(s),
        trim_start(s).len() > 0 ==> !is_whitespace_char(trim_start(s)[0]),
    decreases s.len(),
{
    if s.len() > 0 && is_whitespace_char(s[0]) {
        lemma_trim_start_idempotent(s.drop_first());
    }
}

/// Removing trailing whitespace twice removes no more than once.
pub proof fn lemma_trim_end_idempotent(s: Seq<char>)
    ensures
        trim_end(trim_end(s)) == trim_end(s),
    decreases s.len(),
{
    if s.len() > 0 && is_whitespace_char(s.last()) {
        lemma_trim_end_idempotent(s.drop_last());
    }
}

/// A sequence without leading whitespace keeps none after its trailing
/// whitespace is removed.
pub proof fn lemma_trim_end_keeps_start(s: Seq<char>)
    requires
        s.len() > 0 ==> !is_whitespace_char(s[0]),
    ensures
        trim_start(trim_end(s)) == trim_end(s),
    decreases s.len(),
{
    if s.len() > 0 && is_whitespace_char(s.last()) {
        let t = s.drop_last();
        if t.len() > 0 {
            assert(t[0] == s[0]);
        }
        lemma_trim_end_keeps_start(t);
    }
}

/// Tests `c` for the Unicode `White_Space` property.
pub fn is_whitespace(c: char) -> (r: bool)
    ensures
        r == is_whitespace_char(c),
{
    c == ' ' || ('\u{9}' <= c && c <= '\u{d}') || c == '\u{85}' || c == '\u{a0}' || c
        == '\u{1680}' || ('\u{2000}' <= c && c <= '\u{200a}') || c == '\u{2028}' || c
        == '\u{2029}' || c == '\u{202f}' || c == '\u{205f}' || c == '\u{3000}'
}

/// The characters of `s`, in order.
pub fn to_chars(s: &str) -> (v: Vec<char>)
    ensures
        v@ == s@,
{
    let n = s.unicode_len();
    let mut v: Vec<char> = Vec::new();
    let mut i: usize = 0;
    while i < n
        invariant
            n == s@.len(),
            i <= n,
            v@ == s@.subrange(0, i as int),
        decreases n - i,
    {
        v.push(s.get_char(i));
        i = i + 1;
    }
    v
}

proof fn lemma_trim_start_at(s: Seq<char>, a: int)
    requires
        0 <= a <= s.len(),
        forall|i: int| 0 <= i < a ==> is_whitespace_char(#[trigger] s[i]),
        a < s.len() ==> !is_whitespace_char(s[a]),
    ensures
        trim_start(s) == s.subrange(a, s.len() as int),
    decreases a,
{
    if a == 0 {
        assert(s.subrange(0, s.len() as int) =~= s);
    } else {
        let t = s.drop_first();
        assert(is_whitespace_char(s[0]));
        assert forall|i: int| 0 <= i < a - 1 implies is_whitespace_char(#[trigger] t[i]) by {
            assert(t[i] == s[i + 1]);
        }
        if a - 1 < t.len() {
            assert(t[a - 1] == s[a]);
        }
        lemma_trim_start_at(t, a - 1);
        assert(t.subrange(a - 1, t.len() as int) =~= s.subrange(a, s.len() as int));
    }
}

proof fn lemma_trim_end_at(s: Seq<char>, b: int)
    requires
        0 <= b <= s.len(),
        forall|i: int| b <= i < s.len() ==> is_whitespace_char(#[trigger] s[i]),
        b > 0 ==> !is_whitespace_char(s[b - 1]),
    ensures
        trim_end(s) == s.subrange(0, b),
    decreases s.len() - b,
{
    if b == s.len() {
        assert(s.subrange(0, b) =~= s);
    } else {
        let t = s.drop_last();
        assert(is_whitespace_char(s[s.len() - 1]));
        assert forall|i: int| b <= i < t.len() implies is_whitespace_char(#[trigger] t[i]) by {
            assert(t[i] == s[i]);
        }
        if b > 0 {
            assert(t[b - 1] == s[b - 1]);
        }
        lemma_trim_end_at(t, b);
        assert(t.subrange(0, b) =~= s.subrange(0, b));
    }
}

/// The bounds `(a, b)` of `chars[lo..hi]` with surrounding whitespace removed.
pub fn trim_range(chars: &Vec<char>, lo: usize, hi: usize) -> (r: (usize, usize))
    requires
        lo <= hi <= chars.len(),
    ensures
        lo <= r.0 <= r.1 <= hi,
        chars@.subrange(r.0 as int, r.1 as int) == trim(chars@.subrange(lo as int, hi as int)),
{
    let mut a = lo;
    while a < hi && is_whitespace(chars[a])
        invariant
            lo <= a <= hi <= chars.len(),
            forall|i: int| lo <= i < a ==> is_whitespace_char(#[trigger] chars@[i]),
        decreases hi - a,
    {
        a = a + 1;
    }
    let mut b = hi;
    while b > a && is_whitespace(chars[b - 1])
        invariant
            lo <= a <= b <= hi <= chars.len(),
            forall|i: int| b <= i < hi ==> is_whitespace_char(#[trigger] chars@[i]),
        decreases b - a,
    {
        b = b - 1;
    }
    proof {
        let s = chars@.subrange(lo as int, hi as int);
        assert forall|i: int| 0 <= i < a - lo implies is_whitespace_char(#[trigger] s[i]) by {
            assert(s[i] == chars@[lo + i]);
        }
        if a - lo < s.len() {
            assert(s[a - lo] == chars@[a as int]);
        }
        lemma_trim_start_at(s, a - lo);
        let u = s.subrange(a - lo, s.len() as int);
        assert(u =~= chars@.subrange(a as int, hi as int));
        assert forall|i: int| b - a <= i < u.len() implies is_whitespace_char(#[trigger] u[i]) by {
            assert(u[i] == chars@[a + i]);
        }
        if b - a > 0 {
            assert(u[b - a - 1] == chars@[b - 1]);
        }
        lemma_trim_end_at(u, b - a);
        assert(u.subrange(0, b - a) =~= chars@.subrange(a as int, b as int));
    }
    (a, b)
}

/// Whether `pat` occurs in `text` at index `i`.
pub fn matches_here(text: &Vec<char>, pat: &Vec<char>, i: usize) -> (r: bool)
    ensures
        r == matches_at(text@, pat@, i as int),
{
    if i > text.len() || pat.len() > text.len() - i {
        return false;
    }
    let mut m: usize = 0;
    while m < pat.len()
        invariant
            i + pat.len() <= text.len(),
            m <= pat.len(),
            forall|mm: int| 0 <= mm < m ==> text@[i + mm] == pat@[mm],
        decreases pat.len() - m,
    {
        if text[i + m] != pat[m] {
            proof {
                let sub = text@.subrange(i as int, i + pat.len());
                assert(sub[m as int] != pat@[m as int]);
            }
            return false;
        }
        m = m + 1;
    }
    assert(text@.subrange(i as int, i + pat.len()) =~= pat@);
    true
}

/// The index of the first occurrence of `pat` in `text`, if any.
pub fn first_match(text: &Vec<char>, pat: &Vec<char>) -> (r: Option<usize>)
    ensures
        match r {
            Some(p) => first_match_at(text@, pat@, p as int),
            None => !occurs_in(text@, pat@),
        },
{
    if pat.len() > text.len() {
        return None;
    }
    let last = text.len() - pat.len();
    let mut i: usize = 0;
    loop
        invariant
            last + pat.len() == text.len(),
            i <= last,
            forall|j: int| 0 <= j < i ==> !matches_at(text@, pat@, j),
        decreases last - i,
    {
        if matches_here(text, pat, i) {
            return Some(i);
        }
        if i == last {
            return None;
        }
        i = i + 1;
    }
}

/// Whether `a` and `b` hold the same characters.
pub fn same_text(a: &str, b: &str) -> (r: bool)
    ensures
        r == (a@ == b@),
{
    let n = a.unicode_len();
    if n != b.unicode_len() {
        return false;
    }
    let mut i: usize = 0;
    while i < n
        invariant
            n == a@.len(),
            n == b@.len(),
            i <= n,
            forall|j: int| 0 <= j < i ==> a@[j] == b@[j],
        decreases n - i,
    {
        if a.get_char(i) != b.get_char(i) {
            return false;
        }
        i = i + 1;
    }
    assert(a@ =~= b@);
    true
}

/// The number of bytes in the UTF-8 encoding of `s`.
pub open spec fn utf8_len(s: Seq<char>) -> int {
    encode_utf8(s).len() as int
}

/// Encoding a concatenation encodes each part in turn.
pub proof fn lemma_encode_utf8_concat(a: Seq<char>, b: Seq<char>)
    ensures
        encode_utf8(a + b) == encode_utf8(a) + encode_utf8(b),
    decreases a.len(),
{
    if a.len() == 0 {
        assert(a + b =~= b);
        assert(encode_utf8(a) =~= Seq::<u8>::empty());
        assert(encode_utf8(a) + encode_utf8(b) =~= encode_utf8(b));
    } else {
        assert((a + b).drop_first() =~= a.drop_first() + b);
        assert((a + b)[0] == a[0]);
        lemma_encode_utf8_concat(a.drop_first(), b);
        assert(encode_utf8(a + b) =~= encode_utf8(a) + encode_utf8(b));
    }
}

/// The number of bytes in the UTF-8 encoding of `c`.
pub fn char_utf8_len(c: char) -> (n: usize)
    ensures
        n == encode_scalar(c as u32).len(),
        1 <= n <= 4,
{
    if c <= '\u{7f}' {
        1
    } else if c <= '\u{7ff}' {
        2
    } else if c <= '\u{ffff}' {
        3
    } else {
        4
    }
}

/// The byte offset in `s` of its character at index `n`: the length of the
/// UTF-8 encoding of the first `n` characters.
pub fn utf8_offset(s: &str, chars: &Vec<char>, n: usize) -> (r: usize)
    requires
        chars@ == s@,
        n <= chars.len(),
    ensures
        r == utf8_len(s@.subrange(0, n as int)),
{
    let total = s.as_bytes().len();
    proof {
        assert(s@ =~= s@.subrange(0, n as int) + s@.subrange(n as int, s@.len() as int));
        lemma_encode_utf8_concat(s@.subrange(0, n as int), s@.subrange(n as int, s@.len() as int));
    }
    let mut i: usize = 0;
    let mut r: usize = 0;
    assert(encode_utf8(s@.subrange(0, 0)) =~= Seq::<u8>::empty());
    while i < n
        invariant
            chars@ == s@,
            n <= chars.len(),
            i <= n,
            total == encode_utf8(s@).len(),
            utf8_len(s@.subrange(0, n as int)) <= total,
            r == utf8_len(s@.subrange(0, i as int)),
        decreases n - i,
    {
        let w = char_utf8_len(chars[i]);
        proof {
            let pre = s@.subrange(0, i as int);
            assert(s@.subrange(0, i + 1) =~= pre + seq![s@[i as int]]);
            lemma_encode_utf8_concat(pre, seq![s@[i as int]]);
            assert(seq![s@[i as int]].drop_first() =~= Seq::<char>::empty());
            assert(encode_utf8(seq![s@[i as int]]) =~= encode_scalar(s@[i as int] as u32)
                + encode_utf8(Seq::<char>::empty()));
            assert(encode_utf8(Seq::<char>::empty()) =~= Seq::<u8>::empty());
            assert(s@.subrange(0, n as int) =~= s@.subrange(0, i + 1) + s@.subrange(
                i + 1,
                n as int,
            ));
            lemma_encode_utf8_concat(s@.subrange(0, i + 1), s@.subrange(i + 1, n as int));
        }
        r = r + w;
        i = i + 1;
    }
    r
}

} // verus!
