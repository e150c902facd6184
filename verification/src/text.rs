//! Character-level helpers on strings, with their meaning stated over `Seq<char>`.

use vstd::prelude::*;
use vstd::utf8::{decode_utf8, valid_utf8};

verus! {

broadcast use vstd::string::group_string_axioms;

/// `suffix` ends `s`.
pub open spec fn seq_ends_with(s: Seq<char>, suffix: Seq<char>) -> bool {
    suffix.len() <= s.len() && s.subrange(s.len() - suffix.len(), s.len() as int) == suffix
}

/// `prefix` begins `s`.
pub open spec fn seq_starts_with(s: Seq<char>, prefix: Seq<char>) -> bool {
    prefix.len() <= s.len() && s.subrange(0, prefix.len() as int) == prefix
}

/// `c` occurs in `s`.
pub open spec fn seq_has_char(s: Seq<char>, c: char) -> bool {
    exists|i: int| 0 <= i < s.len() && s[i] == c
}

/// The code of `c` with ASCII upper-case letters mapped to lower case.
pub open spec fn ascii_lower_code(c: char) -> u32 {
    if 65 <= (c as u32) <= 90 {
        ((c as u32) + 32) as u32
    } else {
        c as u32
    }
}

/// `a` and `b` are equal up to ASCII case.
pub open spec fn eq_ascii_case_insensitive(a: Seq<char>, b: Seq<char>) -> bool {
    a.len() == b.len() && forall|i: int| 0 <= i < a.len() ==> ascii_lower_code(a[i]) == ascii_lower_code(b[i])
}

/// Appends `c` to `s`.
#[verifier::external_body]
pub fn string_push(s: &mut String, c: char)
    ensures
        final(s)@ == old(s)@.push(c),
{
    s.push(c)
}

/// The characters of `s`, in order.
pub fn chars_of(s: &str) -> (v: Vec<char>)
    ensures
        v@ == s@,
{
    let mut v: Vec<char> = Vec::new();
    for c in it: s.chars()
        invariant
            v@ == it.seq().take(it.index() as int),
            it.seq() == s@,
    {
        v.push(c);
    }
    v
}

/// A string holding exactly the characters `v`.
pub fn string_from_chars(v: &[char]) -> (s: String)
    ensures
        s@ == v@,
{
    let mut s = String::new();
    let mut i: usize = 0;
    while i < v.len()
        invariant
            i <= v@.len(),
            s@ == v@.take(i as int),
        decreases v@.len() - i,
    {
        string_push(&mut s, v[i]);
        proof {
            assert(v@.take(i as int).push(v@[i as int]) =~= v@.take(i + 1));
        }
        i = i + 1;
    }
    proof {
        assert(v@.take(v@.len() as int) =~= v@);
    }
    s
}

/// A copy of `s` as an owned string.
pub fn owned(s: &str) -> (r: String)
    ensures
        r@ == s@,
{
    String::from_str(s)
}

/// Appends `b` to the end of `a`.
pub fn append_str(a: &mut String, b: &str)
    ensures
        final(a)@ == old(a)@ + b@,
{
    a.append(b)
}

/// Whether `v` ends with `suffix`.
pub fn chars_end_with(v: &[char], suffix: &[char]) -> (r: bool)
    ensures
        r == seq_ends_with(v@, suffix@),
{
    if suffix.len() > v.len() {
        return false;
    }
    let off = v.len() - suffix.len();
    let mut i: usize = 0;
    while i < suffix.len()
        invariant
            off + suffix@.len() == v@.len(),
            off + suffix.len() == v.len(),
            i <= suffix@.len(),
            forall|k: int| 0 <= k < i ==> v@[off + k] == suffix@[k],
        decreases suffix@.len() - i,
    {
        if v[off + i] != suffix[i] {
            proof {
                assert(v@.subrange(off as int, v@.len() as int)[i as int] != suffix@[i as int]);
            }
            return false;
        }
        i = i + 1;
    }
    proof {
        assert(v@.subrange(v@.len() - suffix@.len(), v@.len() as int) =~= suffix@);
    }
    true
}

/// Whether `a` and `b` hold the same characters.
pub fn str_eq(a: &str, b: &str) -> (r: bool)
    ensures
        r == (a@ == b@),
{
    let x = chars_of(a);
    let y = chars_of(b);
    if x.len() != y.len() {
        return false;
    }
    let mut i: usize = 0;
    while i < x.len()
        invariant
            x@ == a@,
            y@ == b@,
            x@.len() == y@.len(),
            i <= x@.len(),
            forall|k: int| 0 <= k < i ==> x@[k] == y@[k],
        decreases x@.len() - i,
    {
        if x[i] != y[i] {
            return false;
        }
        i = i + 1;
    }
    proof {
        assert(x@ =~= y@);
    }
    true
}

/// Whether `s` ends with `suffix`.
pub fn str_ends_with(s: &str, suffix: &str) -> (r: bool)
    ensures
        r == seq_ends_with(s@, suffix@),
{
    let v = chars_of(s);
    let w = chars_of(suffix);
    chars_end_with(v.as_slice(), w.as_slice())
}

/// The code of `c`, with ASCII upper-case letters lowered.
pub fn ascii_lower(c: char) -> (r: u32)
    ensures
        r == ascii_lower_code(c),
{
    let u = c as u32;
    if 65 <= u && u <= 90 {
        u + 32
    } else {
        u
    }
}

/// Whether `a` and `b` are equal up to ASCII case (as `str::eq_ignore_ascii_case`).
pub fn eq_ignore_ascii_case(a: &str, b: &str) -> (r: bool)
    ensures
        r == eq_ascii_case_insensitive(a@, b@),
{
    let x = chars_of(a);
    let y = chars_of(b);
    if x.len() != y.len() {
        return false;
    }
    let mut i: usize = 0;
    while i < x.len()
        invariant
            x@ == a@,
            y@ == b@,
            x@.len() == y@.len(),
            i <= x@.len(),
            forall|k: int| 0 <= k < i ==> ascii_lower_code(x@[k]) == ascii_lower_code(y@[k]),
        decreases x@.len() - i,
    {
        if ascii_lower(x[i]) != ascii_lower(y[i]) {
            return false;
        }
        i = i + 1;
    }
    true
}

/// `s` padded on the right with spaces to at least `width` characters.
pub open spec fn pad_right(s: Seq<char>, width: nat) -> Seq<char> {
    if s.len() >= width {
        s
    } else {
        s + Seq::new((width - s.len()) as nat, |i: int| ' ')
    }
}

/// Appends `s` to `out`, padded on the right with spaces to `width` characters
/// (the `{:<width}` format).
pub fn append_padded(out: &mut String, s: &str, width: usize)
    ensures
        final(out)@ == old(out)@ + pad_right(s@, width as nat),
{
    let n = s.unicode_len();
    append_str(out, s);
    let mut k: usize = n;
    let ghost base = out@;
    proof {
        assert(base + Seq::new(0, |i: int| ' ') =~= base);
    }
    while k < width
        invariant
            n == s@.len(),
            base == old(out)@ + s@,
            k >= n,
            n >= width ==> k == n,
            n < width ==> k <= width,
            out@ == base + Seq::new((k - n) as nat, |i: int| ' '),
        decreases width - k,
    {
        string_push(out, ' ');
        proof {
            assert(base + Seq::new((k - n) as nat, |i: int| ' ') + seq![' '] =~= base + Seq::new(
                (k + 1 - n) as nat,
                |i: int| ' ',
            ));
        }
        k = k + 1;
    }
    proof {
        if s@.len() >= width {
            assert(out@ =~= old(out)@ + s@);
        } else {
            assert(out@ =~= old(out)@ + (s@ + Seq::new((width - s@.len()) as nat, |i: int| ' ')));
        }
    }
}

/// The first position at which `needle` occurs in `hay`, if any.
pub open spec fn occurs_at(hay: Seq<u8>, needle: Seq<u8>, p: int) -> bool {
    0 <= p && p + needle.len() <= hay.len() && hay.subrange(p, p + needle.len()) == needle
}

/// Whether `needle` occurs in `hay` at byte position `p`.
pub fn bytes_occur_at(hay: &[u8], needle: &[u8], p: usize) -> (r: bool)
    ensures
        r == occurs_at(hay@, needle@, p as int),
{
    if p > hay.len() || needle.len() > hay.len() - p {
        return false;
    }
    let mut i: usize = 0;
    while i < needle.len()
        invariant
            p + needle@.len() <= hay@.len(),
            p + needle.len() <= hay.len(),
            i <= needle@.len(),
            forall|k: int| 0 <= k < i ==> hay@[p + k] == needle@[k],
        decreases needle@.len() - i,
    {
        if hay[p + i] != needle[i] {
            proof {
                assert(hay@.subrange(p as int, p + needle@.len())[i as int] != needle@[i as int]);
            }
            return false;
        }
        i = i + 1;
    }
    proof {
        assert(hay@.subrange(p as int, p + needle@.len()) =~= needle@);
    }
    true
}

/// The positions at which `needle` occurs in `hay`.
pub open spec fn occurs_pred(hay: Seq<u8>, needle: Seq<u8>) -> spec_fn(int) -> bool {
    |p: int| occurs_at(hay, needle, p)
}

/// The first position at which `needle` occurs in `hay`, if it occurs.
pub open spec fn found_at(hay: Seq<u8>, needle: Seq<u8>) -> Option<int> {
    crate::search::first_index((hay.len() + 1) as nat, occurs_pred(hay, needle))
}

/// The first position at which `needle` occurs in `hay`, if it occurs.
pub fn find_first(hay: &[u8], needle: &[u8]) -> (r: Option<usize>)
    ensures
        r is None <==> found_at(hay@, needle@) is None,
        r matches Some(p) ==> found_at(hay@, needle@) == Some(p as int) && occurs_at(
            hay@,
            needle@,
            p as int,
        ),
{
    let r = find_bytes(hay, needle);
    proof {
        let f = occurs_pred(hay@, needle@);
        crate::search::lemma_first_index((hay@.len() + 1) as nat, f);
        match r {
            Some(p) => {
                assert(f(p as int));
                let i = found_at(hay@, needle@)->0;
                assert(!f(i) ==> i >= p);
                if i > p {
                    assert(!f(p as int));
                }
            },
            None => {
                if found_at(hay@, needle@) is Some {
                    let i = found_at(hay@, needle@)->0;
                    assert(f(i));
                }
            },
        }
    }
    r
}

/// Appends the bytes of `src` to `out`.
pub fn push_bytes(out: &mut Vec<u8>, src: &[u8])
    ensures
        final(out)@ == old(out)@ + src@,
{
    let ghost start = out@;
    let mut i: usize = 0;
    while i < src.len()
        invariant
            i <= src@.len(),
            out@ == start + src@.take(i as int),
        decreases src@.len() - i,
    {
        out.push(src[i]);
        proof {
            assert(src@.take(i + 1) =~= src@.take(i as int).push(src@[i as int]));
        }
        i = i + 1;
    }
    proof {
        assert(src@.take(src@.len() as int) =~= src@);
    }
}

/// The first byte position of `needle` in `hay`, as `str::find` reports it.
pub fn find_bytes(hay: &[u8], needle: &[u8]) -> (r: Option<usize>)
    ensures
        r matches Some(p) ==> occurs_at(hay@, needle@, p as int) && forall|q: int|
            0 <= q < p ==> !occurs_at(hay@, needle@, q),
        r is None ==> forall|q: int| 0 <= q <= hay@.len() ==> !occurs_at(hay@, needle@, q),
{
    let mut p: usize = 0;
    while p < hay.len()
        invariant
            p <= hay@.len(),
            forall|q: int| 0 <= q < p ==> !occurs_at(hay@, needle@, q),
        decreases hay@.len() - p,
    {
        if bytes_occur_at(hay, needle, p) {
            return Some(p);
        }
        p = p + 1;
    }
    if bytes_occur_at(hay, needle, p) {
        return Some(p);
    }
    None
}


/// `c` has the Unicode `White_Space` property (as `char::is_whitespace`).
pub open spec fn is_ws(c: char) -> bool {
    let u = c as u32;
    ||| 0x09 <= u <= 0x0D
    ||| u == 0x20
    ||| u == 0x85
    ||| u == 0xA0
    ||| u == 0x1680
    ||| 0x2000 <= u <= 0x200A
    ||| u == 0x2028
    ||| u == 0x2029
    ||| u == 0x202F
    ||| u == 0x205F
    ||| u == 0x3000
}

/// Whether `c` is whitespace.
pub fn char_is_whitespace(c: char) -> (r: bool)
    ensures
        r == is_ws(c),
{
    let u = c as u32;
    (0x09 <= u && u <= 0x0D) || u == 0x20 || u == 0x85 || u == 0xA0 || u == 0x1680 || (0x2000 <= u
        && u <= 0x200A) || u == 0x2028 || u == 0x2029 || u == 0x202F || u == 0x205F || u == 0x3000
}

/// `s` without leading whitespace.
pub open spec fn trim_start(s: Seq<char>) -> Seq<char>
    decreases s.len(),
{
    if s.len() > 0 && is_ws(s[0]) {
        trim_start(s.drop_first())
    } else {
        s
    }
}

/// `s` without trailing whitespace.
pub open spec fn trim_end(s: Seq<char>) -> Seq<char>
    decreases s.len(),
{
    if s.len() > 0 && is_ws(s.last()) {
        trim_end(s.drop_last())
    } else {
        s
    }
}

/// `s` without leading or trailing whitespace (as `str::trim`).
pub open spec fn trim(s: Seq<char>) -> Seq<char> {
    trim_end(trim_start(s))
}

/// `s` without trailing `c`s (as `str::trim_end_matches(c)`).
pub open spec fn trim_end_char(s: Seq<char>, c: char) -> Seq<char>
    decreases s.len(),
{
    if s.len() > 0 && s.last() == c {
        trim_end_char(s.drop_last(), c)
    } else {
        s
    }
}

/// `a` is a contiguous part of `s`.
pub open spec fn is_infix(a: Seq<char>, s: Seq<char>) -> bool {
    exists|i: int, j: int| 0 <= i <= j <= s.len() && a == s.subrange(i, j)
}

/// Being a contiguous part is transitive.
pub proof fn lemma_infix_trans(a: Seq<char>, b: Seq<char>, c: Seq<char>)
    requires
        is_infix(a, b),
        is_infix(b, c),
    ensures
        is_infix(a, c),
{
    let (i, j) = choose|i: int, j: int| 0 <= i <= j <= b.len() && a == b.subrange(i, j);
    let (k, l) = choose|k: int, l: int| 0 <= k <= l <= c.len() && b == c.subrange(k, l);
    assert(a =~= c.subrange(k + i, k + j));
}

/// A sequence is a contiguous part of itself, and so are its parts without the first or
/// the last element.
pub proof fn lemma_infix_self_and_ends(s: Seq<char>)
    ensures
        is_infix(s, s),
        s.len() > 0 ==> is_infix(s.drop_first(), s) && is_infix(s.drop_last(), s),
{
    assert(s =~= s.subrange(0, s.len() as int));
    if s.len() > 0 {
        assert(s.drop_first() =~= s.subrange(1, s.len() as int));
        assert(s.drop_last() =~= s.subrange(0, s.len() - 1));
    }
}

/// Trimming leading whitespace keeps a contiguous part.
pub proof fn lemma_trim_start_infix(s: Seq<char>)
    ensures
        is_infix(trim_start(s), s),
    decreases s.len(),
{
    lemma_infix_self_and_ends(s);
    if s.len() > 0 && is_ws(s[0]) {
        lemma_trim_start_infix(s.drop_first());
        lemma_infix_trans(trim_start(s.drop_first()), s.drop_first(), s);
    }
}

/// Trimming trailing whitespace keeps a contiguous part.
pub proof fn lemma_trim_end_infix(s: Seq<char>)
    ensures
        is_infix(trim_end(s), s),
    decreases s.len(),
{
    lemma_infix_self_and_ends(s);
    if s.len() > 0 && is_ws(s.last()) {
        lemma_trim_end_infix(s.drop_last());
        lemma_infix_trans(trim_end(s.drop_last()), s.drop_last(), s);
    }
}

/// Trimming whitespace keeps a contiguous part.
pub proof fn lemma_trim_infix(s: Seq<char>)
    ensures
        is_infix(trim(s), s),
{
    lemma_trim_start_infix(s);
    lemma_trim_end_infix(trim_start(s));
    lemma_infix_trans(trim(s), trim_start(s), s);
}

/// Trimming a trailing character keeps a contiguous part.
pub proof fn lemma_trim_end_char_infix(s: Seq<char>, c: char)
    ensures
        is_infix(trim_end_char(s, c), s),
    decreases s.len(),
{
    lemma_infix_self_and_ends(s);
    if s.len() > 0 && s.last() == c {
        lemma_trim_end_char_infix(s.drop_last(), c);
        lemma_infix_trans(trim_end_char(s.drop_last(), c), s.drop_last(), s);
    }
}

/// The characters of `v[lo..hi]`.
pub fn sub_chars(v: &[char], lo: usize, hi: usize) -> (r: Vec<char>)
    requires
        lo <= hi <= v@.len(),
    ensures
        r@ == v@.subrange(lo as int, hi as int),
{
    let mut r: Vec<char> = Vec::new();
    let mut k: usize = lo;
    while k < hi
        invariant
            lo <= k <= hi,
            hi <= v@.len(),
            r@ == v@.subrange(lo as int, k as int),
        decreases hi - k,
    {
        r.push(v[k]);
        proof {
            assert(v@.subrange(lo as int, k + 1) =~= v@.subrange(lo as int, k as int).push(v@[k as int]));
        }
        k = k + 1;
    }
    r
}

/// `v` without leading or trailing whitespace.
pub fn trim_chars(v: &[char]) -> (r: Vec<char>)
    ensures
        r@ == trim(v@),
        is_infix(r@, v@),
{
    let mut lo: usize = 0;
    proof {
        assert(v@.subrange(0, v@.len() as int) =~= v@);
    }
    while lo < v.len() && char_is_whitespace(v[lo])
        invariant
            lo <= v@.len(),
            trim_start(v@) == trim_start(v@.subrange(lo as int, v@.len() as int)),
        decreases v@.len() - lo,
    {
        proof {
            assert(v@.subrange(lo as int, v@.len() as int).drop_first() =~= v@.subrange(
                lo + 1,
                v@.len() as int,
            ));
        }
        lo = lo + 1;
    }
    let ghost ts = v@.subrange(lo as int, v@.len() as int);
    proof {
        assert(trim_start(ts) == ts);
    }
    let mut hi: usize = v.len();
    while hi > lo && char_is_whitespace(v[hi - 1])
        invariant
            lo <= hi <= v@.len(),
            ts == v@.subrange(lo as int, v@.len() as int),
            trim_end(ts) == trim_end(v@.subrange(lo as int, hi as int)),
        decreases hi,
    {
        proof {
            assert(v@.subrange(lo as int, hi as int).drop_last() =~= v@.subrange(
                lo as int,
                hi - 1,
            ));
        }
        hi = hi - 1;
    }
    proof {
        assert(trim_end(v@.subrange(lo as int, hi as int)) == v@.subrange(lo as int, hi as int));
    }
    sub_chars(v, lo, hi)
}

/// `v` without trailing `c`s.
pub fn trim_end_matching(v: &[char], c: char) -> (r: Vec<char>)
    ensures
        r@ == trim_end_char(v@, c),
        is_infix(r@, v@),
{
    let mut hi: usize = v.len();
    proof {
        assert(v@.subrange(0, v@.len() as int) =~= v@);
    }
    while hi > 0 && v[hi - 1] == c
        invariant
            hi <= v@.len(),
            trim_end_char(v@, c) == trim_end_char(v@.subrange(0, hi as int), c),
        decreases hi,
    {
        proof {
            assert(v@.subrange(0, hi as int).drop_last() =~= v@.subrange(0, hi - 1));
        }
        hi = hi - 1;
    }
    proof {
        assert(trim_end_char(v@.subrange(0, hi as int), c) == v@.subrange(0, hi as int));
    }
    sub_chars(v, 0, hi)
}

/// Whether `v` begins with the characters of `prefix`.
pub fn chars_start_with(v: &[char], prefix: &str) -> (r: bool)
    ensures
        r == seq_starts_with(v@, prefix@),
{
    let p = chars_of(prefix);
    if p.len() > v.len() {
        return false;
    }
    let mut i: usize = 0;
    while i < p.len()
        invariant
            p@ == prefix@,
            p@.len() <= v@.len(),
            i <= p@.len(),
            forall|k: int| 0 <= k < i ==> v@[k] == p@[k],
        decreases p@.len() - i,
    {
        if v[i] != p[i] {
            proof {
                assert(v@.subrange(0, p@.len() as int)[i as int] != p@[i as int]);
            }
            return false;
        }
        i = i + 1;
    }
    proof {
        assert(v@.subrange(0, p@.len() as int) =~= p@);
    }
    true
}

/// Whether `v` holds `c`.
pub fn chars_contain(v: &[char], c: char) -> (r: bool)
    ensures
        r == seq_has_char(v@, c),
{
    let mut i: usize = 0;
    while i < v.len()
        invariant
            i <= v@.len(),
            forall|k: int| 0 <= k < i ==> v@[k] != c,
        decreases v@.len() - i,
    {
        if v[i] == c {
            return true;
        }
        i = i + 1;
    }
    false
}

/// Calls `std::str::from_utf8` and copies the text. Claimed: `Some` exactly for valid UTF-8,
/// holding the decoded characters.
#[verifier::external_body]
pub(crate) fn utf8_text(bytes: &[u8]) -> (r: Option<String>)
    ensures
        r is Some <==> valid_utf8(bytes@),
        r matches Some(s) ==> s@ == decode_utf8(bytes@),
{
    std::str::from_utf8(bytes).ok().map(|s| s.to_owned())
}

} // verus!
