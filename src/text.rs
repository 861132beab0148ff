//! Character-level model of a document.
//!
//! A document is modelled as its sequence of Unicode scalar values (`s@`). Byte offsets
//! and byte lengths are those of the UTF-8 encoding, computed from the width of each
//! character, so that the byte-oriented rules of the library can be stated and proved
//! without ever cutting a multi-byte character.
use vstd::prelude::*;
use vstd::string::*;
use vstd::utf8::*;

verus! {

/// Number of bytes in the UTF-8 encoding of `c`.
pub open spec fn char_width(c: char) -> nat {
    let u = c as u32;
    if u < 0x80 {
        1
    } else if u < 0x800 {
        2
    } else if u < 0x10000 {
        3
    } else {
        4
    }
}

/// Number of bytes in the UTF-8 encoding of `s`.
pub open spec fn byte_len(s: Seq<char>) -> nat
    decreases s.len(),
{
    if s.len() == 0 {
        0
    } else {
        byte_len(s.drop_last()) + char_width(s.last())
    }
}

/// Byte offset of the character at index `k` of `s`.
pub open spec fn byte_offset(s: Seq<char>, k: int) -> nat {
    byte_len(s.take(k))
}

/// Length of the longest prefix of `s` whose encoding fits in `p` bytes.
pub open spec fn prefix_within(s: Seq<char>, p: int) -> nat
    decreases s.len(),
{
    if byte_len(s) <= p {
        s.len()
    } else if s.len() == 0 {
        0
    } else {
        prefix_within(s.drop_last(), p)
    }
}

/// The White_Space characters of Unicode, those for which `char::is_whitespace` holds.
pub open spec fn is_space(c: char) -> bool {
    let u = c as u32;
    ||| 9 <= u <= 13
    ||| u == 32
    ||| u == 0x85
    ||| u == 0xA0
    ||| u == 0x1680
    ||| 0x2000 <= u <= 0x200A
    ||| u == 0x2028
    ||| u == 0x2029
    ||| u == 0x202F
    ||| u == 0x205F
    ||| u == 0x3000
}

/// First index at or after `i` and before `e` that does not hold whitespace, or `e`.
pub open spec fn skip_space(s: Seq<char>, i: int, e: int) -> int
    decreases e - i,
{
    if i < e && is_space(s[i]) {
        skip_space(s, i + 1, e)
    } else {
        i
    }
}

/// First index at or after `i` and before `e` that does not hold `c`, or `e`.
pub open spec fn skip_char(s: Seq<char>, c: char, i: int, e: int) -> int
    decreases e - i,
{
    if i < e && s[i] == c {
        skip_char(s, c, i + 1, e)
    } else {
        i
    }
}

/// End of `s[lo..j]` once trailing whitespace is removed.
pub open spec fn trim_end_at(s: Seq<char>, lo: int, j: int) -> int
    decreases j - lo,
{
    if j > lo && is_space(s[j - 1]) {
        trim_end_at(s, lo, j - 1)
    } else {
        j
    }
}

/// `s` without its trailing whitespace (`str::trim_end`).
pub open spec fn trim_end(s: Seq<char>) -> Seq<char> {
    s.take(trim_end_at(s, 0, s.len() as int))
}

/// Index of the first line feed at or after `a`, or the length of `t`.
pub open spec fn line_stop(t: Seq<char>, a: int) -> int
    decreases t.len() - a,
{
    if a >= t.len() {
        t.len() as int
    } else if t[a] == '\n' {
        a
    } else {
        line_stop(t, a + 1)
    }
}

/// End of the content of the line that starts at `a`, as `str::lines` yields it: the line
/// feed is left out, and so is a carriage return right before it.
pub open spec fn line_end(t: Seq<char>, a: int) -> int {
    let e = line_stop(t, a);
    if e < t.len() && e > a && t[e - 1] == '\r' {
        e - 1
    } else {
        e
    }
}

/// Start of the line after the one that starts at `a`.
pub open spec fn next_line(t: Seq<char>, a: int) -> int {
    line_stop(t, a) + 1
}

/// Where the line that starts at `a` stops and ends.
pub proof fn lemma_line_bounds(t: Seq<char>, a: int)
    requires
        0 <= a,
    ensures
        a <= line_stop(t, a) <= t.len() || (a > t.len() && line_stop(t, a) == t.len()),
        a <= line_stop(t, a) ==> a <= line_end(t, a) <= line_stop(t, a),
        line_stop(t, a) < t.len() ==> t[line_stop(t, a)] == '\n',
        forall|k: int| a <= k < line_stop(t, a) ==> t[k] != '\n',
    decreases t.len() - a,
{
    if a < t.len() && t[a] != '\n' {
        lemma_line_bounds(t, a + 1);
    }
}

/// Skipping stays within the range it skips over.
pub proof fn lemma_skip_char_bounds(s: Seq<char>, c: char, i: int, e: int)
    requires
        i <= e,
    ensures
        i <= skip_char(s, c, i, e) <= e,
    decreases e - i,
{
    if i < e && s[i] == c {
        lemma_skip_char_bounds(s, c, i + 1, e);
    }
}

/// Trimming stays within the range it trims.
pub proof fn lemma_trim_end_bounds(s: Seq<char>, lo: int, j: int)
    requires
        lo <= j,
    ensures
        lo <= trim_end_at(s, lo, j) <= j,
    decreases j - lo,
{
    if j > lo && is_space(s[j - 1]) {
        lemma_trim_end_bounds(s, lo, j - 1);
    }
}

/// More bytes never fit fewer characters.
pub proof fn lemma_prefix_within_mono(s: Seq<char>, p: int, q: int)
    requires
        0 <= p <= q,
    ensures
        prefix_within(s, p) <= prefix_within(s, q),
{
    lemma_prefix_within(s, p);
    lemma_prefix_within(s, q);
    let kp = prefix_within(s, p) as int;
    let kq = prefix_within(s, q) as int;
    if kq < kp {
        lemma_byte_len_subrange(s, kq + 1, kp);
    }
}

/// Byte lengths add up over concatenation.
pub proof fn lemma_byte_len_concat(a: Seq<char>, b: Seq<char>)
    ensures
        byte_len(a + b) == byte_len(a) + byte_len(b),
    decreases b.len(),
{
    if b.len() == 0 {
        assert(a + b =~= a);
    } else {
        lemma_byte_len_concat(a, b.drop_last());
        assert((a + b).drop_last() =~= a + b.drop_last());
        assert((a + b).last() == b.last());
    }
}

/// The byte length of one character is its width.
pub proof fn lemma_byte_len_single(c: char)
    ensures
        byte_len(seq![c]) == char_width(c),
{
    assert(seq![c].drop_last() =~= Seq::<char>::empty());
    assert(seq![c].last() == c);
    assert(byte_len(Seq::<char>::empty()) == 0);
}

/// Byte length of a range of `s`, as a difference of offsets.
pub proof fn lemma_byte_len_subrange(s: Seq<char>, i: int, j: int)
    requires
        0 <= i <= j <= s.len(),
    ensures
        byte_len(s.subrange(i, j)) == byte_offset(s, j) - byte_offset(s, i),
        byte_offset(s, i) <= byte_offset(s, j),
{
    assert(s.take(j) =~= s.take(i) + s.subrange(i, j));
    lemma_byte_len_concat(s.take(i), s.subrange(i, j));
}

/// The next offset is this one plus the width of the character here.
pub proof fn lemma_byte_offset_step(s: Seq<char>, k: int)
    requires
        0 <= k < s.len(),
    ensures
        byte_offset(s, k + 1) == byte_offset(s, k) + char_width(s[k]),
{
    assert(s.take(k + 1).drop_last() =~= s.take(k));
}

/// The offset of the end is the byte length.
pub proof fn lemma_byte_offset_full(s: Seq<char>)
    ensures
        byte_offset(s, s.len() as int) == byte_len(s),
{
    assert(s.take(s.len() as int) =~= s);
}

/// The UTF-8 encoding has as many bytes as the model says.
pub proof fn lemma_encode_len(s: Seq<char>)
    ensures
        encode_utf8(s).len() == byte_len(s),
    decreases s.len(),
{
    if s.len() > 0 {
        lemma_encode_len(s.drop_first());
        char_is_scalar(s[0]);
        assert(encode_utf8(s) == encode_scalar(s[0] as u32) + encode_utf8(s.drop_first()));
        assert(s =~= seq![s[0]] + s.drop_first());
        lemma_byte_len_concat(seq![s[0]], s.drop_first());
        lemma_byte_len_single(s[0]);
    }
}

/// The byte length that `str::len` reports is the model's byte length.
pub proof fn lemma_str_len(s: &str)
    ensures
        s.spec_bytes().len() == byte_len(s@),
{
    lemma_encode_len(s@);
}

/// What `prefix_within` gives: the prefix fits, and one more character does not.
pub proof fn lemma_prefix_within(s: Seq<char>, p: int)
    requires
        0 <= p,
    ensures
        prefix_within(s, p) <= s.len(),
        byte_offset(s, prefix_within(s, p) as int) <= p,
        prefix_within(s, p) < s.len() ==> byte_offset(s, prefix_within(s, p) + 1int) > p,
    decreases s.len(),
{
    if byte_len(s) <= p {
        lemma_byte_offset_full(s);
    } else if s.len() == 0 {
    } else {
        let d = s.drop_last();
        lemma_prefix_within(d, p);
        let k = prefix_within(d, p) as int;
        assert(s.take(k) =~= d.take(k));
        if k < d.len() {
            assert(s.take(k + 1) =~= d.take(k + 1));
        } else {
            assert(s.take(k + 1) =~= s);
        }
    }
}

/// The unique length `k` whose prefix fits in `p` bytes while `k + 1` characters do not.
pub proof fn lemma_prefix_within_unique(s: Seq<char>, p: int, k: int)
    requires
        0 <= p,
        0 <= k <= s.len(),
        byte_offset(s, k) <= p,
        k < s.len() ==> byte_offset(s, k + 1) > p,
    ensures
        prefix_within(s, p) == k,
{
    lemma_prefix_within(s, p);
    let m = prefix_within(s, p) as int;
    if m < k {
        lemma_byte_len_subrange(s, m + 1, k);
    } else if k < m {
        lemma_byte_len_subrange(s, k + 1, m);
    }
}

/// The encoding of a concatenation is the concatenation of the encodings.
pub proof fn lemma_encode_concat(a: Seq<char>, b: Seq<char>)
    ensures
        encode_utf8(a + b) == encode_utf8(a) + encode_utf8(b),
    decreases a.len(),
{
    if a.len() == 0 {
        assert(a + b =~= b);
        assert(encode_utf8(a) =~= Seq::<u8>::empty());
        assert(Seq::<u8>::empty() + encode_utf8(b) =~= encode_utf8(b));
    } else {
        lemma_encode_concat(a.drop_first(), b);
        assert((a + b).drop_first() =~= a.drop_first() + b);
        assert((a + b)[0] == a[0]);
        assert(encode_utf8(a + b) =~= encode_utf8(a) + encode_utf8(b));
    }
}

/// The byte offset of every character index is a character boundary of the encoding.
pub proof fn lemma_offset_is_boundary(t: Seq<char>, k: int)
    requires
        0 <= k <= t.len(),
    ensures
        is_char_boundary(encode_utf8(t), byte_offset(t, k) as int),
    decreases t.len(),
{
    broadcast use encode_utf8_valid_utf8;

    if k > 0 {
        let bytes = encode_utf8(t);
        let rest = t.drop_first();
        encode_utf8_first_scalar(t);
        char_is_scalar(t[0]);
        lemma_encode_len(t);
        lemma_encode_len(seq![t[0]]);
        lemma_byte_len_single(t[0]);
        assert(encode_utf8(seq![t[0]]) =~= encode_scalar(t[0] as u32)) by {
            assert(seq![t[0]].drop_first() =~= Seq::<char>::empty());
            assert(encode_utf8(Seq::<char>::empty()) =~= Seq::<u8>::empty());
        }
        assert(bytes == encode_scalar(t[0] as u32) + encode_utf8(rest));
        let w = length_of_first_scalar(bytes);
        assert(pop_first_scalar(bytes) =~= encode_utf8(rest));
        assert(t =~= seq![t[0]] + rest);
        assert(t.take(k) =~= seq![t[0]] + rest.take(k - 1));
        lemma_byte_len_concat(seq![t[0]], rest.take(k - 1));
        lemma_offset_is_boundary(rest, k - 1);
        lemma_byte_len_subrange(t, k, t.len() as int);
        lemma_byte_offset_full(t);
    }
}

/// The byte offset of each character index of `t`, and of its end.
pub(crate) fn byte_offsets(t: &Vec<char>) -> (r: Vec<usize>)
    requires
        byte_len(t@) <= usize::MAX,
    ensures
        r@.len() == t@.len() + 1,
        forall|k: int| 0 <= k <= t@.len() ==> #[trigger] r@[k] == byte_offset(t@, k),
{
    let mut r: Vec<usize> = Vec::new();
    r.push(0);
    let mut b: usize = 0;
    let mut k: usize = 0;
    proof {
        assert(t@.take(0) =~= Seq::<char>::empty());
        lemma_byte_offset_full(t@);
    }
    while k < t.len()
        invariant
            byte_len(t@) <= usize::MAX,
            k <= t@.len(),
            r@.len() == k + 1,
            b == byte_offset(t@, k as int),
            forall|j: int| 0 <= j <= k ==> #[trigger] r@[j] == byte_offset(t@, j),
        decreases t@.len() - k,
    {
        proof {
            lemma_byte_offset_step(t@, k as int);
            lemma_byte_len_subrange(t@, k as int + 1, t@.len() as int);
            lemma_byte_offset_full(t@);
        }
        b = b + char_len_utf8(t[k]);
        k = k + 1;
        r.push(b);
    }
    r
}

/// An owned copy of the characters `from..to` of `s`, cut at the byte offsets that
/// `offs` gives for them.
pub(crate) fn substring_at(s: &str, offs: &Vec<usize>, from: usize, to: usize) -> (r: String)
    requires
        from <= to <= s@.len(),
        offs@.len() == s@.len() + 1,
        forall|k: int| 0 <= k <= s@.len() ==> #[trigger] offs@[k] == byte_offset(s@, k),
    ensures
        r@ == s@.subrange(from as int, to as int),
{
    broadcast use encode_utf8_decode_utf8;

    let t = Ghost(s@);
    let bf = offs[from];
    let bt = offs[to];
    proof {
        lemma_offset_is_boundary(t@, from as int);
        lemma_byte_len_subrange(t@, from as int, to as int);
        lemma_encode_concat(t@.take(from as int), t@.skip(from as int));
        assert(t@ =~= t@.take(from as int) + t@.skip(from as int));
        lemma_encode_len(t@.take(from as int));
    }
    let (_, tail) = s.split_at(bf);
    proof {
        assert(tail.spec_bytes() =~= encode_utf8(t@.skip(from as int)));
        assert(tail@ == t@.skip(from as int)) by {
            assert(decode_utf8(encode_utf8(tail@)) == tail@);
        }
        let u = t@.skip(from as int);
        lemma_offset_is_boundary(u, (to - from) as int);
        assert(u.take((to - from) as int) =~= t@.subrange(from as int, to as int));
        lemma_encode_concat(u.take((to - from) as int), u.skip((to - from) as int));
        assert(u =~= u.take((to - from) as int) + u.skip((to - from) as int));
        lemma_encode_len(u.take((to - from) as int));
    }
    let (mid, _) = tail.split_at(bt - bf);
    proof {
        let u = t@.skip(from as int);
        assert(mid.spec_bytes() =~= encode_utf8(u.take((to - from) as int)));
        assert(mid@ == u.take((to - from) as int)) by {
            assert(decode_utf8(encode_utf8(mid@)) == mid@);
        }
    }
    mid.to_owned()
}

/// Byte width of a character (`char::len_utf8`).
pub(crate) fn char_len_utf8(c: char) -> (w: usize)
    ensures
        w == char_width(c),
        1 <= w <= 4,
{
    let u = c as u32;
    if u < 0x80 {
        1
    } else if u < 0x800 {
        2
    } else if u < 0x10000 {
        3
    } else {
        4
    }
}

/// Whether `c` is whitespace (`char::is_whitespace`).
pub(crate) fn is_space_char(c: char) -> (r: bool)
    ensures
        r == is_space(c),
{
    let u = c as u32;
    (9 <= u && u <= 13) || u == 32 || u == 0x85 || u == 0xA0 || u == 0x1680 || (0x2000 <= u
        && u <= 0x200A) || u == 0x2028 || u == 0x2029 || u == 0x202F || u == 0x205F || u == 0x3000
}

/// The characters of `s`, in order.
pub(crate) fn chars_of(s: &str) -> (r: Vec<char>)
    ensures
        r@ == s@,
{
    let mut r: Vec<char> = Vec::new();
    for c in it: s.chars()
        invariant
            r@ == it.seq().take(it.index() as int),
            it.seq() == s@,
    {
        r.push(c);
    }
    r
}

/// An owned copy of the characters `from..to` of `s`.
pub(crate) fn substring(s: &str, from: usize, to: usize) -> (r: String)
    requires
        from <= to <= s@.len(),
    ensures
        r@ == s@.subrange(from as int, to as int),
{
    s.substring_char(from, to).to_owned()
}

/// Byte length of `s`, computed from its characters.
pub(crate) fn str_byte_len(s: &str) -> (n: usize)
    ensures
        n == byte_len(s@),
{
    proof {
        lemma_str_len(s);
    }
    let b = s.as_bytes();
    b.len()
}

/// Index of the first line feed at or after `a`, or the length of `t`.
pub(crate) fn find_line_stop(t: &Vec<char>, a: usize) -> (e: usize)
    requires
        a <= t@.len(),
    ensures
        e == line_stop(t@, a as int),
        a <= e <= t@.len(),
{
    let mut e = a;
    while e < t.len() && t[e] != '\n'
        invariant
            a <= e <= t@.len(),
            line_stop(t@, a as int) == line_stop(t@, e as int),
        decreases t@.len() - e,
    {
        e = e + 1;
    }
    e
}

/// End of the content of the line that starts at `a`.
pub(crate) fn find_line_end(t: &Vec<char>, a: usize, stop: usize) -> (e: usize)
    requires
        a <= t@.len(),
        stop == line_stop(t@, a as int),
        a <= stop <= t@.len(),
    ensures
        e == line_end(t@, a as int),
        a <= e <= stop,
{
    if stop < t.len() && stop > a && t[stop - 1] == '\r' {
        stop - 1
    } else {
        stop
    }
}

/// First index at or after `i` and before `e` that does not hold whitespace.
pub(crate) fn skip_space_exec(t: &Vec<char>, i: usize, e: usize) -> (r: usize)
    requires
        i <= e <= t@.len(),
    ensures
        r == skip_space(t@, i as int, e as int),
        i <= r <= e,
{
    let mut k = i;
    while k < e && is_space_char(t[k])
        invariant
            i <= k <= e <= t@.len(),
            skip_space(t@, i as int, e as int) == skip_space(t@, k as int, e as int),
        decreases e - k,
    {
        k = k + 1;
    }
    k
}

/// First index at or after `i` and before `e` that does not hold `c`.
pub(crate) fn skip_char_exec(t: &Vec<char>, c: char, i: usize, e: usize) -> (r: usize)
    requires
        i <= e <= t@.len(),
    ensures
        r == skip_char(t@, c, i as int, e as int),
        i <= r <= e,
{
    let mut k = i;
    while k < e && t[k] == c
        invariant
            i <= k <= e <= t@.len(),
            skip_char(t@, c, i as int, e as int) == skip_char(t@, c, k as int, e as int),
        decreases e - k,
    {
        k = k + 1;
    }
    k
}

/// End of `t[lo..j]` once trailing whitespace is removed.
pub(crate) fn trim_end_exec(t: &Vec<char>, lo: usize, j: usize) -> (r: usize)
    requires
        lo <= j <= t@.len(),
    ensures
        r == trim_end_at(t@, lo as int, j as int),
        lo <= r <= j,
{
    let mut k = j;
    while k > lo && is_space_char(t[k - 1])
        invariant
            lo <= k <= j <= t@.len(),
            trim_end_at(t@, lo as int, j as int) == trim_end_at(t@, lo as int, k as int),
        decreases k,
    {
        k = k - 1;
    }
    k
}

/// Byte length of the characters `i..j` of `t`.
pub(crate) fn range_byte_len(t: &Vec<char>, i: usize, j: usize) -> (n: usize)
    requires
        i <= j <= t@.len(),
        byte_len(t@) <= usize::MAX,
    ensures
        n == byte_len(t@.subrange(i as int, j as int)),
{
    let mut n: usize = 0;
    let mut k = i;
    while k < j
        invariant
            i <= k <= j <= t@.len(),
            byte_len(t@) <= usize::MAX,
            n == byte_len(t@.subrange(i as int, k as int)),
        decreases j - k,
    {
        proof {
            lemma_byte_len_subrange(t@, i as int, k as int + 1);
            lemma_byte_len_subrange(t@, k as int + 1, t@.len() as int);
            lemma_byte_offset_full(t@);
            lemma_byte_offset_step(t@, k as int);
            lemma_byte_len_subrange(t@, i as int, k as int);
        }
        n = n + char_len_utf8(t[k]);
        k = k + 1;
    }
    n
}

} // verus!
